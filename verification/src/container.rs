//! The capabilities of a term store, and of the handler that answers bangs.

use crate::heap::Heap;
use crate::term::{Constant, Error, Kind, Term, Variable};
use std::rc::Rc;
use vstd::prelude::*;

verus! {

/// A place where a computation may occur.
///
/// A container names terms by handles of type `Object`. Its contracts speak
/// of its model, a [`Heap`]. A handle that the container does not hold is
/// refused with `Error::Type`.
pub trait Container: Sized {
    type Object;

    /// The invariant of the container, which every operation needs and keeps.
    spec fn inv(&self) -> bool;

    /// The model of the container.
    spec fn view(&self) -> Heap<Self::Object>;

    /// The model of a container that meets its invariant is consistent.
    proof fn consistent(&self)
        requires
            self.inv(),
        ensures
            self.view().wf(),
    ;

    /// Deserialize an object from a string. Fails with `Error::Syntax`
    /// on a text that stands for no term.
    fn read(&mut self, src: &str) -> (r: Result<Self::Object, Error>)
        requires
            old(self).inv(),
        ensures
            final(self).inv(),
            crate::syntax::was_read(old(self).view(), final(self).view(), src@, r),
    ;

    /// Serialize an object to a string. Fails with `Error::Type` on a
    /// term that cannot be written so that it reads back.
    fn show(&self, obj: Self::Object) -> (r: Result<String, Error>)
        requires
            self.inv(),
        ensures
            match crate::syntax::shown(self.view(), obj) {
                Ok(s) => r matches Ok(out) && out@ == s,
                Err(e) => r matches Err(x) && x == e,
            },
    ;

    /// Get the object associated with a variable.
    fn get(&self, key: Variable) -> (r: Result<Option<Self::Object>, Error>)
        requires
            self.inv(),
        ensures
            r == Ok::<Option<Self::Object>, Error>(self.view().lookup(key.name())),
    ;

    /// Associate a value with a variable; returns the value that the
    /// variable was associated with before, if any.
    fn put(&mut self, key: Variable, value: Self::Object) -> (r: Result<
        Option<Self::Object>,
        Error,
    >)
        requires
            old(self).inv(),
        ensures
            final(self).inv(),
            old(self).view().put(final(self).view(), key.name(), value, r),
    ;

    /// Remove the value associated with a variable, and return it.
    fn delete(&mut self, key: Variable) -> (r: Result<Self::Object, Error>)
        requires
            old(self).inv(),
        ensures
            final(self).inv(),
            old(self).view().delete(final(self).view(), key.name(), r),
    ;

    /// Rewrite an object until it reaches normal form, or until an
    /// effort quota is exhausted.
    fn normalize(&mut self, obj: Self::Object) -> (r: Result<Self::Object, Error>)
        requires
            old(self).inv(),
        ensures
            final(self).inv(),
            crate::semantics::normalized(old(self).view(), final(self).view(), obj, r),
    ;

    /// Extend an object using an analysis of the current environment:
    /// every variable that the environment binds gives way to what it is
    /// bound to.
    fn complete(&mut self, obj: Self::Object) -> (r: Result<Self::Object, Error>)
        requires
            old(self).inv(),
        ensures
            final(self).inv(),
            crate::completion::completed(old(self).view(), final(self).view(), obj, r),
    ;

    /// Create an identity program.
    fn new_identity(&self) -> (r: Result<Self::Object, Error>)
        requires
            self.inv(),
        ensures
            r == Ok::<Self::Object, Error>(self.view().unit),
    ;

    /// Create a new object for the given constant.
    fn new_constant(&mut self, name: Constant) -> (r: Result<Self::Object, Error>)
        requires
            old(self).inv(),
        ensures
            final(self).inv(),
            old(self).view().made(final(self).view(), r, Term::Constant(name), Seq::empty()),
    ;

    /// Create a new object for the given variable.
    fn new_variable(&mut self, name: Variable) -> (r: Result<Self::Object, Error>)
        requires
            old(self).inv(),
        ensures
            final(self).inv(),
            old(self).view().made(
                final(self).view(),
                r,
                Term::Variable(name.name()),
                Seq::empty(),
            ),
    ;

    /// Create a new object for the given comment.
    fn new_comment(&mut self, body: Rc<str>) -> (r: Result<Self::Object, Error>)
        requires
            old(self).inv(),
        ensures
            final(self).inv(),
            old(self).view().made(final(self).view(), r, Term::Comment(body@), Seq::empty()),
    ;

    /// Create a new quotation with the given object as its body.
    fn new_quote(&mut self, body: Self::Object) -> (r: Result<Self::Object, Error>)
        requires
            old(self).inv(),
        ensures
            final(self).inv(),
            old(self).view().made(
                final(self).view(),
                r,
                Term::Quote(Box::new(old(self).view().terms[body])),
                seq![body],
            ),
    ;

    /// Create a new sequential composition of the two objects given.
    fn new_sequence(&mut self, fst: Self::Object, snd: Self::Object) -> (r: Result<
        Self::Object,
        Error,
    >)
        requires
            old(self).inv(),
        ensures
            final(self).inv(),
            old(self).view().made(
                final(self).view(),
                r,
                Term::Sequence(
                    Box::new(old(self).view().terms[fst]),
                    Box::new(old(self).view().terms[snd]),
                ),
                seq![fst, snd],
            ),
    ;

    /// Returns true if this object is the identity function.
    fn is_identity(&self, obj: Self::Object) -> (r: Result<bool, Error>)
        requires
            self.inv(),
        ensures
            r == self.view().probe(obj, Kind::Identity, false),
    ;

    /// Returns true if this object is a constant.
    fn is_constant(&self, obj: Self::Object) -> (r: Result<bool, Error>)
        requires
            self.inv(),
        ensures
            r == self.view().probe(obj, Kind::Constant, false),
    ;

    /// Returns true if this object is a variable.
    fn is_variable(&self, obj: Self::Object) -> (r: Result<bool, Error>)
        requires
            self.inv(),
        ensures
            r == self.view().probe(obj, Kind::Variable, false),
    ;

    /// Returns true if this object is a comment.
    fn is_comment(&self, obj: Self::Object) -> (r: Result<bool, Error>)
        requires
            self.inv(),
        ensures
            r == self.view().probe(obj, Kind::Comment, false),
    ;

    /// Returns true if this object is a quotation.
    fn is_quote(&self, obj: Self::Object) -> (r: Result<bool, Error>)
        requires
            self.inv(),
        ensures
            r == self.view().probe(obj, Kind::Quote, false),
    ;

    /// Returns true if this object is a sequence.
    fn is_sequence(&self, obj: Self::Object) -> (r: Result<bool, Error>)
        requires
            self.inv(),
        ensures
            r == self.view().probe(obj, Kind::Sequence, false),
    ;

    /// Returns true if this object is either `shift` or `reset`.
    fn is_prompt(&self, obj: Self::Object) -> (r: Result<bool, Error>)
        requires
            self.inv(),
        ensures
            r == self.view().probe(obj, Kind::Prompt, false),
    ;

    /// Returns true if this object is a bang.
    fn is_bang(&self, obj: Self::Object) -> (r: Result<bool, Error>)
        requires
            self.inv(),
        ensures
            r == self.view().probe(obj, Kind::Bang, false),
    ;

    /// Returns true if `is_constant` returns true for this object or for
    /// any of its descendants.
    fn has_constant(&self, obj: Self::Object) -> (r: Result<bool, Error>)
        requires
            self.inv(),
        ensures
            r == self.view().probe(obj, Kind::Constant, true),
    ;

    /// Returns true if `is_variable` returns true for this object or for
    /// any of its descendants. If this function returns false, then this
    /// object is closed.
    fn has_variable(&self, obj: Self::Object) -> (r: Result<bool, Error>)
        requires
            self.inv(),
        ensures
            r == self.view().probe(obj, Kind::Variable, true),
    ;

    /// Returns true if `is_comment` returns true for this object or for
    /// any of its descendants.
    fn has_comment(&self, obj: Self::Object) -> (r: Result<bool, Error>)
        requires
            self.inv(),
        ensures
            r == self.view().probe(obj, Kind::Comment, true),
    ;

    /// Returns true if `is_quote` returns true for this object or for any
    /// of its descendants.
    fn has_quote(&self, obj: Self::Object) -> (r: Result<bool, Error>)
        requires
            self.inv(),
        ensures
            r == self.view().probe(obj, Kind::Quote, true),
    ;

    /// Returns true if `is_prompt` returns true for this object or for
    /// any of its descendants.
    fn has_prompt(&self, obj: Self::Object) -> (r: Result<bool, Error>)
        requires
            self.inv(),
        ensures
            r == self.view().probe(obj, Kind::Prompt, true),
    ;

    /// Returns true if `is_bang` returns true for this object or for any
    /// of its descendants.
    fn has_bang(&self, obj: Self::Object) -> (r: Result<bool, Error>)
        requires
            self.inv(),
        ensures
            r == self.view().probe(obj, Kind::Bang, true),
    ;

    /// Get the name associated with a constant.
    fn get_constant_name(&self, obj: Self::Object) -> (r: Result<Constant, Error>)
        requires
            self.inv(),
        ensures
            r == if self.view().has(obj) && self.view().terms[obj] is Constant {
                Ok::<Constant, Error>(self.view().terms[obj]->Constant_0)
            } else {
                Err::<Constant, Error>(Error::Type)
            },
    ;

    /// Get the name associated with a variable.
    fn get_variable_name(&self, obj: Self::Object) -> (r: Result<Variable, Error>)
        requires
            self.inv(),
        ensures
            match r {
                Ok(v) => self.view().has(obj) && self.view().terms[obj] == Term::Variable(
                    v.name(),
                ),
                Err(e) => e == Error::Type && !(self.view().has(obj)
                    && self.view().terms[obj] is Variable),
            },
    ;

    /// Get the body of a comment.
    fn get_comment_body(&self, obj: Self::Object) -> (r: Result<Rc<str>, Error>)
        requires
            self.inv(),
        ensures
            match r {
                Ok(b) => self.view().has(obj) && self.view().terms[obj] == Term::Comment(b@),
                Err(e) => e == Error::Type && !(self.view().has(obj)
                    && self.view().terms[obj] is Comment),
            },
    ;

    /// Get the body of a quotation.
    fn get_quote_body(&self, obj: Self::Object) -> (r: Result<Self::Object, Error>)
        requires
            self.inv(),
        ensures
            r == self.view().part(obj, Kind::Quote, 0),
    ;

    /// Get the first element of a sequence.
    fn get_sequence_fst(&self, obj: Self::Object) -> (r: Result<Self::Object, Error>)
        requires
            self.inv(),
        ensures
            r == self.view().part(obj, Kind::Sequence, 0),
    ;

    /// Get the second element of a sequence.
    fn get_sequence_snd(&self, obj: Self::Object) -> (r: Result<Self::Object, Error>)
        requires
            self.inv(),
        ensures
            r == self.view().part(obj, Kind::Sequence, 1),
    ;

    /// Collect garbage, protecting the given objects and their
    /// children, and what the environment binds.
    fn collect(&mut self, xs: Vec<Self::Object>) -> (r: Result<(), Error>)
        requires
            old(self).inv(),
        ensures
            final(self).inv(),
            crate::heap::collected(old(self).view(), final(self).view(), xs@, r),
    ;
}

/// A delegate to provide an effectful interpretation of bangs, on
/// behalf of a `Container`.
///
/// The handler is given the values that stand before the bang and answers
/// with the terms that take their place and the bang's. It may add terms to
/// the container and change the environment; it keeps every term that the
/// container holds, and so does not collect.
pub trait Handler<C: Container> {
    /// Answers a bang. `args` are the values that stand before it, first
    /// to last; the terms returned run in their place, first to last.
    fn execute(&mut self, args: Vec<C::Object>, ctx: &mut C) -> (r: Result<Vec<C::Object>, Error>)
        requires
            old(ctx).inv(),
            old(ctx).view().has_all(args@),
        ensures
            final(ctx).inv(),
            old(ctx).view().grows_to(final(ctx).view()),
    ;
}

/// A container that can run the effects of a program.
///
/// The method stands in a trait of its own because its handler is a
/// `Handler` of the container, and so needs `Container` to be complete.
pub trait Effects: Container {
    /// Like `normalize`, but executes bangs using a handler.
    fn execute<H: Handler<Self>>(&mut self, obj: Self::Object, ctx: &mut H) -> (r: Result<
        Self::Object,
        Error,
    >)
        requires
            old(self).inv(),
        ensures
            final(self).inv(),
            crate::semantics::executed(old(self).view(), final(self).view(), obj, r),
    ;
}

} // verus!
