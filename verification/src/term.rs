//! Terms, the nine combinators, variables and errors.

use std::rc::Rc;
use vstd::prelude::*;

verus! {

/// An error that may occur during a computation.
#[derive(Clone, Copy, Debug, PartialEq, Eq, Structural)]
pub enum Error {
    /// A size bound was exceeded.
    Space,
    /// The effort quota ran out before a normal form was reached.
    Time,
    /// A rule or an accessor met a term of the wrong shape.
    Type,
    /// A check that the caller asked for failed.
    Assert,
    /// A text is malformed.
    Syntax,
    /// A feature is left out on purpose.
    Stub,
    /// An internal invariant was violated.
    Bug,
}

/// The nine primitive combinators.
#[derive(Clone, Copy, Debug, PartialEq, Eq, Structural)]
pub enum Constant {
    Apply,
    Quote,
    Compose,
    Copy,
    Drop,
    Swap,
    Shift,
    Reset,
    Bang,
}

/// A variable that may be replaced with a value.
pub struct Variable(pub Rc<str>);

/// Which names a variable may carry. Every name is accepted.
pub open spec fn valid_name(name: Seq<char>) -> bool {
    true
}

/// Decides `valid_name`.
pub fn check_name(name: &Rc<str>) -> (ok: bool)
    ensures
        ok == valid_name(name@),
{
    true
}

impl Variable {
    /// Validate a variable name.
    pub fn read(name: Rc<str>) -> (r: Result<Variable, Error>)
        ensures
            valid_name(name@) ==> r == Ok::<Variable, Error>(Variable(name)),
            !valid_name(name@) ==> r == Err::<Variable, Error>(Error::Syntax),
    {
        if check_name(&name) {
            Ok(Variable(name))
        } else {
            Err(Error::Syntax)
        }
    }

    /// The name as a sequence of characters.
    pub open spec fn name(self) -> Seq<char> {
        self.0@
    }
}

/// A program, as a finite tree.
pub enum Term {
    /// The empty program.
    Identity,
    /// A primitive combinator.
    Constant(Constant),
    /// A placeholder, by name.
    Variable(Seq<char>),
    /// A text without behaviour.
    Comment(Seq<char>),
    /// A program held as data.
    Quote(Box<Term>),
    /// The first program, then the second.
    Sequence(Box<Term>, Box<Term>),
}

/// The shapes that the store's predicates ask about.
#[derive(Clone, Copy, Debug, PartialEq, Eq, Structural)]
pub enum Kind {
    Identity,
    Constant,
    Variable,
    Comment,
    Quote,
    Sequence,
    /// `Shift` or `Reset`.
    Prompt,
    Bang,
}

impl Term {
    /// The number of nodes of the tree.
    pub open spec fn size(self) -> nat
        decreases self,
    {
        match self {
            Term::Quote(b) => 1 + b.size(),
            Term::Sequence(a, b) => 1 + a.size() + b.size(),
            _ => 1,
        }
    }

    /// Whether the root of the term has the given shape.
    pub open spec fn is(self, k: Kind) -> bool {
        match k {
            Kind::Identity => self is Identity,
            Kind::Constant => self is Constant,
            Kind::Variable => self is Variable,
            Kind::Comment => self is Comment,
            Kind::Quote => self is Quote,
            Kind::Sequence => self is Sequence,
            Kind::Prompt => self == Term::Constant(Constant::Shift) || self == Term::Constant(
                Constant::Reset,
            ),
            Kind::Bang => self == Term::Constant(Constant::Bang),
        }
    }

    /// Whether the term or one of its descendants has the given shape.
    pub open spec fn has(self, k: Kind) -> bool
        decreases self,
    {
        self.is(k) || match self {
            Term::Quote(b) => b.has(k),
            Term::Sequence(a, b) => a.has(k) || b.has(k),
            _ => false,
        }
    }

    /// The program as the sequence of its steps: sequencing is taken apart
    /// and the empty program leaves nothing.
    pub open spec fn flatten(self) -> Seq<Term>
        decreases self,
    {
        match self {
            Term::Identity => Seq::empty(),
            Term::Sequence(a, b) => a.flatten() + b.flatten(),
            _ => seq![self],
        }
    }
}

/// How many `Sequence` nodes join `n` steps into one term.
pub open spec fn joints(n: nat) -> nat {
    if n <= 1 {
        0
    } else {
        (n - 1) as nat
    }
}

/// The steps joined into one term, nested to the left; no step gives the
/// empty program.
pub open spec fn assemble(steps: Seq<Term>) -> Term
    decreases steps.len(),
{
    if steps.len() == 0 {
        Term::Identity
    } else if steps.len() == 1 {
        steps[0]
    } else {
        Term::Sequence(Box::new(assemble(steps.drop_last())), Box::new(steps.last()))
    }
}

/// The steps of several programs, one program after the other.
pub open spec fn flatten_all(terms: Seq<Term>) -> Seq<Term>
    decreases terms.len(),
{
    if terms.len() == 0 {
        Seq::empty()
    } else {
        terms[0].flatten() + flatten_all(terms.skip(1))
    }
}

} // verus!
