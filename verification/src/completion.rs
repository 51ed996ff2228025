//! The completion pass: variables give way to what the environment binds
//! them to.

use crate::container::Container;
use crate::heap::{lemma_extends_twice, Heap};
use crate::machine::Head;
use crate::store::{Handle, Node, Store};
use crate::term::{Error, Term};
use vstd::prelude::*;

verus! {

/// Whether the term holds a variable that the environment binds.
pub open spec fn touched(t: Term, env: Map<Seq<char>, Term>) -> bool
    decreases t,
{
    match t {
        Term::Variable(n) => env.contains_key(n),
        Term::Quote(b) => touched(*b, env),
        Term::Sequence(a, b) => touched(*a, env) || touched(*b, env),
        _ => false,
    }
}

/// The term with every bound variable replaced by what it is bound to.
/// What is put in place of a variable is not looked into again.
pub open spec fn fill(t: Term, env: Map<Seq<char>, Term>) -> Term
    decreases t,
{
    match t {
        Term::Variable(n) => if env.contains_key(n) {
            env[n]
        } else {
            t
        },
        Term::Quote(b) => Term::Quote(Box::new(fill(*b, env))),
        Term::Sequence(a, b) => Term::Sequence(Box::new(fill(*a, env)), Box::new(fill(*b, env))),
        _ => t,
    }
}

/// How many terms the completion adds to the store: one for each quotation
/// and each sequence above a bound variable.
pub open spec fn fill_cost(t: Term, env: Map<Seq<char>, Term>) -> nat
    decreases t,
{
    match t {
        Term::Quote(b) => if touched(*b, env) {
            fill_cost(*b, env) + 1
        } else {
            0
        },
        Term::Sequence(a, b) => if touched(*a, env) || touched(*b, env) {
            fill_cost(*a, env) + fill_cost(*b, env) + 1
        } else {
            0
        },
        _ => 0,
    }
}

/// What `complete` does: it refuses a handle that the store does not hold,
/// fails where the store has no room for the new terms, and else returns a
/// handle of the completed term. The store may only gain terms, and a
/// failure changes nothing.
pub open spec fn completed<O>(pre: Heap<O>, post: Heap<O>, obj: O, r: Result<O, Error>) -> bool {
    &&& pre.extends_to(post)
    &&& if !pre.has(obj) {
        r == Err::<O, Error>(Error::Type) && post == pre
    } else if fill_cost(pre.terms[obj], pre.scope()) > pre.room() {
        r == Err::<O, Error>(Error::Space) && post == pre
    } else {
        &&& r matches Ok(o)
        &&& post.has(o)
        &&& post.terms[o] == fill(pre.terms[obj], pre.scope())
        &&& post.room() == pre.room() - fill_cost(pre.terms[obj], pre.scope())
    }
}

/// A term without a bound variable is its own completion, at no cost.
pub proof fn lemma_untouched(t: Term, env: Map<Seq<char>, Term>)
    requires
        !touched(t, env),
    ensures
        fill(t, env) == t,
        fill_cost(t, env) == 0,
    decreases t,
{
    match t {
        Term::Quote(b) => {
            lemma_untouched(*b, env);
        },
        Term::Sequence(a, b) => {
            lemma_untouched(*a, env);
            lemma_untouched(*b, env);
        },
        _ => {},
    }
}

/// A store that only gains terms gives the names of its environment the
/// same terms.
pub proof fn lemma_scope_kept(pre: Heap<Handle>, post: Heap<Handle>)
    requires
        pre.wf(),
        pre.extends_to(post),
    ensures
        post.scope() == pre.scope(),
{
    assert forall|k: Seq<char>| #[trigger] pre.bindings.contains_key(k) implies post.terms[post.bindings[k]]
        == pre.terms[pre.bindings[k]] by {
        pre.lemma_kept(post, pre.bindings[k]);
    }
    assert(post.scope() =~= pre.scope());
}

impl Store {
    /// Completes the term of a handle. Returns the handle of the completed
    /// term and whether a variable gave way; where none did, the handle is
    /// the one given and the store is as before.
    pub(crate) fn fill(&mut self, obj: Handle) -> (r: Result<(Handle, bool), Error>)
        requires
            old(self).inv(),
            old(self)@.has(obj),
        ensures
            final(self).inv(),
            old(self)@.extends_to(final(self)@),
            fill_cost(old(self)@.terms[obj], old(self)@.scope()) > old(self)@.room() ==> r == Err::<
                (Handle, bool),
                Error,
            >(Error::Space),
            fill_cost(old(self)@.terms[obj], old(self)@.scope()) <= old(self)@.room() ==> ({
                &&& r matches Ok((o, changed))
                &&& changed == touched(old(self)@.terms[obj], old(self)@.scope())
                &&& final(self)@.has(o)
                &&& final(self)@.terms[o] == fill(old(self)@.terms[obj], old(self)@.scope())
                &&& final(self)@.room() == old(self)@.room() - fill_cost(
                    old(self)@.terms[obj],
                    old(self)@.scope(),
                )
                &&& !changed ==> o == obj
            }),
        decreases old(self)@.terms[obj].size(),
    {
        let ghost pre = self@;
        let ghost env = pre.scope();
        let ghost t = pre.terms[obj];
        proof {
            self.consistent();
            lemma_extends_twice(pre, pre, pre);
            assert(pre.linked(obj));
        }
        match self.head(obj) {
            Head::Quote(b) => {
                let (nb, cb) = match self.fill(b) {
                    Ok(x) => x,
                    Err(e) => {
                        return Err(e);
                    },
                };
                if !cb {
                    proof {
                        lemma_untouched(t, env);
                        lemma_untouched(pre.terms[b], env);
                        pre.lemma_kept(self@, obj);
                    }
                    return Ok((obj, false));
                }
                let ghost mid = self@;
                proof {
                    assert(seq![nb][0] == nb);
                }
                match self.enter(Node::Quote(nb)) {
                    Ok(q) => {
                        proof {
                            lemma_extends_twice(pre, mid, self@);
                        }
                        Ok((q, true))
                    },
                    Err(e) => {
                        proof {
                            lemma_extends_twice(pre, mid, self@);
                        }
                        Err(e)
                    },
                }
            },
            Head::Pair(a, b) => {
                let (na, ca) = match self.fill(a) {
                    Ok(x) => x,
                    Err(e) => {
                        return Err(e);
                    },
                };
                let ghost mid = self@;
                proof {
                    self.consistent();
                    lemma_scope_kept(pre, mid);
                    pre.lemma_kept(mid, b);
                }
                let (nb, cb) = match self.fill(b) {
                    Ok(x) => x,
                    Err(e) => {
                        proof {
                            lemma_extends_twice(pre, mid, self@);
                        }
                        return Err(e);
                    },
                };
                let ghost late = self@;
                proof {
                    lemma_extends_twice(pre, mid, late);
                    mid.lemma_kept(late, na);
                }
                if !ca && !cb {
                    proof {
                        lemma_untouched(t, env);
                        lemma_untouched(pre.terms[a], env);
                        lemma_untouched(pre.terms[b], env);
                        pre.lemma_kept(self@, obj);
                    }
                    return Ok((obj, false));
                }
                proof {
                    assert(seq![na, nb][0] == na);
                    assert(seq![na, nb][1] == nb);
                }
                match self.enter(Node::Sequence(na, nb)) {
                    Ok(q) => {
                        proof {
                            lemma_extends_twice(pre, late, self@);
                        }
                        Ok((q, true))
                    },
                    Err(e) => {
                        proof {
                            lemma_extends_twice(pre, late, self@);
                        }
                        Err(e)
                    },
                }
            },
            Head::Name => match self.bound(obj) {
                Some(v) => Ok((v, true)),
                None => Ok((obj, false)),
            },
            _ => Ok((obj, false)),
        }
    }
}

} // verus!
