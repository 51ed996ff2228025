//! What rewriting means: a machine over the steps of a program.
//!
//! The steps already in normal form stand on the left of a cursor, the steps
//! still to run on its right. A value, that is a quotation or a comment,
//! moves to the left as it is; a combinator acts on the values on the left
//! and costs one unit of effort. A variable, and for pure rewriting a bang,
//! leaves the program stuck: everything from there on stays as it is. A
//! continuation that `Shift` captures is a quotation like any other.

use crate::heap::Heap;
use crate::term::{assemble, joints, Constant, Error, Term};
use vstd::prelude::*;

verus! {

/// A state of the rewriter.
pub struct Config {
    /// The steps in normal form, in program order.
    pub left: Seq<Term>,
    /// The steps still to run, the next one first.
    pub right: Seq<Term>,
    /// Whether a variable or a bang has stopped the rewriting.
    pub stuck: bool,
    /// The rule applications that are left.
    pub effort: nat,
    /// The terms that the store can still take.
    pub room: nat,
}

/// What one move of the rewriter does.
pub enum Step {
    /// Nothing is left to do, or a bang waits for its handler.
    Halt,
    /// The rewriting fails.
    Fault(Error),
    /// The rewriting goes on from another state.
    Next(Config),
}

/// Where the first `Reset` of the steps stands; their length if there is none.
pub open spec fn boundary(steps: Seq<Term>) -> nat
    decreases steps.len(),
{
    if steps.len() == 0 || steps[0] == Term::Constant(Constant::Reset) {
        0
    } else {
        1 + boundary(steps.skip(1))
    }
}

/// A combinator other than `Bang`, next to run in a state that is not stuck.
pub open spec fn rule(op: Constant, c: Config) -> Step {
    let n = c.left.len() as int;
    let rest = c.right.skip(1);
    let spent = (c.effort - 1) as nat;
    match op {
        Constant::Apply => if n < 1 || !(c.left[n - 1] is Quote) {
            Step::Fault(Error::Type)
        } else if c.effort == 0 {
            Step::Fault(Error::Time)
        } else {
            Step::Next(
                Config {
                    left: c.left.take(n - 1),
                    right: c.left[n - 1]->Quote_0.flatten() + rest,
                    effort: spent,
                    ..c
                },
            )
        },
        Constant::Quote => if n < 1 {
            Step::Fault(Error::Type)
        } else if c.effort == 0 {
            Step::Fault(Error::Time)
        } else if c.room < 1 {
            Step::Fault(Error::Space)
        } else {
            Step::Next(
                Config {
                    left: c.left.take(n - 1).push(Term::Quote(Box::new(c.left[n - 1]))),
                    right: rest,
                    effort: spent,
                    room: (c.room - 1) as nat,
                    ..c
                },
            )
        },
        Constant::Compose => if n < 2 || !(c.left[n - 2] is Quote) || !(c.left[n - 1] is Quote) {
            Step::Fault(Error::Type)
        } else if c.effort == 0 {
            Step::Fault(Error::Time)
        } else if c.room < 2 {
            Step::Fault(Error::Space)
        } else {
            Step::Next(
                Config {
                    left: c.left.take(n - 2).push(
                        Term::Quote(
                            Box::new(
                                Term::Sequence(c.left[n - 2]->Quote_0, c.left[n - 1]->Quote_0),
                            ),
                        ),
                    ),
                    right: rest,
                    effort: spent,
                    room: (c.room - 2) as nat,
                    ..c
                },
            )
        },
        Constant::Copy => if n < 1 {
            Step::Fault(Error::Type)
        } else if c.effort == 0 {
            Step::Fault(Error::Time)
        } else {
            Step::Next(Config { left: c.left.push(c.left[n - 1]), right: rest, effort: spent, ..c })
        },
        Constant::Drop => if n < 1 {
            Step::Fault(Error::Type)
        } else if c.effort == 0 {
            Step::Fault(Error::Time)
        } else {
            Step::Next(Config { left: c.left.take(n - 1), right: rest, effort: spent, ..c })
        },
        Constant::Swap => if n < 2 {
            Step::Fault(Error::Type)
        } else if c.effort == 0 {
            Step::Fault(Error::Time)
        } else {
            Step::Next(
                Config {
                    left: c.left.take(n - 2).push(c.left[n - 1]).push(c.left[n - 2]),
                    right: rest,
                    effort: spent,
                    ..c
                },
            )
        },
        Constant::Shift => {
            let b = boundary(rest);
            if n < 1 || !(c.left[n - 1] is Quote) || b >= rest.len() {
                Step::Fault(Error::Type)
            } else if c.effort == 0 {
                Step::Fault(Error::Time)
            } else if c.room < joints(b) + 1 {
                Step::Fault(Error::Space)
            } else {
                Step::Next(
                    Config {
                        left: c.left.take(n - 1).push(
                            Term::Quote(Box::new(assemble(rest.take(b as int)))),
                        ),
                        right: c.left[n - 1]->Quote_0.flatten() + rest.skip(b as int),
                        effort: spent,
                        room: (c.room - joints(b) - 1) as nat,
                        ..c
                    },
                )
            }
        },
        Constant::Reset => if c.effort == 0 {
            Step::Fault(Error::Time)
        } else {
            Step::Next(Config { right: rest, effort: spent, ..c })
        },
        Constant::Bang => Step::Halt,
    }
}

/// One move of the rewriter. With `effects`, a bang halts the machine so
/// that a handler can answer it; without, a bang leaves the program stuck.
pub open spec fn step(c: Config, effects: bool) -> Step {
    if c.right.len() == 0 {
        Step::Halt
    } else {
        let a = c.right[0];
        let on = Config { left: c.left.push(a), right: c.right.skip(1), ..c };
        if c.stuck {
            Step::Next(on)
        } else {
            match a {
                Term::Constant(Constant::Bang) => if effects {
                    Step::Halt
                } else {
                    Step::Next(Config { stuck: true, ..on })
                },
                Term::Constant(op) => rule(op, c),
                Term::Variable(_) => Step::Next(Config { stuck: true, ..on }),
                _ => Step::Next(on),
            }
        }
    }
}

/// The moves of the rewriter until it halts or fails.
pub open spec fn run(c: Config, effects: bool) -> Result<Config, Error>
    decreases c.effort, c.right.len(),
{
    match step(c, effects) {
        Step::Halt => Ok(c),
        Step::Fault(e) => Err(e),
        Step::Next(n) => run(n, effects),
    }
}

/// The state in which the rewriting of a term begins.
pub open spec fn start(t: Term, quota: nat, room: nat) -> Config {
    Config { left: Seq::empty(), right: t.flatten(), stuck: false, effort: quota, room }
}

/// The term that a halted state stands for, and the room that is left once
/// its steps are joined.
pub open spec fn finish(c: Config) -> Result<(Term, nat), Error> {
    let all = c.left + c.right;
    if c.room < joints(all.len()) {
        Err(Error::Space)
    } else {
        Ok((assemble(all), (c.room - joints(all.len())) as nat))
    }
}

/// The normal form of a term within a quota of rule applications and a
/// number of free places in the store, and the places left afterward.
pub open spec fn normal_form(t: Term, quota: nat, room: nat) -> Result<(Term, nat), Error> {
    match run(start(t, quota, room), false) {
        Ok(c) => finish(c),
        Err(e) => Err(e),
    }
}

/// The state after a handler has answered the bang that a state halted on:
/// the values on the left and the bang give way to the answer, which runs
/// next.
pub open spec fn resume(c: Config, answer: Seq<Term>, room: nat) -> Config {
    Config {
        left: Seq::empty(),
        right: crate::term::flatten_all(answer) + c.right.skip(1),
        stuck: false,
        effort: (c.effort - 1) as nat,
        room,
    }
}

/// Whether a state has halted on a bang.
pub open spec fn waits(c: Config) -> bool {
    !c.stuck && c.right.len() > 0 && c.right[0] == Term::Constant(Constant::Bang)
}

/// What `normalize` does: it refuses a handle that the store does not
/// hold, and else returns a handle of the normal form of the term, or the
/// error that the rewriting ends in. The store may only gain terms, and a
/// failure changes nothing.
pub open spec fn normalized<O>(pre: Heap<O>, post: Heap<O>, obj: O, r: Result<O, Error>) -> bool {
    &&& pre.extends_to(post)
    &&& if !pre.has(obj) {
        r == Err::<O, Error>(Error::Type) && post == pre
    } else {
        match normal_form(pre.terms[obj], pre.quota, pre.room()) {
            Ok((t, room)) => r matches Ok(o) && post.has(o) && post.terms[o] == t && post.room()
                == room,
            Err(e) => r == Err::<O, Error>(e) && post == pre,
        }
    }
}

/// What `execute` does whatever the handler answers: the store may only
/// gain terms, a result is a handle of the store, and up to the first bang
/// the term is rewritten as by `normalize`. A program that meets no bang
/// gives what `normalize` gives; a bang met without effort left ends in
/// `Error::Time`. A failure before the handler is called changes nothing.
pub open spec fn executed<O>(pre: Heap<O>, post: Heap<O>, obj: O, r: Result<O, Error>) -> bool {
    &&& pre.grows_to(post)
    &&& r matches Ok(o) ==> post.has(o)
    &&& if !pre.has(obj) {
        r == Err::<O, Error>(Error::Type) && post == pre
    } else {
        match run(start(pre.terms[obj], pre.quota, pre.room()), true) {
            Err(e) => r == Err::<O, Error>(e) && post == pre,
            Ok(c) => if c.right.len() == 0 {
                &&& pre.extends_to(post)
                &&& match finish(c) {
                    Ok((t, room)) => r matches Ok(o) && post.terms[o] == t && post.room() == room,
                    Err(e) => r == Err::<O, Error>(e) && post == pre,
                }
            } else {
                c.effort == 0 ==> r == Err::<O, Error>(Error::Time) && post == pre
            },
        }
    }
}

} // verus!
