//! Laws of the rewriter, of the collector and of the environment.

use crate::heap::{collected, Heap};
use crate::semantics::{boundary, normal_form, run, start, step, Config, Step};
use crate::term::{assemble, Constant, Error, Kind, Term};
use vstd::prelude::*;

verus! {

/// A step of a program: anything but the empty program and a sequence.
pub open spec fn atom(t: Term) -> bool {
    !(t is Identity) && !(t is Sequence)
}

/// A value: a quotation or a comment.
pub open spec fn value(t: Term) -> bool {
    t is Quote || t is Comment
}

/// A state as the rewriter meets it: steps on the right, and values on the
/// left for as long as the program is not stuck.
pub open spec fn tidy(c: Config) -> bool {
    &&& forall|i: int| 0 <= i < c.right.len() ==> atom(#[trigger] c.right[i])
    &&& !c.stuck ==> forall|i: int| 0 <= i < c.left.len() ==> value(#[trigger] c.left[i])
}

/// The state `c` with more effort and more room.
pub open spec fn more(c: Config, effort: nat, room: nat) -> Config {
    Config { effort: c.effort + effort, room: c.room + room, ..c }
}

/// The state `c` with the steps `ys` after its own.
pub open spec fn then(c: Config, ys: Seq<Term>) -> Config {
    Config { right: c.right + ys, ..c }
}

/// A program is made of steps.
pub proof fn lemma_flatten_atoms(t: Term)
    ensures
        forall|i: int| 0 <= i < t.flatten().len() ==> atom(#[trigger] t.flatten()[i]),
    decreases t,
{
    match t {
        Term::Sequence(a, b) => {
            lemma_flatten_atoms(*a);
            lemma_flatten_atoms(*b);
            let fa = a.flatten();
            let fb = b.flatten();
            assert forall|i: int| 0 <= i < t.flatten().len() implies atom(
                #[trigger] t.flatten()[i],
            ) by {
                if i < fa.len() {
                    assert(t.flatten()[i] == fa[i]);
                } else {
                    assert(t.flatten()[i] == fb[i - fa.len()]);
                }
            }
        },
        _ => {},
    }
}

/// A move keeps a state tidy.
pub proof fn lemma_step_tidy(c: Config, effects: bool)
    requires
        tidy(c),
        step(c, effects) is Next,
    ensures
        tidy(step(c, effects)->Next_0),
{
    let n = step(c, effects)->Next_0;
    let a = c.right[0];
    let rest = c.right.skip(1);
    assert forall|i: int| 0 <= i < rest.len() implies atom(#[trigger] rest[i]) by {
        assert(rest[i] == c.right[i + 1]);
    }
    assert(atom(a));
    if !c.stuck {
        let k = c.left.len() as int;
        match a {
            Term::Constant(Constant::Apply) => {
                lemma_flatten_atoms(*c.left[k - 1]->Quote_0);
            },
            Term::Constant(Constant::Shift) => {
                lemma_flatten_atoms(*c.left[k - 1]->Quote_0);
                let b = boundary(rest) as int;
                assert forall|i: int| 0 <= i < rest.skip(b).len() implies atom(
                    #[trigger] rest.skip(b)[i],
                ) by {
                    assert(rest.skip(b)[i] == rest[i + b]);
                }
            },
            _ => {},
        }
    }
}

/// Once stuck, a program stays stuck.
pub proof fn lemma_stuck_stays(c: Config, effects: bool)
    requires
        c.stuck,
        run(c, effects) is Ok,
    ensures
        run(c, effects)->Ok_0.stuck,
    decreases c.effort, c.right.len(),
{
    if step(c, effects) is Next {
        lemma_stuck_stays(step(c, effects)->Next_0, effects);
    }
}

/// Pure rewriting halts only where nothing is left to run, in a tidy state.
pub proof fn lemma_run_ends(c: Config)
    requires
        run(c, false) is Ok,
    ensures
        run(c, false)->Ok_0.right.len() == 0,
        tidy(c) ==> tidy(run(c, false)->Ok_0),
    decreases c.effort, c.right.len(),
{
    if step(c, false) is Next {
        if tidy(c) {
            lemma_step_tidy(c, false);
        }
        lemma_run_ends(step(c, false)->Next_0);
    }
}

/// What succeeds, succeeds with more effort and more room, and ends in the
/// same state but for what is left of them.
pub proof fn lemma_run_more(c: Config, effects: bool, effort: nat, room: nat)
    requires
        run(c, effects) is Ok,
    ensures
        run(more(c, effort, room), effects) == Ok::<Config, Error>(
            more(run(c, effects)->Ok_0, effort, room),
        ),
    decreases c.effort, c.right.len(),
{
    let c2 = more(c, effort, room);
    match step(c, effects) {
        Step::Next(n) => {
            assert(step(c2, effects) == Step::Next(more(n, effort, room)));
            lemma_run_more(n, effects, effort, room);
        },
        Step::Halt => {
            assert(step(c2, effects) == Step::Halt);
        },
        Step::Fault(_) => {},
    }
}

/// Steps that follow do not move the first `Reset`.
pub proof fn lemma_boundary_then(xs: Seq<Term>, ys: Seq<Term>)
    requires
        boundary(xs) < xs.len(),
    ensures
        boundary(xs + ys) == boundary(xs),
    decreases xs.len(),
{
    if xs[0] != Term::Constant(Constant::Reset) {
        assert((xs + ys).skip(1) =~= xs.skip(1) + ys);
        lemma_boundary_then(xs.skip(1), ys);
    }
}

/// Sequencing: where a program runs to its end without getting stuck, what
/// follows it runs from the state that it ends in.
pub proof fn lemma_run_then(c: Config, ys: Seq<Term>)
    requires
        run(c, false) is Ok,
        !run(c, false)->Ok_0.stuck,
    ensures
        run(then(c, ys), false) == run(then(run(c, false)->Ok_0, ys), false),
    decreases c.effort, c.right.len(),
{
    let d = run(c, false)->Ok_0;
    let c2 = then(c, ys);
    if c.stuck {
        lemma_stuck_stays(c, false);
    }
    match step(c, false) {
        Step::Halt => {
            assert(c.right.len() == 0);
        },
        Step::Fault(_) => {},
        Step::Next(n) => {
            if n.stuck {
                lemma_stuck_stays(n, false);
            }
            let rest = c.right.skip(1);
            assert(c2.right.skip(1) =~= rest + ys);
            assert(c2.right[0] == c.right[0]);
            match c.right[0] {
                Term::Constant(Constant::Apply) => {
                    let p = c.left[c.left.len() - 1]->Quote_0;
                    assert(p.flatten() + (rest + ys) =~= (p.flatten() + rest) + ys);
                },
                Term::Constant(Constant::Shift) => {
                    let p = c.left[c.left.len() - 1]->Quote_0;
                    let b = boundary(rest) as int;
                    lemma_boundary_then(rest, ys);
                    assert((rest + ys).take(b) =~= rest.take(b));
                    assert((rest + ys).skip(b) =~= rest.skip(b) + ys);
                    assert(p.flatten() + (rest.skip(b) + ys) =~= (p.flatten() + rest.skip(b)) + ys);
                },
                _ => {},
            }
            assert(step(c2, false) == Step::Next(then(n, ys)));
            lemma_run_then(n, ys);
        },
    }
}

/// A term without variables and without bangs, at any depth.
pub open spec fn pure(t: Term) -> bool {
    !t.has(Kind::Variable) && !t.has(Kind::Bang)
}

/// Every term of the sequence is pure.
pub open spec fn all_pure(ts: Seq<Term>) -> bool {
    forall|i: int| 0 <= i < ts.len() ==> pure(#[trigger] ts[i])
}

/// The steps of a pure program are pure.
pub proof fn lemma_flatten_pure(t: Term)
    requires
        pure(t),
    ensures
        all_pure(t.flatten()),
    decreases t,
{
    match t {
        Term::Sequence(a, b) => {
            lemma_flatten_pure(*a);
            lemma_flatten_pure(*b);
            let fa = a.flatten();
            let fb = b.flatten();
            assert forall|i: int| 0 <= i < t.flatten().len() implies pure(
                #[trigger] t.flatten()[i],
            ) by {
                if i < fa.len() {
                    assert(t.flatten()[i] == fa[i]);
                } else {
                    assert(t.flatten()[i] == fb[i - fa.len()]);
                }
            }
        },
        _ => {},
    }
}

/// Pure steps join into a pure term.
pub proof fn lemma_assemble_pure(ts: Seq<Term>)
    requires
        all_pure(ts),
    ensures
        pure(assemble(ts)),
    decreases ts.len(),
{
    if ts.len() >= 2 {
        assert forall|i: int| 0 <= i < ts.drop_last().len() implies pure(
            #[trigger] ts.drop_last()[i],
        ) by {
            assert(ts.drop_last()[i] == ts[i]);
        }
        lemma_assemble_pure(ts.drop_last());
        assert(pure(ts.last()));
    } else if ts.len() == 1 {
        assert(pure(ts[0]));
    }
}

/// Rewriting keeps a program pure, and a pure program never gets stuck.
pub proof fn lemma_pure_run(c: Config)
    requires
        !c.stuck,
        all_pure(c.left),
        all_pure(c.right),
        run(c, false) is Ok,
    ensures
        !run(c, false)->Ok_0.stuck,
        all_pure(run(c, false)->Ok_0.left),
    decreases c.effort, c.right.len(),
{
    if step(c, false) is Next {
        let n = step(c, false)->Next_0;
        let a = c.right[0];
        let rest = c.right.skip(1);
        let k = c.left.len() as int;
        assert(pure(a));
        assert forall|i: int| 0 <= i < rest.len() implies pure(#[trigger] rest[i]) by {
            assert(rest[i] == c.right[i + 1]);
        }
        match a {
            Term::Constant(Constant::Apply) => {
                assert(pure(c.left[k - 1]));
                lemma_flatten_pure(*c.left[k - 1]->Quote_0);
            },
            Term::Constant(Constant::Compose) => {
                assert(pure(c.left[k - 1]));
                assert(pure(c.left[k - 2]));
                let p = c.left[k - 2]->Quote_0;
                let q = c.left[k - 1]->Quote_0;
                assert(pure(*p));
                assert(pure(*q));
                assert(pure(Term::Sequence(p, q)));
                assert(pure(Term::Quote(Box::new(Term::Sequence(p, q)))));
            },
            Term::Constant(Constant::Quote) => {
                assert(pure(c.left[k - 1]));
                assert(pure(Term::Quote(Box::new(c.left[k - 1]))));
            },
            Term::Constant(Constant::Shift) => {
                assert(pure(c.left[k - 1]));
                lemma_flatten_pure(*c.left[k - 1]->Quote_0);
                let b = boundary(rest) as int;
                assert forall|i: int| 0 <= i < rest.take(b).len() implies pure(
                    #[trigger] rest.take(b)[i],
                ) by {
                    assert(rest.take(b)[i] == rest[i]);
                }
                lemma_assemble_pure(rest.take(b));
                assert(pure(Term::Quote(Box::new(assemble(rest.take(b))))));
                assert forall|i: int| 0 <= i < rest.skip(b).len() implies pure(
                    #[trigger] rest.skip(b)[i],
                ) by {
                    assert(rest.skip(b)[i] == rest[i + b]);
                }
            },
            Term::Constant(_) => {
                if k >= 1 {
                    assert(pure(c.left[k - 1]));
                }
                if k >= 2 {
                    assert(pure(c.left[k - 2]));
                }
            },
            _ => {},
        }
        assert(all_pure(n.left)) by {
            assert forall|i: int| 0 <= i < n.left.len() implies pure(#[trigger] n.left[i]) by {
                if i < k - 2 {
                    assert(pure(c.left[i]));
                } else if i < k {
                    assert(pure(c.left[i]));
                }
            }
        }
        assert(all_pure(n.right));
        lemma_pure_run(n);
    }
}

/// A closed program without bangs that can be normalized is not stuck at
/// its end: the laws below that ask for a state that is not stuck hold of
/// every such program.
pub proof fn law_closed_runs_free(x: Term, quota: nat, room: nat)
    requires
        !x.has(Kind::Variable),
        !x.has(Kind::Bang),
        run(start(x, quota, room), false) is Ok,
    ensures
        !run(start(x, quota, room), false)->Ok_0.stuck,
{
    lemma_flatten_pure(x);
    lemma_pure_run(start(x, quota, room));
}

/// Without a bang to answer, running the effects of a program is
/// normalizing it: where the machine that halts at bangs fails, or halts
/// with nothing left to run, the machine that does not halt at bangs ends
/// in the same way.
pub proof fn law_effects_agree(c: Config)
    requires
        run(c, true) matches Ok(d) ==> d.right.len() == 0,
    ensures
        run(c, false) == run(c, true),
    decreases c.effort, c.right.len(),
{
    match step(c, true) {
        Step::Next(n) => {
            assert(step(c, false) == Step::Next(n));
            law_effects_agree(n);
        },
        Step::Fault(e) => {
            assert(step(c, false) == Step::Fault(e));
        },
        Step::Halt => {
            assert(c.right.len() == 0);
        },
    }
}

/// The term `x` followed by the combinator `op`.
pub open spec fn with(x: Term, op: Constant) -> Term {
    Term::Sequence(Box::new(x), Box::new(Term::Constant(op)))
}

/// Identity law, on the left: the empty program before a program changes
/// nothing, whatever the quota and the room.
pub proof fn law_identity_left(x: Term, quota: nat, room: nat)
    ensures
        normal_form(Term::Sequence(Box::new(Term::Identity), Box::new(x)), quota, room)
            == normal_form(x, quota, room),
{
    let t = Term::Sequence(Box::new(Term::Identity), Box::new(x));
    reveal_with_fuel(Term::flatten, 3);
    assert(t.flatten() =~= x.flatten());
}

/// Identity law, on the right: the empty program after a program changes
/// nothing, whatever the quota and the room.
pub proof fn law_identity_right(x: Term, quota: nat, room: nat)
    ensures
        normal_form(Term::Sequence(Box::new(x), Box::new(Term::Identity)), quota, room)
            == normal_form(x, quota, room),
{
    let t = Term::Sequence(Box::new(x), Box::new(Term::Identity));
    reveal_with_fuel(Term::flatten, 3);
    assert(t.flatten() =~= x.flatten());
}

/// Effort monotonicity: a normalization that succeeds within a quota
/// succeeds within every larger quota, with the same result.
pub proof fn law_effort_monotone(x: Term, quota: nat, larger: nat, room: nat)
    requires
        normal_form(x, quota, room) is Ok,
        larger >= quota,
    ensures
        normal_form(x, larger, room) == normal_form(x, quota, room),
{
    let c = start(x, quota, room);
    lemma_run_more(c, false, (larger - quota) as nat, 0);
    assert(more(c, (larger - quota) as nat, 0) == start(x, larger, room));
}

/// Apply undoes Quote: where `x` runs to its end without getting stuck and
/// leaves a value, `x Quote Apply` gives what `x` gives. It takes two rule
/// applications and one place in the store more.
pub proof fn law_quote_apply(x: Term, quota: nat, room: nat)
    requires
        run(start(x, quota, room), false) matches Ok(d) && !d.stuck && d.left.len() >= 1,
    ensures
        normal_form(with(with(x, Constant::Quote), Constant::Apply), quota + 2, room + 1)
            == normal_form(x, quota, room),
{
    let c = start(x, quota, room);
    let d = run(c, false)->Ok_0;
    let t = with(with(x, Constant::Quote), Constant::Apply);
    let q = Term::Constant(Constant::Quote);
    let a = Term::Constant(Constant::Apply);
    let ys = seq![q, a];
    reveal_with_fuel(Term::flatten, 3);
    assert(t.flatten() =~= x.flatten() + ys);
    lemma_flatten_atoms(x);
    lemma_run_ends(c);
    lemma_run_more(c, false, 2, 1);
    let c2 = more(c, 2, 1);
    let d2 = more(d, 2, 1);
    lemma_run_then(c2, ys);
    assert(start(t, quota + 2, room + 1) == then(c2, ys));
    let n = d.left.len() as int;
    let v = d.left[n - 1];
    assert(value(v));
    // Quote
    let e0 = then(d2, ys);
    assert(d2.right + ys =~= ys);
    let e1 = Config {
        left: d.left.take(n - 1).push(Term::Quote(Box::new(v))),
        right: seq![a],
        stuck: false,
        effort: d.effort + 1,
        room: d.room,
    };
    assert(e0.right.skip(1) =~= seq![a]);
    assert(step(e0, false) == Step::Next(e1));
    // Apply
    let e2 = Config { left: d.left.take(n - 1), right: seq![v], effort: d.effort, ..e1 };
    assert(e1.left.take(n - 1) =~= d.left.take(n - 1));
    assert(v.flatten() =~= seq![v]);
    assert(v.flatten() + e1.right.skip(1) =~= seq![v]);
    assert(step(e1, false) == Step::Next(e2));
    // the value moves back to the left
    assert(e2.left.push(v) =~= d.left);
    assert(e2.right.skip(1) =~= d.right);
    assert(step(e2, false) == Step::Next(d));
    assert(step(d, false) == Step::Halt);
    assert(run(d, false) == Ok::<Config, Error>(d));
    assert(run(e2, false) == Ok::<Config, Error>(d));
    assert(run(e1, false) == Ok::<Config, Error>(d));
    assert(run(e0, false) == Ok::<Config, Error>(d));
}

/// Drop undoes Copy: where `x` runs to its end without getting stuck and
/// leaves a value, `x Copy Drop` gives what `x` gives. It takes two rule
/// applications more.
pub proof fn law_copy_drop(x: Term, quota: nat, room: nat)
    requires
        run(start(x, quota, room), false) matches Ok(d) && !d.stuck && d.left.len() >= 1,
    ensures
        normal_form(with(with(x, Constant::Copy), Constant::Drop), quota + 2, room)
            == normal_form(x, quota, room),
{
    let c = start(x, quota, room);
    let d = run(c, false)->Ok_0;
    let t = with(with(x, Constant::Copy), Constant::Drop);
    let cp = Term::Constant(Constant::Copy);
    let dr = Term::Constant(Constant::Drop);
    let ys = seq![cp, dr];
    reveal_with_fuel(Term::flatten, 3);
    assert(t.flatten() =~= x.flatten() + ys);
    lemma_run_ends(c);
    lemma_run_more(c, false, 2, 0);
    let c2 = more(c, 2, 0);
    let d2 = more(d, 2, 0);
    lemma_run_then(c2, ys);
    assert(start(t, quota + 2, room) == then(c2, ys));
    let n = d.left.len() as int;
    let v = d.left[n - 1];
    let e0 = then(d2, ys);
    assert(d2.right + ys =~= ys);
    let e1 = Config {
        left: d.left.push(v),
        right: seq![dr],
        stuck: false,
        effort: d.effort + 1,
        room: d.room,
    };
    assert(e0.right.skip(1) =~= seq![dr]);
    assert(step(e0, false) == Step::Next(e1));
    assert(e1.left.take(n) =~= d.left);
    assert(e1.right.skip(1) =~= d.right);
    assert(step(e1, false) == Step::Next(d));
    assert(step(d, false) == Step::Halt);
    assert(run(d, false) == Ok::<Config, Error>(d));
    assert(run(e1, false) == Ok::<Config, Error>(d));
    assert(run(e0, false) == Ok::<Config, Error>(d));
}

/// Swap is an involution: where `x` runs to its end without getting stuck
/// and leaves two values, `x Swap Swap` gives what `x` gives. It takes two
/// rule applications more. For the values of two programs, let `x` be
/// their sequence.
pub proof fn law_swap_swap(x: Term, quota: nat, room: nat)
    requires
        run(start(x, quota, room), false) matches Ok(d) && !d.stuck && d.left.len() >= 2,
    ensures
        normal_form(with(with(x, Constant::Swap), Constant::Swap), quota + 2, room)
            == normal_form(x, quota, room),
{
    let c = start(x, quota, room);
    let d = run(c, false)->Ok_0;
    let t = with(with(x, Constant::Swap), Constant::Swap);
    let sw = Term::Constant(Constant::Swap);
    let ys = seq![sw, sw];
    reveal_with_fuel(Term::flatten, 3);
    assert(t.flatten() =~= x.flatten() + ys);
    lemma_run_ends(c);
    lemma_run_more(c, false, 2, 0);
    let c2 = more(c, 2, 0);
    let d2 = more(d, 2, 0);
    lemma_run_then(c2, ys);
    assert(start(t, quota + 2, room) == then(c2, ys));
    let n = d.left.len() as int;
    let e0 = then(d2, ys);
    assert(d2.right + ys =~= ys);
    let e1 = Config {
        left: d.left.take(n - 2).push(d.left[n - 1]).push(d.left[n - 2]),
        right: seq![sw],
        stuck: false,
        effort: d.effort + 1,
        room: d.room,
    };
    assert(e0.right.skip(1) =~= seq![sw]);
    assert(step(e0, false) == Step::Next(e1));
    assert(e1.left.take(n - 2).push(e1.left[n - 1]).push(e1.left[n - 2]) =~= d.left);
    assert(e1.right.skip(1) =~= d.right);
    assert(step(e1, false) == Step::Next(d));
    assert(step(d, false) == Step::Halt);
    assert(run(d, false) == Ok::<Config, Error>(d));
    assert(run(e1, false) == Ok::<Config, Error>(d));
    assert(run(e0, false) == Ok::<Config, Error>(d));
}

/// The quotation of a term.
pub open spec fn quoted(x: Term) -> Term {
    Term::Quote(Box::new(x))
}

/// One term, then another.
pub open spec fn pair(x: Term, y: Term) -> Term {
    Term::Sequence(Box::new(x), Box::new(y))
}

/// The state that the rewriting of given steps begins in.
spec fn begin(steps: Seq<Term>, quota: nat, room: nat) -> Config {
    Config { left: Seq::empty(), right: steps, stuck: false, effort: quota, room }
}

/// A value that is next to run moves to the left.
proof fn lemma_value_moves(c: Config, n: Config)
    requires
        !c.stuck,
        c.right.len() > 0,
        value(c.right[0]),
        n == (Config { left: c.left.push(c.right[0]), right: c.right.skip(1), ..c }),
    ensures
        run(c, false) == run(n, false),
{
    assert(step(c, false) == Step::Next(n));
}

/// What `Compose` does to two quotations that stand last on the left.
proof fn lemma_compose_moves(c: Config, low: Seq<Term>, p: Term, q: Term, rest: Seq<Term>)
    requires
        !c.stuck,
        c.left == low.push(quoted(p)).push(quoted(q)),
        c.right == seq![Term::Constant(Constant::Compose)] + rest,
    ensures
        run(c, false) == if c.effort == 0 {
            Err::<Config, Error>(Error::Time)
        } else if c.room < 2 {
            Err::<Config, Error>(Error::Space)
        } else {
            run(
                Config {
                    left: low.push(quoted(pair(p, q))),
                    right: rest,
                    stuck: false,
                    effort: (c.effort - 1) as nat,
                    room: (c.room - 2) as nat,
                },
                false,
            )
        },
{
    let n = c.left.len() as int;
    assert(c.right.skip(1) =~= rest);
    assert(c.left.take(n - 2) =~= low);
    if c.effort == 0 {
        assert(step(c, false) == Step::Fault(Error::Time));
    } else if c.room < 2 {
        assert(step(c, false) == Step::Fault(Error::Space));
    } else {
        let next = Config {
            left: low.push(quoted(pair(p, q))),
            right: rest,
            stuck: false,
            effort: (c.effort - 1) as nat,
            room: (c.room - 2) as nat,
        };
        assert(step(c, false) == Step::Next(next));
    }
}

/// What `Apply` does to a quotation that stands alone on the left.
proof fn lemma_apply_moves(c: Config, p: Term)
    requires
        !c.stuck,
        c.left == seq![quoted(p)],
        c.right == seq![Term::Constant(Constant::Apply)],
    ensures
        run(c, false) == if c.effort == 0 {
            Err::<Config, Error>(Error::Time)
        } else {
            run(Config { effort: (c.effort - 1) as nat, ..begin(p.flatten(), 0, c.room) }, false)
        },
{
    if c.effort == 0 {
        assert(step(c, false) == Step::Fault(Error::Time));
    } else {
        let next = Config { effort: (c.effort - 1) as nat, ..begin(p.flatten(), 0, c.room) };
        assert(c.left.take(0) =~= next.left);
        assert(p.flatten() + c.right.skip(1) =~= next.right);
        assert(step(c, false) == Step::Next(next));
    }
}

/// What is left of a quota and of the room after two `Compose` and one
/// `Apply`, where they suffice.
spec fn composed_twice(steps: Seq<Term>, quota: nat, room: nat) -> Result<Config, Error> {
    if quota == 0 {
        Err(Error::Time)
    } else if room < 2 {
        Err(Error::Space)
    } else if quota == 1 {
        Err(Error::Time)
    } else if room < 4 {
        Err(Error::Space)
    } else if quota == 2 {
        Err(Error::Time)
    } else {
        run(begin(steps, (quota - 3) as nat, (room - 4) as nat), false)
    }
}

/// `[a] [b] Compose [c] Compose Apply` runs the steps of `a`, `b` and `c`.
proof fn lemma_grouped_left(a: Term, b: Term, c: Term, quota: nat, room: nat)
    ensures
        run(
            begin(
                seq![
                    quoted(a),
                    quoted(b),
                    Term::Constant(Constant::Compose),
                    quoted(c),
                    Term::Constant(Constant::Compose),
                    Term::Constant(Constant::Apply),
                ],
                quota,
                room,
            ),
            false,
        ) == composed_twice(a.flatten() + b.flatten() + c.flatten(), quota, room),
{
    let qa = quoted(a);
    let qb = quoted(b);
    let qc = quoted(c);
    let cm = Term::Constant(Constant::Compose);
    let ap = Term::Constant(Constant::Apply);
    let none = Seq::<Term>::empty();
    let s0 = begin(seq![qa, qb, cm, qc, cm, ap], quota, room);
    let s1 = Config { left: none.push(qa), right: seq![qb, cm, qc, cm, ap], ..s0 };
    assert(s0.right.skip(1) =~= s1.right);
    lemma_value_moves(s0, s1);
    let s2 = Config { left: none.push(qa).push(qb), right: seq![cm, qc, cm, ap], ..s0 };
    assert(s1.right.skip(1) =~= s2.right);
    lemma_value_moves(s1, s2);
    assert(s2.right =~= seq![cm] + seq![qc, cm, ap]);
    lemma_compose_moves(s2, none, a, b, seq![qc, cm, ap]);
    if quota > 0 && room >= 2 {
        let s3 = Config {
            left: none.push(quoted(pair(a, b))),
            right: seq![qc, cm, ap],
            stuck: false,
            effort: (quota - 1) as nat,
            room: (room - 2) as nat,
        };
        let s4 = Config { left: s3.left.push(qc), right: seq![cm, ap], ..s3 };
        assert(s3.right.skip(1) =~= s4.right);
        lemma_value_moves(s3, s4);
        assert(s4.right =~= seq![cm] + seq![ap]);
        lemma_compose_moves(s4, none, pair(a, b), c, seq![ap]);
        if quota > 1 && room >= 4 {
            let s5 = Config {
                left: none.push(quoted(pair(pair(a, b), c))),
                right: seq![ap],
                stuck: false,
                effort: (quota - 2) as nat,
                room: (room - 4) as nat,
            };
            assert(s5.left =~= seq![quoted(pair(pair(a, b), c))]);
            lemma_apply_moves(s5, pair(pair(a, b), c));
            reveal_with_fuel(Term::flatten, 3);
            assert(pair(pair(a, b), c).flatten() =~= a.flatten() + b.flatten() + c.flatten());
        }
    }
}

/// `[a] [b] [c] Compose Compose Apply` runs the steps of `a`, `b` and `c`.
proof fn lemma_grouped_right(a: Term, b: Term, c: Term, quota: nat, room: nat)
    ensures
        run(
            begin(
                seq![
                    quoted(a),
                    quoted(b),
                    quoted(c),
                    Term::Constant(Constant::Compose),
                    Term::Constant(Constant::Compose),
                    Term::Constant(Constant::Apply),
                ],
                quota,
                room,
            ),
            false,
        ) == composed_twice(a.flatten() + b.flatten() + c.flatten(), quota, room),
{
    let qa = quoted(a);
    let qb = quoted(b);
    let qc = quoted(c);
    let cm = Term::Constant(Constant::Compose);
    let ap = Term::Constant(Constant::Apply);
    let none = Seq::<Term>::empty();
    let s0 = begin(seq![qa, qb, qc, cm, cm, ap], quota, room);
    let s1 = Config { left: none.push(qa), right: seq![qb, qc, cm, cm, ap], ..s0 };
    assert(s0.right.skip(1) =~= s1.right);
    lemma_value_moves(s0, s1);
    let s2 = Config { left: none.push(qa).push(qb), right: seq![qc, cm, cm, ap], ..s0 };
    assert(s1.right.skip(1) =~= s2.right);
    lemma_value_moves(s1, s2);
    let s3 = Config { left: none.push(qa).push(qb).push(qc), right: seq![cm, cm, ap], ..s0 };
    assert(s2.right.skip(1) =~= s3.right);
    lemma_value_moves(s2, s3);
    assert(s3.right =~= seq![cm] + seq![cm, ap]);
    lemma_compose_moves(s3, none.push(qa), b, c, seq![cm, ap]);
    if quota > 0 && room >= 2 {
        let s4 = Config {
            left: none.push(qa).push(quoted(pair(b, c))),
            right: seq![cm, ap],
            stuck: false,
            effort: (quota - 1) as nat,
            room: (room - 2) as nat,
        };
        assert(s4.right =~= seq![cm] + seq![ap]);
        lemma_compose_moves(s4, none, a, pair(b, c), seq![ap]);
        if quota > 1 && room >= 4 {
            let s5 = Config {
                left: none.push(quoted(pair(a, pair(b, c)))),
                right: seq![ap],
                stuck: false,
                effort: (quota - 2) as nat,
                room: (room - 4) as nat,
            };
            assert(s5.left =~= seq![quoted(pair(a, pair(b, c)))]);
            lemma_apply_moves(s5, pair(a, pair(b, c)));
            reveal_with_fuel(Term::flatten, 3);
            assert(pair(a, pair(b, c)).flatten() =~= a.flatten() + b.flatten() + c.flatten());
        }
    }
}

/// Compose is associative: `[a] [b] Compose [c] Compose` and
/// `[a] [b] [c] Compose Compose` give quotations that run alike. Followed
/// by `Apply`, the two programs have the same normal form, or fail alike,
/// whatever the quota and the room.
pub proof fn law_compose_assoc(a: Term, b: Term, c: Term, quota: nat, room: nat)
    ensures
        normal_form(
            with(
                with(
                    pair(with(pair(quoted(a), quoted(b)), Constant::Compose), quoted(c)),
                    Constant::Compose,
                ),
                Constant::Apply,
            ),
            quota,
            room,
        ) == normal_form(
            with(
                with(
                    with(pair(pair(quoted(a), quoted(b)), quoted(c)), Constant::Compose),
                    Constant::Compose,
                ),
                Constant::Apply,
            ),
            quota,
            room,
        ),
{
    let qa = quoted(a);
    let qb = quoted(b);
    let qc = quoted(c);
    let cm = Term::Constant(Constant::Compose);
    let ap = Term::Constant(Constant::Apply);
    let tl = with(
        with(pair(with(pair(qa, qb), Constant::Compose), qc), Constant::Compose),
        Constant::Apply,
    );
    let tr = with(
        with(with(pair(pair(qa, qb), qc), Constant::Compose), Constant::Compose),
        Constant::Apply,
    );
    assert(tl.flatten() =~= seq![qa, qb, cm, qc, cm, ap]) by {
        reveal_with_fuel(Term::flatten, 7);
    }
    assert(tr.flatten() =~= seq![qa, qb, qc, cm, cm, ap]) by {
        reveal_with_fuel(Term::flatten, 7);
    }
    lemma_grouped_left(a, b, c, quota, room);
    lemma_grouped_right(a, b, c, quota, room);
}

/// Environment upsert: after `put(k, v1)` and then `put(k, v2)`, the second
/// call has returned `v1` and `get(k)` yields `v2`.
pub proof fn law_upsert<O>(
    h0: Heap<O>,
    h1: Heap<O>,
    h2: Heap<O>,
    k: Seq<char>,
    v1: O,
    v2: O,
    r1: Result<Option<O>, Error>,
    r2: Result<Option<O>, Error>,
)
    requires
        h0.has(v1),
        h0.has(v2),
        h0.put(h1, k, v1, r1),
        h1.put(h2, k, v2, r2),
    ensures
        r2 == Ok::<Option<O>, Error>(Some(v1)),
        h2.lookup(k) == Some(v2),
{
}

/// Collection safety: after a collection from roots of the store, every
/// handle that can be reached from a root, from the environment or from the
/// unit names the term that it named before, and the store holds no other
/// handle.
pub proof fn law_collect_safe<O>(pre: Heap<O>, post: Heap<O>, roots: Seq<O>, r: Result<(), Error>)
    requires
        pre.wf(),
        pre.has_all(roots),
        collected(pre, post, roots, r),
    ensures
        r is Ok,
        forall|o: O| pre.live(roots, o) ==> post.has(o) && post.terms[o] == pre.terms[o],
        forall|o: O| post.has(o) ==> pre.live(roots, o),
        post.bindings == pre.bindings,
{
    assert forall|o: O| pre.live(roots, o) implies post.has(o) && post.terms[o]
        == pre.terms[o] by {
        pre.lemma_live_in(roots, o);
    }
}

} // verus!
