//! The rewriter at work on a store: a machine that holds handles where the
//! model holds terms.

use crate::container::{Container, Effects, Handler};
use crate::heap::{
    lemma_extends_twice, lemma_grows_twice, lemma_views_kept, lemma_views_pop, lemma_views_push,
    Heap,
};
use crate::semantics::{
    boundary, finish, resume, rule, run, start, step, waits, Config, Step,
};
use crate::store::{Handle, Node, Store};
use crate::term::{assemble, flatten_all, joints, Constant, Error, Term};
use vstd::prelude::*;

verus! {

/// The steps that a stack of pending terms stands for, the top of the stack
/// first. The top is the last term of the sequence.
pub open spec fn ahead(p: Seq<Term>) -> Seq<Term>
    decreases p.len(),
{
    if p.len() == 0 {
        Seq::empty()
    } else {
        p.last().flatten() + ahead(p.drop_last())
    }
}

/// The sizes of the terms, added up.
pub open spec fn weight(p: Seq<Term>) -> nat
    decreases p.len(),
{
    if p.len() == 0 {
        0
    } else {
        weight(p.drop_last()) + p.last().size()
    }
}

/// A term on top of the pending terms runs before them.
pub proof fn lemma_ahead_push(p: Seq<Term>, t: Term)
    ensures
        ahead(p.push(t)) == t.flatten() + ahead(p),
        weight(p.push(t)) == weight(p) + t.size(),
{
    assert(p.push(t).drop_last() =~= p);
}

/// What stands on top of the pending terms.
#[derive(Clone, Copy)]
pub enum Head {
    Gone,
    Skip,
    Pair(Handle, Handle),
    Op(Constant),
    Name,
    Quote(Handle),
    Text,
}

impl Head {
    /// Whether this is what the handle names in the store.
    pub open spec fn of(self, heap: Heap<Handle>, h: Handle) -> bool {
        match self {
            Head::Gone => !heap.has(h),
            Head::Skip => heap.has(h) && heap.terms[h] == Term::Identity,
            Head::Pair(a, b) => {
                &&& heap.has(h)
                &&& heap.has(a)
                &&& heap.has(b)
                &&& heap.terms[h] == Term::Sequence(
                    Box::new(heap.terms[a]),
                    Box::new(heap.terms[b]),
                )
            },
            Head::Op(c) => heap.has(h) && heap.terms[h] == Term::Constant(c),
            Head::Name => heap.has(h) && heap.terms[h] is Variable,
            Head::Quote(b) => heap.has(h) && heap.has(b) && heap.terms[h] == Term::Quote(
                Box::new(heap.terms[b]),
            ),
            Head::Text => heap.has(h) && heap.terms[h] is Comment,
        }
    }
}

/// A rewriting in progress: the values on the left of the cursor, the terms
/// still to run, and the effort that is left.
pub struct Machine {
    left: Vec<Handle>,
    pending: Vec<Handle>,
    stuck: bool,
    effort: usize,
}

impl Machine {
    /// Every handle of the machine names a term of the store.
    pub closed spec fn fits(&self, heap: Heap<Handle>) -> bool {
        heap.has_all(self.left@) && heap.has_all(self.pending@)
    }

    /// The state of the rewriter that the machine stands for.
    pub closed spec fn config(&self, heap: Heap<Handle>) -> Config {
        Config {
            left: heap.views(self.left@),
            right: ahead(heap.views(self.pending@)),
            stuck: self.stuck,
            effort: self.effort as nat,
            room: heap.room(),
        }
    }

    /// The size of what is still to run, which bounds the moves that cost
    /// no effort.
    pub closed spec fn burden(&self, heap: Heap<Handle>) -> nat {
        weight(heap.views(self.pending@))
    }

    /// Nothing is left to run.
    pub closed spec fn idle(&self) -> bool {
        self.pending@.len() == 0
    }

    /// Whether nothing is left to run.
    pub fn is_idle(&self) -> (r: bool)
        ensures
            r == self.idle(),
    {
        self.pending.len() == 0
    }

    /// The rule applications that are left.
    pub closed spec fn effort(&self) -> nat {
        self.effort as nat
    }

    /// Whether the effort is spent.
    pub fn is_spent(&self) -> (r: bool)
        ensures
            r == (self.effort() == 0),
    {
        self.effort == 0
    }

    /// The handles of the values on the left of the cursor.
    pub closed spec fn values(&self) -> Seq<Handle> {
        self.left@
    }

    /// The values on the left of the cursor, which a handler is given.
    pub fn operands(&self) -> (r: Vec<Handle>)
        ensures
            r@ == self.values(),
    {
        let mut r: Vec<Handle> = Vec::new();
        let mut i: usize = 0;
        while i < self.left.len()
            invariant
                i <= self.left@.len(),
                r@ == self.left@.take(i as int),
            decreases self.left@.len() - i,
        {
            r.push(self.left[i]);
            proof {
                assert(self.left@.take(i + 1) =~= self.left@.take(i as int).push(self.left@[i as int]));
            }
            i = i + 1;
        }
        proof {
            assert(self.left@.take(self.left@.len() as int) =~= self.left@);
        }
        r
    }

    /// What the machine's own predicates say of its state.
    pub proof fn lemma_state(&self, heap: Heap<Handle>)
        ensures
            self.config(heap).effort == self.effort(),
            self.config(heap).room == heap.room(),
            self.config(heap).left == heap.views(self.values()),
            self.fits(heap) ==> heap.has_all(self.values()),
            self.idle() ==> self.config(heap).right.len() == 0,
            self.ready(heap, Constant::Bang) ==> waits(self.config(heap)),
    {
        if self.ready(heap, Constant::Bang) {
            self.lemma_ready(heap, Constant::Bang);
        }
    }

    /// The combinator `op` is the next to run.
    pub closed spec fn ready(&self, heap: Heap<Handle>, op: Constant) -> bool {
        &&& self.fits(heap)
        &&& !self.stuck
        &&& self.pending@.len() > 0
        &&& heap.terms[self.pending@.last()] == Term::Constant(op)
    }

    /// What `ready` means for the state of the rewriter.
    proof fn lemma_ready(&self, heap: Heap<Handle>, op: Constant)
        requires
            self.ready(heap, op),
        ensures
            self.config(heap).right.len() > 0,
            self.config(heap).right[0] == Term::Constant(op),
            self.config(heap).right.skip(1) == ahead(heap.views(self.pending@.drop_last())),
            step(self.config(heap), false) == rule(op, self.config(heap)) || op == Constant::Bang,
            step(self.config(heap), true) == rule(op, self.config(heap)),
    {
        let p = heap.views(self.pending@);
        lemma_views_pop(heap, self.pending@);
        let c = self.config(heap);
        assert(p.last().flatten() =~= seq![Term::Constant(op)]);
        assert(c.right.skip(1) =~= ahead(p.drop_last()));
    }

    /// A store that only gains terms leaves the machine as it is.
    pub proof fn lemma_kept(&self, pre: Heap<Handle>, post: Heap<Handle>)
        requires
            self.fits(pre),
            pre.terms.submap_of(post.terms),
        ensures
            self.fits(post),
            self.config(post) == (Config { room: post.room(), ..self.config(pre) }),
            self.burden(post) == self.burden(pre),
            forall|op: Constant| self.ready(pre, op) ==> self.ready(post, op),
    {
        lemma_views_kept(pre, post, self.left@);
        lemma_views_kept(pre, post, self.pending@);
    }
}

/// The first `Reset` stands where nothing before is a `Reset`.
pub proof fn lemma_boundary(steps: Seq<Term>, k: nat)
    requires
        k <= steps.len(),
        forall|j: int| 0 <= j < k ==> steps[j] != Term::Constant(Constant::Reset),
        k < steps.len() ==> steps[k as int] == Term::Constant(Constant::Reset),
    ensures
        boundary(steps) == k,
    decreases k,
{
    if k > 0 {
        let tail = steps.skip(1);
        assert forall|j: int| 0 <= j < k - 1 implies tail[j] != Term::Constant(
            Constant::Reset,
        ) by {
            assert(tail[j] == steps[j + 1]);
        }
        lemma_boundary(tail, (k - 1) as nat);
    }
}

/// What a rule does to a machine and its store: the store only gains terms,
/// and the machine fails or moves on as the rule says.
pub open spec fn stepped(
    pre_m: Machine,
    pre: Heap<Handle>,
    post_m: Machine,
    post: Heap<Handle>,
    op: Constant,
    r: Result<(), Error>,
) -> bool {
    &&& pre.extends_to(post)
    &&& match rule(op, pre_m.config(pre)) {
        Step::Fault(e) => r == Err::<(), Error>(e),
        Step::Next(n) => r is Ok && post_m.fits(post) && post_m.config(post) == n,
        Step::Halt => true,
    }
}

impl Store {
    /// `X Copy` gives `X X`.
    fn rule_copy(&self, m: &mut Machine) -> (r: Result<(), Error>)
        requires
            self.inv(),
            old(m).ready(self@, Constant::Copy),
        ensures
            stepped(*old(m), self@, *final(m), self@, Constant::Copy, r),
    {
        proof {
            m.lemma_ready(self@, Constant::Copy);
        }
        let n: usize = m.left.len();
        if n < 1 {
            return Err(Error::Type);
        }
        if m.effort == 0 {
            return Err(Error::Time);
        }
        let x = m.left[n - 1];
        m.pending.pop();
        m.left.push(x);
        m.effort = m.effort - 1;
        proof {
            lemma_views_push(self@, old(m).left@, x);
            let next = rule(Constant::Copy, old(m).config(self@))->Next_0;
            assert(m.config(self@).left =~= next.left);
        }
        Ok(())
    }

    /// `X Drop` gives the empty program.
    fn rule_drop(&self, m: &mut Machine) -> (r: Result<(), Error>)
        requires
            self.inv(),
            old(m).ready(self@, Constant::Drop),
        ensures
            stepped(*old(m), self@, *final(m), self@, Constant::Drop, r),
    {
        proof {
            m.lemma_ready(self@, Constant::Drop);
        }
        let n: usize = m.left.len();
        if n < 1 {
            return Err(Error::Type);
        }
        if m.effort == 0 {
            return Err(Error::Time);
        }
        m.pending.pop();
        m.left.pop();
        m.effort = m.effort - 1;
        proof {
            let next = rule(Constant::Drop, old(m).config(self@))->Next_0;
            assert(m.config(self@).left =~= next.left);
        }
        Ok(())
    }

    /// `X Y Swap` gives `Y X`.
    fn rule_swap(&self, m: &mut Machine) -> (r: Result<(), Error>)
        requires
            self.inv(),
            old(m).ready(self@, Constant::Swap),
        ensures
            stepped(*old(m), self@, *final(m), self@, Constant::Swap, r),
    {
        proof {
            m.lemma_ready(self@, Constant::Swap);
        }
        let n: usize = m.left.len();
        if n < 2 {
            return Err(Error::Type);
        }
        if m.effort == 0 {
            return Err(Error::Time);
        }
        let x = m.left[n - 2];
        let y = m.left[n - 1];
        m.pending.pop();
        m.left.set(n - 2, y);
        m.left.set(n - 1, x);
        m.effort = m.effort - 1;
        proof {
            let next = rule(Constant::Swap, old(m).config(self@))->Next_0;
            assert(m.config(self@).left =~= next.left);
        }
        Ok(())
    }

    /// `Reset` ends a delimited region and leaves nothing.
    fn rule_reset(&self, m: &mut Machine) -> (r: Result<(), Error>)
        requires
            self.inv(),
            old(m).ready(self@, Constant::Reset),
        ensures
            stepped(*old(m), self@, *final(m), self@, Constant::Reset, r),
    {
        proof {
            m.lemma_ready(self@, Constant::Reset);
        }
        if m.effort == 0 {
            return Err(Error::Time);
        }
        m.pending.pop();
        m.effort = m.effort - 1;
        Ok(())
    }

    /// `[P] Apply` gives `P`.
    fn rule_apply(&self, m: &mut Machine) -> (r: Result<(), Error>)
        requires
            self.inv(),
            old(m).ready(self@, Constant::Apply),
        ensures
            stepped(*old(m), self@, *final(m), self@, Constant::Apply, r),
    {
        proof {
            m.lemma_ready(self@, Constant::Apply);
        }
        let n: usize = m.left.len();
        if n < 1 {
            return Err(Error::Type);
        }
        let x = m.left[n - 1];
        match self.head(x) {
            Head::Quote(b) => {
                if m.effort == 0 {
                    return Err(Error::Time);
                }
                m.pending.pop();
                m.left.pop();
                m.pending.push(b);
                m.effort = m.effort - 1;
                proof {
                    let rest = old(m).pending@.drop_last();
                    lemma_views_push(self@, rest, b);
                    lemma_ahead_push(self@.views(rest), self@.terms[b]);
                    let next = rule(Constant::Apply, old(m).config(self@))->Next_0;
                    assert(m.config(self@).left =~= next.left);
                    assert(m.config(self@).right =~= next.right);
                }
                Ok(())
            },
            _ => Err(Error::Type),
        }
    }

    /// `X Quote` gives `[X]`.
    fn rule_quote(&mut self, m: &mut Machine) -> (r: Result<(), Error>)
        requires
            old(self).inv(),
            old(m).ready(old(self)@, Constant::Quote),
        ensures
            final(self).inv(),
            stepped(*old(m), old(self)@, *final(m), final(self)@, Constant::Quote, r),
    {
        proof {
            m.lemma_ready(self@, Constant::Quote);
        }
        let n: usize = m.left.len();
        if n < 1 {
            return Err(Error::Type);
        }
        if m.effort == 0 {
            return Err(Error::Time);
        }
        let x = m.left[n - 1];
        proof {
            assert(seq![x][0] == x);
        }
        let q = match self.enter(Node::Quote(x)) {
            Ok(q) => q,
            Err(e) => {
                return Err(e);
            },
        };
        m.pending.pop();
        m.left.set(n - 1, q);
        m.effort = m.effort - 1;
        proof {
            let pre = old(self)@;
            let post = self@;
            lemma_views_kept(pre, post, old(m).left@);
            lemma_views_kept(pre, post, old(m).pending@.drop_last());
            let next = rule(Constant::Quote, old(m).config(pre))->Next_0;
            assert(m.config(post).left =~= next.left);
        }
        Ok(())
    }

    /// `[P] [Q] Compose` gives `[P Q]`.
    fn rule_compose(&mut self, m: &mut Machine) -> (r: Result<(), Error>)
        requires
            old(self).inv(),
            old(m).ready(old(self)@, Constant::Compose),
        ensures
            final(self).inv(),
            stepped(*old(m), old(self)@, *final(m), final(self)@, Constant::Compose, r),
    {
        proof {
            m.lemma_ready(self@, Constant::Compose);
        }
        let n: usize = m.left.len();
        if n < 2 {
            return Err(Error::Type);
        }
        let x = m.left[n - 2];
        let y = m.left[n - 1];
        let p = match self.head(x) {
            Head::Quote(p) => p,
            _ => {
                return Err(Error::Type);
            },
        };
        let q = match self.head(y) {
            Head::Quote(q) => q,
            _ => {
                return Err(Error::Type);
            },
        };
        if m.effort == 0 {
            return Err(Error::Time);
        }
        proof {
            assert(seq![p, q][0] == p);
            assert(seq![p, q][1] == q);
        }
        let pq = match self.enter(Node::Sequence(p, q)) {
            Ok(h) => h,
            Err(e) => {
                return Err(e);
            },
        };
        let ghost mid = self@;
        proof {
            assert(seq![pq][0] == pq);
        }
        let z = match self.enter(Node::Quote(pq)) {
            Ok(h) => h,
            Err(e) => {
                return Err(e);
            },
        };
        assert(mid.terms[pq] == Term::Sequence(
            Box::new(old(self)@.terms[p]),
            Box::new(old(self)@.terms[q]),
        ));
        m.pending.pop();
        m.left.pop();
        m.left.set(n - 2, z);
        m.effort = m.effort - 1;
        proof {
            let pre = old(self)@;
            let post = self@;
            lemma_extends_twice(pre, mid, post);
            lemma_views_kept(pre, post, old(m).left@);
            lemma_views_kept(pre, post, old(m).pending@.drop_last());
            let next = rule(Constant::Compose, old(m).config(pre))->Next_0;
            assert(m.config(post).left =~= next.left);
        }
        Ok(())
    }

    /// Joins steps into one term, nested to the left.
    #[verifier::loop_isolation(false)]
    pub(crate) fn join(&mut self, steps: &Vec<Handle>) -> (r: Result<Handle, Error>)
        requires
            old(self).inv(),
            old(self)@.has_all(steps@),
        ensures
            final(self).inv(),
            old(self)@.extends_to(final(self)@),
            old(self)@.room() < joints(steps@.len()) ==> r == Err::<Handle, Error>(Error::Space),
            old(self)@.room() >= joints(steps@.len()) ==> (r matches Ok(o) && final(self)@.has(o)
                && final(self)@.terms[o] == assemble(old(self)@.views(steps@))
                && final(self)@.room() == old(self)@.room() - joints(steps@.len())),
    {
        let ghost pre = self@;
        let ghost ts = pre.views(steps@);
        proof {
            self.consistent();
        }
        if steps.len() == 0 {
            return self.new_identity();
        }
        let mut acc = steps[0];
        let mut i: usize = 1;
        proof {
            assert(ts.take(1).len() == 1);
            assert(assemble(ts.take(1)) == ts[0]);
        }
        while i < steps.len()
            invariant
                self.inv(),
                1 <= i <= steps@.len(),
                pre.extends_to(self@),
                pre.has_all(steps@),
                ts == pre.views(steps@),
                self@.has(acc),
                self@.terms[acc] == assemble(ts.take(i as int)),
                self@.room() + (i - 1) == pre.room(),
            decreases steps@.len() - i,
        {
            let x = steps[i];
            let ghost mid = self@;
            proof {
                lemma_views_kept(pre, mid, steps@);
                assert(seq![acc, x][0] == acc);
                assert(seq![acc, x][1] == x);
                assert(mid.terms[x] == ts[i as int]);
            }
            acc = match self.enter(Node::Sequence(acc, x)) {
                Ok(h) => h,
                Err(e) => {
                    proof {
                        assert(mid.room() == 0);
                        lemma_extends_twice(pre, mid, self@);
                    }
                    return Err(e);
                },
            };
            proof {
                lemma_extends_twice(pre, mid, self@);
                let next = ts.take(i + 1);
                assert(next.drop_last() =~= ts.take(i as int));
                assert(next.last() == ts[i as int]);
            }
            i = i + 1;
        }
        proof {
            assert(ts.take(steps@.len() as int) =~= ts);
        }
        Ok(acc)
    }

    /// Takes the steps that stand before the nearest `Reset` off the pending
    /// terms; `None` where no `Reset` is ahead.
    fn capture(&self, m: &mut Machine) -> (r: Option<Vec<Handle>>)
        requires
            self.inv(),
            self@.has_all(old(m).pending@),
        ensures
            final(m).left == old(m).left,
            final(m).effort == old(m).effort,
            final(m).stuck == old(m).stuck,
            ({
                let rest = ahead(self@.views(old(m).pending@));
                match r {
                    None => boundary(rest) == rest.len(),
                    Some(taken) => {
                        &&& self@.has_all(taken@)
                        &&& self@.has_all(final(m).pending@)
                        &&& boundary(rest) == taken@.len()
                        &&& taken@.len() < rest.len()
                        &&& self@.views(taken@) == rest.take(taken@.len() as int)
                        &&& ahead(self@.views(final(m).pending@)) == rest.skip(taken@.len() as int)
                    },
                }
            }),
    {
        let ghost pre = self@;
        let ghost rest = ahead(pre.views(m.pending@));
        let mut taken: Vec<Handle> = Vec::new();
        proof {
            self.consistent();
            assert(pre.views(taken@) + ahead(pre.views(m.pending@)) =~= rest);
        }
        let mut found = false;
        while !found
            invariant
                self.inv(),
                self@ == pre,
                pre.wf(),
                pre.has_all(m.pending@),
                pre.has_all(taken@),
                m.left == old(m).left,
                m.effort == old(m).effort,
                m.stuck == old(m).stuck,
                rest == ahead(pre.views(old(m).pending@)),
                pre.views(taken@) + ahead(pre.views(m.pending@)) == rest,
                forall|j: int|
                    0 <= j < taken@.len() ==> pre.terms[#[trigger] taken@[j]] != Term::Constant(
                        Constant::Reset,
                    ),
                found ==> m.pending@.len() > 0 && pre.terms[m.pending@.last()] == Term::Constant(
                    Constant::Reset,
                ),
            decreases weight(pre.views(m.pending@)) + (if found { 0nat } else { 1nat }),
        {
            let k: usize = m.pending.len();
            if k == 0 {
                proof {
                    assert(pre.views(taken@) =~= rest);
                    assert forall|j: int| 0 <= j < rest.len() implies rest[j] != Term::Constant(
                        Constant::Reset,
                    ) by {
                        assert(rest[j] == pre.terms[taken@[j]]);
                    }
                    lemma_boundary(rest, rest.len());
                }
                return None;
            }
            let h = m.pending[k - 1];
            let ghost before = m.pending@;
            proof {
                lemma_views_pop(pre, before);
            }
            match self.head(h) {
                Head::Gone => {
                    return None;
                },
                Head::Skip => {
                    m.pending.pop();
                },
                Head::Pair(a, b) => {
                    m.pending.pop();
                    m.pending.push(b);
                    m.pending.push(a);
                    proof {
                        let low = before.drop_last();
                        lemma_views_push(pre, low, b);
                        lemma_views_push(pre, low.push(b), a);
                        lemma_ahead_push(pre.views(low), pre.terms[b]);
                        lemma_ahead_push(pre.views(low).push(pre.terms[b]), pre.terms[a]);
                        assert(ahead(pre.views(m.pending@)) =~= ahead(pre.views(before)));
                    }
                },
                Head::Op(Constant::Reset) => {
                    found = true;
                },
                _ => {
                    let ghost had = taken@;
                    m.pending.pop();
                    taken.push(h);
                    proof {
                        let t = pre.terms[h];
                        assert(t.flatten() =~= seq![t]);
                        lemma_views_push(pre, had, h);
                        assert(pre.views(taken@) + ahead(pre.views(m.pending@)) =~= rest);
                    }
                },
            }
        }
        proof {
            let b = taken@.len();
            let t = pre.terms[m.pending@.last()];
            lemma_views_pop(pre, m.pending@);
            assert(t.flatten() =~= seq![t]);
            assert(rest[b as int] == t);
            assert forall|j: int| 0 <= j < b implies rest[j] != Term::Constant(
                Constant::Reset,
            ) by {
                assert(rest[j] == pre.terms[taken@[j]]);
            }
            lemma_boundary(rest, b);
            assert(pre.views(taken@) =~= rest.take(b as int));
            assert(ahead(pre.views(m.pending@)) =~= rest.skip(b as int));
        }
        Some(taken)
    }

    /// `[P] Shift` captures what stands before the nearest `Reset` as a
    /// quotation `[K]` and goes on with `[K] P` before that `Reset`.
    fn rule_shift(&mut self, m: &mut Machine) -> (r: Result<(), Error>)
        requires
            old(self).inv(),
            old(m).ready(old(self)@, Constant::Shift),
        ensures
            final(self).inv(),
            stepped(*old(m), old(self)@, *final(m), final(self)@, Constant::Shift, r),
    {
        let ghost pre = self@;
        let ghost c = m.config(pre);
        proof {
            m.lemma_ready(pre, Constant::Shift);
        }
        let ghost rest = c.right.skip(1);
        let n: usize = m.left.len();
        if n < 1 {
            return Err(Error::Type);
        }
        let x = m.left[n - 1];
        let p = match self.head(x) {
            Head::Quote(p) => p,
            _ => {
                return Err(Error::Type);
            },
        };
        m.pending.pop();
        let taken = match self.capture(m) {
            Some(taken) => taken,
            None => {
                return Err(Error::Type);
            },
        };
        let ghost b = taken@.len();
        if m.effort == 0 {
            return Err(Error::Time);
        }
        let k = match self.join(&taken) {
            Ok(k) => k,
            Err(e) => {
                return Err(e);
            },
        };
        let ghost mid = self@;
        proof {
            assert(seq![k][0] == k);
        }
        let kq = match self.enter(Node::Quote(k)) {
            Ok(h) => h,
            Err(e) => {
                proof {
                    lemma_extends_twice(pre, mid, self@);
                }
                return Err(e);
            },
        };
        let ghost low = m.pending@;
        m.left.set(n - 1, kq);
        m.pending.push(p);
        m.effort = m.effort - 1;
        proof {
            let post = self@;
            lemma_extends_twice(pre, mid, post);
            lemma_views_kept(pre, post, old(m).left@);
            lemma_views_kept(pre, post, low);
            assert(post.has(p)) by {
                assert(pre.has(p));
            }
            assert(post.terms[p] == pre.terms[p]);
            lemma_views_push(post, low, p);
            lemma_ahead_push(post.views(low), post.terms[p]);
            let next = rule(Constant::Shift, c)->Next_0;
            assert(m.config(post).left =~= next.left);
            assert(m.config(post).right =~= next.right);
        }
        Ok(())
    }

    /// Applies the rule of a combinator other than `Bang`.
    fn dispatch(&mut self, m: &mut Machine, op: Constant) -> (r: Result<(), Error>)
        requires
            old(self).inv(),
            old(m).ready(old(self)@, op),
            op != Constant::Bang,
        ensures
            final(self).inv(),
            stepped(*old(m), old(self)@, *final(m), final(self)@, op, r),
    {
        match op {
            Constant::Apply => self.rule_apply(m),
            Constant::Quote => self.rule_quote(m),
            Constant::Compose => self.rule_compose(m),
            Constant::Copy => self.rule_copy(m),
            Constant::Drop => self.rule_drop(m),
            Constant::Swap => self.rule_swap(m),
            Constant::Shift => self.rule_shift(m),
            Constant::Reset => self.rule_reset(m),
            Constant::Bang => Ok(()),
        }
    }

    /// Makes the moves that cost no effort, until a combinator is next to
    /// run or the machine halts. Returns the combinator.
    #[verifier::loop_isolation(false)]
    fn settle(&self, m: &mut Machine, effects: bool) -> (r: Option<Constant>)
        requires
            self.inv(),
            old(m).fits(self@),
        ensures
            final(m).fits(self@),
            final(m).effort() == old(m).effort(),
            run(final(m).config(self@), effects) == run(old(m).config(self@), effects),
            match r {
                Some(op) => final(m).ready(self@, op) && op != Constant::Bang,
                None => step(final(m).config(self@), effects) == Step::Halt && (final(m).idle() || (
                effects && final(m).ready(self@, Constant::Bang))),
            },
    {
        let ghost heap = self@;
        let ghost goal = run(m.config(heap), effects);
        proof {
            self.consistent();
        }
        loop
            invariant
                m.fits(heap),
                m.effort == old(m).effort,
                run(m.config(heap), effects) == goal,
            decreases m.burden(heap),
        {
            let k: usize = m.pending.len();
            if k == 0 {
                return None;
            }
            let h = m.pending[k - 1];
            let ghost before = m.pending@;
            let ghost low = before.drop_last();
            let ghost c = m.config(heap);
            let ghost t = heap.terms[h];
            proof {
                lemma_views_pop(heap, before);
                assert(before =~= low.push(h));
                lemma_ahead_push(heap.views(low), t);
            }
            let hd = self.head(h);
            match hd {
                Head::Gone => {
                    return None;
                },
                Head::Skip => {
                    m.pending.pop();
                    proof {
                        assert(m.config(heap).right =~= c.right);
                    }
                },
                Head::Pair(a, b) => {
                    m.pending.pop();
                    m.pending.push(b);
                    m.pending.push(a);
                    proof {
                        lemma_views_push(heap, low, b);
                        lemma_views_push(heap, low.push(b), a);
                        lemma_ahead_push(heap.views(low), heap.terms[b]);
                        lemma_ahead_push(heap.views(low).push(heap.terms[b]), heap.terms[a]);
                        assert(m.config(heap).right =~= c.right);
                    }
                },
                _ => {
                    proof {
                        assert(t.flatten() =~= seq![t]);
                        assert(c.right[0] == t);
                        assert(c.right.skip(1) =~= ahead(heap.views(low)));
                    }
                    let mut halt = false;
                    let mut stick = false;
                    if !m.stuck {
                        match hd {
                            Head::Op(Constant::Bang) => {
                                if effects {
                                    halt = true;
                                } else {
                                    stick = true;
                                }
                            },
                            Head::Op(op) => {
                                proof {
                                    m.lemma_ready(heap, op);
                                }
                                return Some(op);
                            },
                            Head::Name => {
                                stick = true;
                            },
                            _ => {},
                        }
                    }
                    if halt {
                        return None;
                    }
                    let ghost had = m.left@;
                    m.pending.pop();
                    m.left.push(h);
                    if stick {
                        m.stuck = true;
                    }
                    proof {
                        lemma_views_push(heap, had, h);
                        let n = m.config(heap);
                        assert(n.left =~= c.left.push(t));
                        assert(n.right =~= c.right.skip(1));
                        assert(step(c, effects) == Step::Next(n));
                    }
                },
            }
        }
    }

    /// Runs the machine until it halts or fails. With `effects` it halts
    /// before a bang, which waits for `answer`; without, a bang leaves the
    /// program stuck and the machine halts with nothing left to run.
    #[verifier::loop_isolation(false)]
    pub fn advance(&mut self, m: &mut Machine, effects: bool) -> (r: Result<(), Error>)
        requires
            old(self).inv(),
            old(m).fits(old(self)@),
        ensures
            final(self).inv(),
            old(self)@.extends_to(final(self)@),
            match run(old(m).config(old(self)@), effects) {
                Err(e) => r == Err::<(), Error>(e),
                Ok(c) => {
                    &&& r is Ok
                    &&& final(m).fits(final(self)@)
                    &&& final(m).config(final(self)@) == c
                    &&& final(m).effort() <= old(m).effort()
                    &&& final(m).idle() || (effects && final(m).ready(
                        final(self)@,
                        Constant::Bang,
                    ))
                },
            },
    {
        let ghost pre = self@;
        let ghost goal = run(m.config(pre), effects);
        proof {
            lemma_extends_twice(pre, pre, pre);
        }
        loop
            invariant
                self.inv(),
                m.fits(self@),
                pre.extends_to(self@),
                m.effort() <= old(m).effort(),
                run(m.config(self@), effects) == goal,
            decreases m.effort(),
        {
            let ghost mid = self@;
            let ghost before = *m;
            match self.settle(m, effects) {
                None => {
                    return Ok(());
                },
                Some(op) => {
                    let ghost c = m.config(mid);
                    let ghost ready = *m;
                    proof {
                        m.lemma_ready(mid, op);
                    }
                    match self.dispatch(m, op) {
                        Err(e) => {
                            proof {
                                lemma_extends_twice(pre, mid, self@);
                            }
                            return Err(e);
                        },
                        Ok(()) => {
                            proof {
                                lemma_extends_twice(pre, mid, self@);
                                assert(step(c, effects) == rule(op, c));
                                assert(rule(op, c) is Next);
                            }
                        },
                    }
                },
            }
        }
    }

    /// Joins what a halted machine holds into one term.
    pub fn conclude(&mut self, m: Machine) -> (r: Result<Handle, Error>)
        requires
            old(self).inv(),
            m.fits(old(self)@),
            m.idle(),
        ensures
            final(self).inv(),
            old(self)@.extends_to(final(self)@),
            match finish(m.config(old(self)@)) {
                Ok((t, room)) => r matches Ok(o) && final(self)@.has(o) && final(self)@.terms[o]
                    == t && final(self)@.room() == room,
                Err(e) => r == Err::<Handle, Error>(e),
            },
    {
        proof {
            let c = m.config(self@);
            assert(c.left + c.right =~= c.left);
        }
        self.join(&m.left)
    }

    /// Puts the answer of a handler in place of the bang that the machine
    /// waits on and of the values before it; the answer runs next. Fails,
    /// and changes nothing, where no effort is left.
    pub fn answer(&self, m: &mut Machine, answer: Vec<Handle>) -> (r: Result<(), Error>)
        requires
            self.inv(),
            old(m).fits(self@),
            old(m).ready(self@, Constant::Bang),
            self@.has_all(answer@),
        ensures
            old(m).effort() == 0 ==> r == Err::<(), Error>(Error::Time) && *final(m) == *old(m),
            old(m).effort() > 0 ==> r is Ok && final(m).fits(self@) && final(m).config(self@)
                == resume(old(m).config(self@), self@.views(answer@), self@.room())
                && final(m).effort() < old(m).effort(),
    {
        if m.effort == 0 {
            return Err(Error::Time);
        }
        let ghost heap = self@;
        let ghost c = m.config(heap);
        let ghost ts = heap.views(answer@);
        proof {
            m.lemma_ready(heap, Constant::Bang);
        }
        m.pending.pop();
        m.left = Vec::new();
        m.effort = m.effort - 1;
        let ghost low = m.pending@;
        let mut i: usize = answer.len();
        proof {
            assert(ts.skip(i as int) =~= Seq::<Term>::empty());
            assert(heap.views(m.left@) =~= Seq::<Term>::empty());
        }
        while i > 0
            invariant
                i <= answer@.len(),
                heap.has_all(answer@),
                heap.has_all(m.pending@),
                ts == heap.views(answer@),
                m.left@.len() == 0,
                m.stuck == old(m).stuck,
                m.effort == old(m).effort - 1,
                ahead(heap.views(m.pending@)) == flatten_all(ts.skip(i as int)) + ahead(
                    heap.views(low),
                ),
            decreases i,
        {
            i = i - 1;
            let h = answer[i];
            let ghost had = m.pending@;
            m.pending.push(h);
            proof {
                lemma_views_push(heap, had, h);
                lemma_ahead_push(heap.views(had), heap.terms[h]);
                assert(ts.skip(i as int).skip(1) =~= ts.skip(i + 1));
                assert(ts.skip(i as int)[0] == heap.terms[h]);
                assert(ahead(heap.views(m.pending@)) =~= flatten_all(ts.skip(i as int)) + ahead(
                    heap.views(low),
                ));
            }
        }
        proof {
            assert(ts.skip(0) =~= ts);
            let n = resume(c, ts, heap.room());
            assert(m.config(heap).left =~= n.left);
            assert(m.config(heap).right =~= n.right);
        }
        Ok(())
    }

    /// What a handle names, as far as the rewriter needs to know.
    pub(crate) fn head(&self, h: Handle) -> (r: Head)
        requires
            self.inv(),
        ensures
            r.of(self@, h),
    {
        proof {
            self.consistent();
            if self@.has(h) {
                assert(self@.linked(h));
            }
        }
        match self.look(h) {
            None => Head::Gone,
            Some(Node::Identity) => Head::Skip,
            Some(Node::Constant(c)) => Head::Op(*c),
            Some(Node::Variable(_)) => Head::Name,
            Some(Node::Comment(_)) => Head::Text,
            Some(Node::Quote(b)) => {
                proof {
                    assert(seq![*b][0] == *b);
                }
                Head::Quote(*b)
            },
            Some(Node::Sequence(a, b)) => {
                proof {
                    assert(seq![*a, *b][0] == *a);
                    assert(seq![*a, *b][1] == *b);
                }
                Head::Pair(*a, *b)
            },
        }
    }

    /// A machine that is about to rewrite the term of a handle within the
    /// store's quota.
    pub fn load(&self, obj: Handle) -> (r: Result<Machine, Error>)
        requires
            self.inv(),
        ensures
            !self@.has(obj) ==> r == Err::<Machine, Error>(Error::Type),
            self@.has(obj) ==> (r matches Ok(m) && m.fits(self@) && m.config(self@) == start(
                self@.terms[obj],
                self@.quota,
                self@.room(),
            )),
    {
        match self.head(obj) {
            Head::Gone => Err(Error::Type),
            _ => {
                let mut pending: Vec<Handle> = Vec::new();
                pending.push(obj);
                let m = Machine { left: Vec::new(), pending, stuck: false, effort: self.quota() };
                proof {
                    let p = self@.views(m.pending@);
                    assert(p.drop_last() =~= Seq::<Term>::empty());
                    assert(p.last() == self@.terms[obj]);
                    assert(ahead(p.drop_last()) =~= Seq::<Term>::empty());
                    assert(ahead(p) =~= self@.terms[obj].flatten());
                    assert(self@.views(m.left@) =~= Seq::<Term>::empty());
                }
                Ok(m)
            },
        }
    }
}

impl Effects for Store {
    /// Runs the machine from bang to bang. The handler is given the values
    /// on the left of the cursor; its answer must be made of handles of the
    /// store, or the evaluation ends in `Error::Type`.
    #[verifier::loop_isolation(false)]
    fn execute<H: Handler<Store>>(&mut self, obj: Handle, ctx: &mut H) -> (r: Result<
        Handle,
        Error,
    >) {
        let ghost pre = self@;
        let ghost was = *self;
        proof {
            lemma_grows_twice(pre, pre, pre);
            lemma_extends_twice(pre, pre, pre);
        }
        let mut m = match self.load(obj) {
            Ok(m) => m,
            Err(e) => {
                return Err(e);
            },
        };
        let ghost begin = m.config(pre);
        let mut snap = Some(self.snapshot());
        loop
            invariant
                self.inv(),
                m.fits(self@),
                pre.grows_to(self@),
                snap matches Some(s) ==> self@ == pre && m.config(self@) == begin && was.remembers(
                    &s,
                ),
                snap is None ==> (run(begin, true) matches Ok(c) && c.right.len() > 0 && c.effort
                    > 0),
            decreases m.effort(),
        {
            let ghost mid = self@;
            match self.advance(&mut m, true) {
                Err(e) => {
                    proof {
                        lemma_grows_twice(pre, mid, self@);
                    }
                    match snap {
                        Some(s) => {
                            self.restore(s, Ghost(was));
                        },
                        None => {},
                    }
                    return Err(e);
                },
                Ok(()) => {},
            }
            let ghost got = self@;
            proof {
                lemma_grows_twice(pre, mid, got);
                m.lemma_state(got);
            }
            if m.is_idle() {
                match self.conclude(m) {
                    Ok(o) => {
                        proof {
                            lemma_grows_twice(pre, got, self@);
                            if snap is Some {
                                lemma_extends_twice(pre, got, self@);
                            }
                        }
                        return Ok(o);
                    },
                    Err(e) => {
                        proof {
                            lemma_grows_twice(pre, got, self@);
                            if snap is Some {
                                lemma_extends_twice(pre, got, self@);
                            }
                        }
                        match snap {
                            Some(s) => {
                                self.restore(s, Ghost(was));
                            },
                            None => {},
                        }
                        return Err(e);
                    },
                }
            }
            if m.is_spent() {
                match snap {
                    Some(s) => {
                        self.restore(s, Ghost(was));
                    },
                    None => {},
                }
                return Err(Error::Time);
            }
            let args = m.operands();
            snap = None;
            match ctx.execute(args, self) {
                Err(e) => {
                    proof {
                        lemma_grows_twice(pre, got, self@);
                    }
                    return Err(e);
                },
                Ok(answer) => {
                    proof {
                        lemma_grows_twice(pre, got, self@);
                        m.lemma_kept(got, self@);
                    }
                    if !self.holds_all(&answer) {
                        return Err(Error::Type);
                    }
                    match self.answer(&mut m, answer) {
                        Err(e) => {
                            return Err(e);
                        },
                        Ok(()) => {},
                    }
                },
            }
        }
    }
}

} // verus!
