//! The collector: marks what can be reached from the roots, from the
//! environment and from the unit, then empties every other place.

use crate::container::Container;
use crate::heap::{collected, Heap};
use crate::store::{Handle, Node, Store};
use crate::term::Error;
use vstd::prelude::*;

verus! {

/// The handle of a place.
pub closed spec fn at(i: int) -> Handle {
    Handle { place: i as usize }
}

/// Whether the place of a handle is marked.
pub closed spec fn marked(marks: Seq<bool>, h: Handle) -> bool {
    h.place < marks.len() && marks[h.place as int]
}

/// Whether every part of a handle is marked.
pub closed spec fn parts_marked(heap: Heap<Handle>, marks: Seq<bool>, h: Handle) -> bool {
    forall|i: int| 0 <= i < heap.parts[h].len() ==> marked(marks, #[trigger] heap.parts[h][i])
}

/// Only what can be reached is marked, and what is marked is in the store.
pub closed spec fn sound(heap: Heap<Handle>, roots: Seq<Handle>, marks: Seq<bool>) -> bool {
    forall|h: Handle| #[trigger] marked(marks, h) ==> heap.live(roots, h) && heap.has(h)
}

/// What waits for its visit is marked.
pub closed spec fn waiting(marks: Seq<bool>, work: Seq<Handle>) -> bool {
    forall|j: int| 0 <= j < work.len() ==> marked(marks, #[trigger] work[j])
}

/// Every marked handle waits for its visit or has its parts marked; the
/// handle under visit is excepted.
pub closed spec fn closed_but(
    heap: Heap<Handle>,
    marks: Seq<bool>,
    work: Seq<Handle>,
    under: Option<Handle>,
) -> bool {
    forall|h: Handle| #[trigger]
        marked(marks, h) ==> under == Some(h) || work.contains(h) || parts_marked(heap, marks, h)
}

/// The places without a mark.
pub closed spec fn unmarked(marks: Seq<bool>) -> Set<int> {
    Set::new(|i: int| 0 <= i < marks.len() && !marks[i])
}

proof fn lemma_unmarked_finite(marks: Seq<bool>)
    ensures
        unmarked(marks).finite(),
{
    vstd::set_lib::lemma_int_range(0, marks.len() as int);
    assert(unmarked(marks).subset_of(vstd::set_lib::set_int_range(0, marks.len() as int)));
    vstd::set_lib::lemma_len_subset(
        unmarked(marks),
        vstd::set_lib::set_int_range(0, marks.len() as int),
    );
}

/// Once nothing waits, a path from a marked handle ends in a marked handle.
proof fn lemma_complete(heap: Heap<Handle>, marks: Seq<bool>, from: Handle, to: Handle, n: nat)
    requires
        closed_but(heap, marks, Seq::empty(), None),
        marked(marks, from),
        heap.path(from, to, n),
    ensures
        marked(marks, to),
    decreases n,
{
    if from != to {
        let j = choose|j: int|
            0 <= j < heap.parts[from].len() && heap.path(
                #[trigger] heap.parts[from][j],
                to,
                (n - 1) as nat,
            );
        assert(!Seq::<Handle>::empty().contains(from));
        assert(parts_marked(heap, marks, from));
        lemma_complete(heap, marks, heap.parts[from][j], to, (n - 1) as nat);
    }
}

impl Store {
    /// The handles of the direct sub-terms of a handle.
    fn children(&self, h: Handle) -> (r: Vec<Handle>)
        requires
            self.inv(),
            self@.has(h),
        ensures
            r@ == self@.parts[h],
    {
        let mut r: Vec<Handle> = Vec::new();
        match self.look(h) {
            Some(Node::Quote(b)) => {
                r.push(*b);
            },
            Some(Node::Sequence(a, b)) => {
                r.push(*a);
                r.push(*b);
            },
            _ => {},
        }
        proof {
            assert(r@ =~= self@.parts[h]);
        }
        r
    }

    /// Marks a handle that can be reached and lets it wait for its visit,
    /// unless it is marked already.
    fn visit(
        &self,
        marks: &mut Vec<bool>,
        work: &mut Vec<Handle>,
        h: Handle,
        Ghost(roots): Ghost<Seq<Handle>>,
        Ghost(under): Ghost<Option<Handle>>,
    )
        requires
            self.inv(),
            old(marks)@.len() == self.span(),
            self@.has(h),
            self@.live(roots, h),
            sound(self@, roots, old(marks)@),
            waiting(old(marks)@, old(work)@),
            closed_but(self@, old(marks)@, old(work)@, under),
        ensures
            final(marks)@.len() == old(marks)@.len(),
            sound(self@, roots, final(marks)@),
            waiting(final(marks)@, final(work)@),
            closed_but(self@, final(marks)@, final(work)@, under),
            marked(final(marks)@, h),
            forall|g: Handle| marked(old(marks)@, g) ==> marked(final(marks)@, g),
            unmarked(final(marks)@).len() < unmarked(old(marks)@).len() || (final(marks)@ == old(
                marks,
            )@ && final(work)@ == old(work)@),
            unmarked(final(marks)@).len() <= unmarked(old(marks)@).len(),
    {
        let n: usize = self.extent();
        if marks[h.place] {
            return ;
        }
        let ghost m0 = marks@;
        let ghost w0 = work@;
        marks.set(h.place, true);
        work.push(h);
        proof {
            let m1 = marks@;
            let w1 = work@;
            assert(w1.last() == h);
            assert forall|g: Handle| marked(m0, g) implies marked(m1, g) by {}
            assert forall|g: Handle| #[trigger] marked(m1, g) implies self@.live(roots, g)
                && self@.has(g) by {
                if g != h {
                    assert(marked(m0, g));
                }
            }
            assert forall|j: int| 0 <= j < w1.len() implies marked(m1, #[trigger] w1[j]) by {
                if j < w0.len() {
                    assert(marked(m0, w0[j]));
                }
            }
            assert forall|g: Handle| #[trigger] marked(m1, g) implies under == Some(g)
                || w1.contains(g) || parts_marked(self@, m1, g) by {
                if g == h {
                    assert(w1[w1.len() - 1] == g);
                } else {
                    assert(marked(m0, g));
                    if w0.contains(g) {
                        let j = choose|j: int| 0 <= j < w0.len() && w0[j] == g;
                        assert(w1[j] == g);
                    } else if under != Some(g) {
                        assert(parts_marked(self@, m0, g));
                        assert forall|i: int| 0 <= i < self@.parts[g].len() implies marked(
                            m1,
                            #[trigger] self@.parts[g][i],
                        ) by {
                            assert(marked(m0, self@.parts[g][i]));
                        }
                    }
                }
            }
            lemma_unmarked_finite(m0);
            assert(unmarked(m1) =~= unmarked(m0).remove(h.place as int));
            assert(unmarked(m0).contains(h.place as int));
            vstd::set::axiom_set_remove_len(unmarked(m0), h.place as int);
        }
    }

    /// Marks what can be reached from the roots, from the environment and
    /// from the unit.
    fn mark(&self, roots: &Vec<Handle>) -> (marks: Vec<bool>)
        requires
            self.inv(),
            self@.has_all(roots@),
        ensures
            marks@.len() == self.span(),
            forall|i: int|
                0 <= i < marks@.len() ==> #[trigger] marks@[i] == self@.live(
                    roots@,
                    Handle { place: i as usize },
                ),
    {
        let ghost heap = self@;
        let n: usize = self.extent();
        let mut marks: Vec<bool> = Vec::new();
        while marks.len() < n
            invariant
                marks@.len() <= n,
                forall|i: int| 0 <= i < marks@.len() ==> !#[trigger] marks@[i],
            decreases n - marks@.len(),
        {
            marks.push(false);
        }
        let mut work: Vec<Handle> = Vec::new();
        proof {
            self.consistent();
        }
        let unit = Handle { place: 0 };
        let bound = self.bound_values();
        let mut anchors: Vec<Handle> = Vec::new();
        anchors.push(match self.new_identity() {
            Ok(u) => u,
            Err(_) => unit,
        });
        let mut i: usize = 0;
        while i < bound.len()
            invariant
                i <= bound@.len(),
                anchors@.len() == i + 1,
                anchors@[0] == heap.unit,
                forall|j: int| 0 <= j < i ==> #[trigger] anchors@[j + 1] == bound@[j],
            decreases bound@.len() - i,
        {
            anchors.push(bound[i]);
            i = i + 1;
        }
        let ghost base = anchors@;
        let mut i: usize = 0;
        while i < roots.len()
            invariant
                i <= roots@.len(),
                anchors@.len() == base.len() + i,
                forall|j: int| 0 <= j < base.len() ==> #[trigger] anchors@[j] == base[j],
                forall|j: int| 0 <= j < i ==> #[trigger] anchors@[base.len() + j] == roots@[j],
            decreases roots@.len() - i,
        {
            anchors.push(roots[i]);
            i = i + 1;
        }
        proof {
            assert forall|h: Handle| heap.anchor(roots@, h) implies anchors@.contains(h) by {
                if h == heap.unit {
                    assert(anchors@[0] == h);
                } else if roots@.contains(h) {
                    let j = choose|j: int| 0 <= j < roots@.len() && roots@[j] == h;
                    assert(anchors@[base.len() + j] == h);
                } else {
                    assert(bound@.contains(h));
                    let j = choose|j: int| 0 <= j < bound@.len() && bound@[j] == h;
                    assert(base[j + 1] == h);
                    assert(anchors@[j + 1] == h);
                }
            }
            assert forall|j: int| 0 <= j < anchors@.len() implies heap.anchor(
                roots@,
                #[trigger] anchors@[j],
            ) by {
                if j == 0 {
                } else if j < base.len() {
                    assert(anchors@[j] == base[j]);
                    assert(base[(j - 1) + 1] == bound@[j - 1]);
                    assert(bound@.contains(bound@[j - 1]));
                } else {
                    assert(anchors@[base.len() + (j - base.len())] == roots@[j - base.len()]);
                    assert(roots@.contains(roots@[j - base.len()]));
                }
            }
            assert(sound(heap, roots@, marks@));
            assert(waiting(marks@, work@));
            assert(closed_but(heap, marks@, work@, None));
        }
        let mut i: usize = 0;
        while i < anchors.len()
            invariant
                self.inv(),
                self@ == heap,
                heap.wf(),
                heap.has_all(roots@),
                i <= anchors@.len(),
                marks@.len() == n,
                n == self.span(),
                forall|j: int| 0 <= j < anchors@.len() ==> heap.anchor(roots@, #[trigger] anchors@[j]),
                sound(heap, roots@, marks@),
                waiting(marks@, work@),
                closed_but(heap, marks@, work@, None),
                forall|j: int| 0 <= j < i ==> marked(marks@, #[trigger] anchors@[j]),
            decreases anchors@.len() - i,
        {
            let a = anchors[i];
            proof {
                heap.lemma_live_anchor(roots@, a);
                heap.lemma_live_in(roots@, a);
            }
            self.visit(&mut marks, &mut work, a, Ghost(roots@), Ghost(None));
            i = i + 1;
        }
        while work.len() > 0
            invariant
                self.inv(),
                self@ == heap,
                heap.wf(),
                marks@.len() == n,
                n == self.span(),
                sound(heap, roots@, marks@),
                waiting(marks@, work@),
                closed_but(heap, marks@, work@, None),
                forall|j: int| 0 <= j < anchors@.len() ==> marked(marks@, #[trigger] anchors@[j]),
            decreases unmarked(marks@).len(), work@.len(),
        {
            let ghost m0 = marks@;
            let ghost w0 = work@;
            let h = work.pop().unwrap();
            let ghost w1 = work@;
            proof {
                assert(marked(m0, w0[w0.len() - 1]));
                assert forall|g: Handle| #[trigger] marked(m0, g) implies Some(h) == Some(g)
                    || w1.contains(g) || parts_marked(heap, m0, g) by {
                    if g != h && w0.contains(g) {
                        let j = choose|j: int| 0 <= j < w0.len() && w0[j] == g;
                        assert(w1[j] == g);
                    }
                }
                assert(closed_but(heap, m0, w1, Some(h)));
                assert forall|j: int| 0 <= j < w1.len() implies marked(m0, #[trigger] w1[j]) by {
                    assert(w1[j] == w0[j]);
                }
            }
            let kids = self.children(h);
            let mut j: usize = 0;
            while j < kids.len()
                invariant
                    self.inv(),
                    self@ == heap,
                    heap.wf(),
                    heap.has(h),
                    heap.live(roots@, h),
                    kids@ == heap.parts[h],
                    j <= kids@.len(),
                    marks@.len() == n,
                    n == self.span(),
                    sound(heap, roots@, marks@),
                    waiting(marks@, work@),
                    closed_but(heap, marks@, work@, Some(h)),
                    marked(marks@, h),
                    forall|g: Handle| marked(m0, g) ==> marked(marks@, g),
                    forall|i: int| 0 <= i < j ==> marked(marks@, #[trigger] kids@[i]),
                    unmarked(marks@).len() < unmarked(m0).len() || (marks@ == m0 && work@ == w1),
                decreases kids@.len() - j,
            {
                let c = kids[j];
                let ghost mj = marks@;
                proof {
                    heap.lemma_live_part(roots@, h, j as int);
                    heap.lemma_parts(h, j as int);
                }
                self.visit(&mut marks, &mut work, c, Ghost(roots@), Ghost(Some(h)));
                proof {
                    assert forall|i: int| 0 <= i < j + 1 implies marked(
                        marks@,
                        #[trigger] kids@[i],
                    ) by {
                        if i < j {
                            assert(marked(mj, kids@[i]));
                        }
                    }
                }
                j = j + 1;
            }
            proof {
                assert(parts_marked(heap, marks@, h));
                assert forall|g: Handle| #[trigger] marked(marks@, g) implies None::<Handle>
                    == Some(g) || work@.contains(g) || parts_marked(heap, marks@, g) by {
                    if g != h {
                        assert(Some(h) != Some(g));
                    }
                }
                assert forall|k: int| 0 <= k < anchors@.len() implies marked(
                    marks@,
                    #[trigger] anchors@[k],
                ) by {
                    assert(marked(m0, anchors@[k]));
                }
            }
        }
        proof {
            assert(work@ =~= Seq::<Handle>::empty());
            assert forall|i: int| 0 <= i < marks@.len() implies #[trigger] marks@[i] == heap.live(
                roots@,
                Handle { place: i as usize },
            ) by {
                let o = Handle { place: i as usize };
                if marks@[i] {
                    assert(marked(marks@, o));
                }
                if heap.live(roots@, o) {
                    let (r, k) = choose|r: Handle, k: nat|
                        heap.anchor(roots@, r) && #[trigger] heap.path(r, o, k);
                    assert(anchors@.contains(r));
                    let j = choose|j: int| 0 <= j < anchors@.len() && anchors@[j] == r;
                    assert(marked(marks@, anchors@[j]));
                    lemma_complete(heap, marks@, r, o, k);
                }
            }
        }
        marks
    }

    /// Whether the store holds every handle of the list.
    pub(crate) fn holds_all(&self, hs: &Vec<Handle>) -> (r: bool)
        requires
            self.inv(),
        ensures
            r == self@.has_all(hs@),
    {
        let mut i: usize = 0;
        while i < hs.len()
            invariant
                self.inv(),
                i <= hs@.len(),
                forall|j: int| 0 <= j < i ==> self@.terms.contains_key(#[trigger] hs@[j]),
            decreases hs@.len() - i,
        {
            if self.look(hs[i]).is_none() {
                return false;
            }
            i = i + 1;
        }
        true
    }

    /// Collects garbage: see `Container::collect`.
    pub(crate) fn reclaim(&mut self, roots: &Vec<Handle>) -> (r: Result<(), Error>)
        requires
            old(self).inv(),
        ensures
            final(self).inv(),
            collected(old(self)@, final(self)@, roots@, r),
    {
        if !self.holds_all(roots) {
            return Err(Error::Type);
        }
        let marks = self.mark(roots);
        self.sweep(&marks, Ghost(roots@));
        Ok(())
    }
}

} // verus!
