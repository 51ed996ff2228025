//! The mathematical model of a term store: which handles name which terms,
//! how handles hang together, and what the environment binds.

use crate::term::{Error, Kind, Term};
use vstd::prelude::*;

verus! {

/// What a term store holds, over handles of type `O`.
#[verifier::reject_recursive_types(O)]
pub struct Heap<O> {
    /// The term that each handle of the store names.
    pub terms: Map<O, Term>,
    /// The handles of the direct sub-terms of each handle: none for a leaf,
    /// the body for a quotation, the first and the second for a sequence.
    pub parts: Map<O, Seq<O>>,
    /// The environment, from a variable's name to a handle.
    pub bindings: Map<Seq<char>, O>,
    /// The handle of the empty program, which every store holds.
    pub unit: O,
    /// How many terms the store may hold at once.
    pub capacity: nat,
    /// How many rule applications one evaluation may spend.
    pub quota: nat,
}

impl<O> Heap<O> {
    /// Whether the handle names a term of the store.
    pub open spec fn has(self, o: O) -> bool {
        self.terms.contains_key(o)
    }

    /// Whether every handle of the sequence names a term of the store.
    pub open spec fn has_all(self, os: Seq<O>) -> bool {
        forall|i: int| 0 <= i < os.len() ==> self.terms.contains_key(#[trigger] os[i])
    }

    /// The terms that the handles name, in order.
    pub open spec fn views(self, os: Seq<O>) -> Seq<Term> {
        Seq::new(os.len(), |i: int| self.terms[os[i]])
    }

    /// How many more terms the store can take.
    pub open spec fn room(self) -> nat {
        if self.terms.dom().len() <= self.capacity {
            (self.capacity - self.terms.dom().len()) as nat
        } else {
            0
        }
    }

    /// The term of a handle is made of the terms of its parts.
    pub open spec fn linked(self, o: O) -> bool {
        let ps = self.parts[o];
        match self.terms[o] {
            Term::Quote(b) => ps.len() == 1 && self.has(ps[0]) && self.terms[ps[0]] == *b,
            Term::Sequence(a, b) => {
                &&& ps.len() == 2
                &&& self.has(ps[0])
                &&& self.has(ps[1])
                &&& self.terms[ps[0]] == *a
                &&& self.terms[ps[1]] == *b
            },
            _ => ps.len() == 0,
        }
    }

    /// The store is consistent: finitely many terms within the capacity,
    /// every handle linked to its parts, the unit the empty program, and
    /// the environment bound to terms of the store.
    pub open spec fn wf(self) -> bool {
        &&& self.terms.dom().finite()
        &&& self.terms.dom().len() <= self.capacity
        &&& self.parts.dom() == self.terms.dom()
        &&& self.has(self.unit)
        &&& self.terms[self.unit] == Term::Identity
        &&& forall|o: O| #[trigger] self.terms.contains_key(o) ==> self.linked(o)
        &&& forall|k: Seq<char>| #[trigger]
            self.bindings.contains_key(k) ==> self.terms.contains_key(self.bindings[k])
    }

    /// The store after a fresh handle `o` was given the term `t` with the
    /// parts `ps`.
    pub open spec fn grow(self, o: O, t: Term, ps: Seq<O>) -> Heap<O> {
        Heap { terms: self.terms.insert(o, t), parts: self.parts.insert(o, ps), ..self }
    }

    /// Everything of this store is unchanged in `post`, which may hold more
    /// terms; the environment and the quota may differ.
    pub open spec fn grows_to(self, post: Heap<O>) -> bool {
        &&& self.terms.submap_of(post.terms)
        &&& self.parts.submap_of(post.parts)
        &&& post.unit == self.unit
        &&& post.capacity == self.capacity
    }

    /// A handle of this store names the same term in a store that this one
    /// grows to.
    pub proof fn lemma_kept(self, post: Heap<O>, o: O)
        requires
            self.grows_to(post),
            self.has(o),
        ensures
            post.has(o),
            post.terms[o] == self.terms[o],
    {
        assert(self.terms.dom().contains(o));
        assert(post.terms.contains_key(o));
    }

    /// As `grows_to`, with the environment and the quota unchanged too.
    pub open spec fn extends_to(self, post: Heap<O>) -> bool {
        &&& self.grows_to(post)
        &&& post.bindings == self.bindings
        &&& post.quota == self.quota
    }

    /// What a constructor does that makes the term `t` with the parts `ps`:
    /// it refuses parts that the store does not hold, fails for want of room
    /// and else names the term by a fresh handle. A failure changes nothing.
    pub open spec fn made(self, post: Heap<O>, r: Result<O, Error>, t: Term, ps: Seq<O>) -> bool {
        if !self.has_all(ps) {
            r == Err::<O, Error>(Error::Type) && post == self
        } else if self.room() == 0 {
            r == Err::<O, Error>(Error::Space) && post == self
        } else {
            r matches Ok(o) && !self.has(o) && post == self.grow(o, t, ps)
        }
    }

    /// What the environment answers for a name.
    pub open spec fn lookup(self, k: Seq<char>) -> Option<O> {
        if self.bindings.contains_key(k) {
            Some(self.bindings[k])
        } else {
            None
        }
    }

    /// The store after `k` was bound to `v`.
    pub open spec fn bind(self, k: Seq<char>, v: O) -> Heap<O> {
        Heap { bindings: self.bindings.insert(k, v), ..self }
    }

    /// The store after the binding of `k` was removed.
    pub open spec fn unbind(self, k: Seq<char>) -> Heap<O> {
        Heap { bindings: self.bindings.remove(k), ..self }
    }

    /// What `put` does: it refuses a handle that the store does not hold,
    /// and else binds the name and returns what the name was bound to.
    pub open spec fn put(self, post: Heap<O>, k: Seq<char>, v: O, r: Result<Option<O>, Error>) -> bool {
        if !self.has(v) {
            r == Err::<Option<O>, Error>(Error::Type) && post == self
        } else {
            r == Ok::<Option<O>, Error>(self.lookup(k)) && post == self.bind(k, v)
        }
    }

    /// What `delete` does: it fails on a name that is not bound, and else
    /// removes the binding and returns what the name was bound to.
    pub open spec fn delete(self, post: Heap<O>, k: Seq<char>, r: Result<O, Error>) -> bool {
        if !self.bindings.contains_key(k) {
            r == Err::<O, Error>(Error::Type) && post == self
        } else {
            r == Ok::<O, Error>(self.bindings[k]) && post == self.unbind(k)
        }
    }

    /// What an accessor answers that reads part `i` of a term of shape `k`.
    pub open spec fn part(self, o: O, k: Kind, i: int) -> Result<O, Error> {
        if self.has(o) && self.terms[o].is(k) {
            Ok(self.parts[o][i])
        } else {
            Err(Error::Type)
        }
    }

    /// What a shape predicate answers for a handle.
    pub open spec fn probe(self, o: O, k: Kind, deep: bool) -> Result<bool, Error> {
        if !self.has(o) {
            Err(Error::Type)
        } else if deep {
            Ok(self.terms[o].has(k))
        } else {
            Ok(self.terms[o].is(k))
        }
    }

    /// The environment as a map from names to terms.
    pub open spec fn scope(self) -> Map<Seq<char>, Term> {
        Map::new(
            |k: Seq<char>| self.bindings.contains_key(k),
            |k: Seq<char>| self.terms[self.bindings[k]],
        )
    }

    /// `to` is `from` or lies at most `n` parts below it.
    pub open spec fn path(self, from: O, to: O, n: nat) -> bool
        decreases n,
    {
        from == to || (n > 0 && self.has(from) && exists|i: int|
            0 <= i < self.parts[from].len() && self.path(
                #[trigger] self.parts[from][i],
                to,
                (n - 1) as nat,
            ))
    }

    /// The handles that a collection starts from: the given roots, the
    /// handles that the environment binds, and the unit.
    pub open spec fn anchor(self, roots: Seq<O>, o: O) -> bool {
        ||| roots.contains(o)
        ||| exists|k: Seq<char>| #[trigger] self.bindings.contains_key(k) && self.bindings[k] == o
        ||| o == self.unit
    }

    /// `o` can be reached from an anchor.
    pub open spec fn live(self, roots: Seq<O>, o: O) -> bool {
        exists|r: O, n: nat| self.anchor(roots, r) && #[trigger] self.path(r, o, n)
    }

    /// A path goes on by one part.
    pub proof fn lemma_path_on(self, from: O, mid: O, n: nat, i: int)
        requires
            self.path(from, mid, n),
            self.has(mid),
            0 <= i < self.parts[mid].len(),
        ensures
            self.path(from, self.parts[mid][i], n + 1),
        decreases n,
    {
        let to = self.parts[mid][i];
        if from == mid {
            assert(self.path(to, to, n));
            assert(self.path(self.parts[from][i], to, n));
        } else {
            let j = choose|j: int|
                0 <= j < self.parts[from].len() && self.path(
                    #[trigger] self.parts[from][j],
                    mid,
                    (n - 1) as nat,
                );
            self.lemma_path_on(self.parts[from][j], mid, (n - 1) as nat, i);
            assert(self.path(self.parts[from][j], to, n));
        }
    }

    /// The parts of a handle of a consistent store are handles of the store.
    pub proof fn lemma_parts(self, o: O, i: int)
        requires
            self.wf(),
            self.has(o),
            0 <= i < self.parts[o].len(),
        ensures
            self.has(self.parts[o][i]),
    {
        assert(self.linked(o));
    }

    /// A path from a handle of a consistent store ends in the store.
    pub proof fn lemma_path_in(self, from: O, to: O, n: nat)
        requires
            self.wf(),
            self.has(from),
            self.path(from, to, n),
        ensures
            self.has(to),
        decreases n,
    {
        if from != to {
            let j = choose|j: int|
                0 <= j < self.parts[from].len() && self.path(
                    #[trigger] self.parts[from][j],
                    to,
                    (n - 1) as nat,
                );
            self.lemma_parts(from, j);
            self.lemma_path_in(self.parts[from][j], to, (n - 1) as nat);
        }
    }

    /// Where the roots are handles of a consistent store, so is every
    /// handle that can be reached.
    pub proof fn lemma_live_in(self, roots: Seq<O>, o: O)
        requires
            self.wf(),
            self.has_all(roots),
            self.live(roots, o),
        ensures
            self.has(o),
    {
        let (r, n) = choose|r: O, n: nat| self.anchor(roots, r) && #[trigger] self.path(r, o, n);
        if roots.contains(r) {
            let i = choose|i: int| 0 <= i < roots.len() && roots[i] == r;
            assert(self.has(roots[i]));
        }
        self.lemma_path_in(r, o, n);
    }

    /// An anchor can be reached.
    pub proof fn lemma_live_anchor(self, roots: Seq<O>, o: O)
        requires
            self.anchor(roots, o),
        ensures
            self.live(roots, o),
    {
        assert(self.path(o, o, 0));
    }

    /// The parts of what can be reached can be reached.
    pub proof fn lemma_live_part(self, roots: Seq<O>, o: O, i: int)
        requires
            self.live(roots, o),
            self.has(o),
            0 <= i < self.parts[o].len(),
        ensures
            self.live(roots, self.parts[o][i]),
    {
        let (r, n) = choose|r: O, n: nat| self.anchor(roots, r) && #[trigger] self.path(r, o, n);
        self.lemma_path_on(r, o, n, i);
    }

    /// The store with only the handles that can be reached from an anchor.
    pub open spec fn retain(self, roots: Seq<O>) -> Heap<O> {
        let keep = Set::new(|o: O| self.live(roots, o));
        Heap { terms: self.terms.restrict(keep), parts: self.parts.restrict(keep), ..self }
    }
}

/// What a collection does: it refuses roots that the store does not hold,
/// and else keeps exactly the terms that can be reached from a root, from
/// the environment or from the unit.
pub open spec fn collected<O>(pre: Heap<O>, post: Heap<O>, roots: Seq<O>, r: Result<(), Error>) -> bool {
    if pre.has_all(roots) {
        r == Ok::<(), Error>(()) && post == pre.retain(roots)
    } else {
        r == Err::<(), Error>(Error::Type) && post == pre
    }
}

/// Growth goes on: what held before the first change holds after the second.
pub proof fn lemma_extends_twice<O>(a: Heap<O>, b: Heap<O>, c: Heap<O>)
    requires
        a.extends_to(b),
        b.extends_to(c),
    ensures
        a.extends_to(c),
{
    vstd::map_lib::lemma_submap_of_trans(a.terms, b.terms, c.terms);
    vstd::map_lib::lemma_submap_of_trans(a.parts, b.parts, c.parts);
}

/// Growth goes on, also where the environment and the quota change.
pub proof fn lemma_grows_twice<O>(a: Heap<O>, b: Heap<O>, c: Heap<O>)
    requires
        a.grows_to(b),
        b.grows_to(c),
    ensures
        a.grows_to(c),
{
    vstd::map_lib::lemma_submap_of_trans(a.terms, b.terms, c.terms);
    vstd::map_lib::lemma_submap_of_trans(a.parts, b.parts, c.parts);
}

/// The terms of handles, with one more handle at the end.
pub proof fn lemma_views_push<O>(heap: Heap<O>, os: Seq<O>, h: O)
    ensures
        heap.views(os.push(h)) == heap.views(os).push(heap.terms[h]),
{
    assert(heap.views(os.push(h)) =~= heap.views(os).push(heap.terms[h]));
}

/// The terms of handles, without the last handle.
pub proof fn lemma_views_pop<O>(heap: Heap<O>, os: Seq<O>)
    requires
        os.len() > 0,
    ensures
        heap.views(os.drop_last()) == heap.views(os).drop_last(),
        heap.views(os).last() == heap.terms[os.last()],
{
    assert(heap.views(os.drop_last()) =~= heap.views(os).drop_last());
}

/// Handles of a store name the same terms in a store that it grows to.
pub proof fn lemma_views_kept<O>(pre: Heap<O>, post: Heap<O>, os: Seq<O>)
    requires
        pre.terms.submap_of(post.terms),
        pre.has_all(os),
    ensures
        post.has_all(os),
        post.views(os) == pre.views(os),
{
    assert forall|i: int| 0 <= i < os.len() implies post.terms.contains_key(#[trigger] os[i])
        && post.terms[os[i]] == pre.terms[os[i]] by {
        assert(pre.terms.contains_key(os[i]));
    }
    assert(post.views(os) =~= pre.views(os));
}

} // verus!
