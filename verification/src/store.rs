//! A term store that keeps its terms in numbered places, with an
//! environment, a capacity and an effort quota.

use crate::container::Container;
use crate::heap::Heap;
use crate::syntax::{closes, lemma_nodes_assemble, lexemes, nest, tokens};
use crate::term::{Constant, Error, Kind, Term, Variable};
use crate::text::{same_text, share_text};
use std::rc::Rc;
use vstd::prelude::*;

verus! {

/// The name of a term of a `Store`.
#[derive(Clone, Copy, Debug, PartialEq, Eq, Structural)]
pub struct Handle {
    pub(crate) place: usize,
}

/// A term as the store keeps it: sub-terms are named by their handles, so
/// that several terms can share one.
pub enum Node {
    Identity,
    Constant(Constant),
    Variable(Rc<str>),
    Comment(Rc<str>),
    Quote(Handle),
    Sequence(Handle, Handle),
}

impl Node {
    /// The handles of the direct sub-terms.
    pub open spec fn parts(self) -> Seq<Handle> {
        match self {
            Node::Quote(b) => seq![b],
            Node::Sequence(a, b) => seq![a, b],
            _ => Seq::empty(),
        }
    }

    /// The term that the node stands for, given the terms of its parts.
    pub open spec fn term(self, terms: Map<Handle, Term>) -> Term {
        match self {
            Node::Identity => Term::Identity,
            Node::Constant(c) => Term::Constant(c),
            Node::Variable(n) => Term::Variable(n@),
            Node::Comment(b) => Term::Comment(b@),
            Node::Quote(b) => Term::Quote(Box::new(terms[b])),
            Node::Sequence(a, b) => Term::Sequence(Box::new(terms[a]), Box::new(terms[b])),
        }
    }

    /// Whether the node has the given shape.
    pub(crate) fn is(&self, k: Kind) -> (r: bool)
        ensures
            forall|terms: Map<Handle, Term>| r == (#[trigger] self.term(terms)).is(k),
    {
        match k {
            Kind::Identity => match self {
                Node::Identity => true,
                _ => false,
            },
            Kind::Constant => match self {
                Node::Constant(_) => true,
                _ => false,
            },
            Kind::Variable => match self {
                Node::Variable(_) => true,
                _ => false,
            },
            Kind::Comment => match self {
                Node::Comment(_) => true,
                _ => false,
            },
            Kind::Quote => match self {
                Node::Quote(_) => true,
                _ => false,
            },
            Kind::Sequence => match self {
                Node::Sequence(_, _) => true,
                _ => false,
            },
            Kind::Prompt => match self {
                Node::Constant(Constant::Shift) => true,
                Node::Constant(Constant::Reset) => true,
                _ => false,
            },
            Kind::Bang => match self {
                Node::Constant(Constant::Bang) => true,
                _ => false,
            },
        }
    }
}

/// One entry of the environment.
struct Binding {
    name: Rc<str>,
    value: Handle,
}

/// What a store remembers of itself so that it can give up what it gains
/// afterward.
pub struct Snapshot {
    span: usize,
    free: Vec<usize>,
}

/// A term store with its environment.
///
/// Place 0 holds the empty program for as long as the store lives. A place
/// that a collection has emptied is used again by a later term.
pub struct Store {
    places: Vec<Option<Node>>,
    free: Vec<usize>,
    limit: usize,
    quota: usize,
    env: Vec<Binding>,
    heap: Ghost<Heap<Handle>>,
}

impl Store {
    spec fn place_ok(&self, i: int) -> bool {
        let h = Handle { place: i as usize };
        match self.places@[i] {
            None => !self.heap@.has(h),
            Some(n) => {
                &&& self.heap@.has(h)
                &&& self.heap@.terms[h] == n.term(self.heap@.terms)
                &&& self.heap@.parts[h] == n.parts()
            },
        }
    }

    spec fn free_ok(&self) -> bool {
        &&& forall|j: int|
            0 <= j < self.free@.len() ==> (#[trigger] self.free@[j]) < self.places@.len()
                && self.places@[self.free@[j] as int] is None
        &&& forall|j: int, k: int|
            0 <= j < k < self.free@.len() ==> #[trigger] self.free@[j] != #[trigger] self.free@[k]
        &&& forall|i: int|
            0 <= i < self.places@.len() && (#[trigger] self.places@[i]) is None ==> self.listed(i)
    }

    /// Place `i` stands in the list of the places that are free.
    spec fn listed(&self, i: int) -> bool {
        exists|j: int| 0 <= j < self.free@.len() && #[trigger] self.free@[j] == i
    }

    spec fn env_ok(&self) -> bool {
        &&& forall|j: int|
            0 <= j < self.env@.len() ==> self.heap@.bindings.contains_key(
                (#[trigger] self.env@[j]).name@,
            ) && self.heap@.bindings[self.env@[j].name@] == self.env@[j].value
        &&& forall|j: int, k: int|
            0 <= j < k < self.env@.len() ==> (#[trigger] self.env@[j]).name@ != (
            #[trigger] self.env@[k]).name@
        &&& forall|k: Seq<char>| #[trigger]
            self.heap@.bindings.contains_key(k) ==> exists|j: int|
                0 <= j < self.env@.len() && (#[trigger] self.env@[j]).name@ == k
    }

    /// The terms stay in order while they and their model stay as they are.
    proof fn heap_kept(&self, pre: &Store)
        requires
            pre.inv(),
            self.places@ == pre.places@,
            self.free@ == pre.free@,
            self.heap@.terms == pre.heap@.terms,
            self.heap@.parts == pre.heap@.parts,
        ensures
            self.free_ok(),
            forall|i: int| 0 <= i < self.places@.len() ==> #[trigger] self.place_ok(i),
            forall|o: Handle| #[trigger] self.heap@.terms.contains_key(o) ==> self.heap@.linked(o),
    {
        assert forall|i: int| 0 <= i < self.places@.len() implies #[trigger] self.place_ok(i) by {
            assert(pre.place_ok(i));
        }
        assert forall|o: Handle| #[trigger] self.heap@.terms.contains_key(o) implies self.heap@.linked(
            o,
        ) by {
            assert(pre.heap@.linked(o));
        }
        assert forall|i: int|
            0 <= i < self.places@.len() && (#[trigger] self.places@[i]) is None implies self.listed(
            i,
        ) by {
            assert(pre.listed(i));
            let j = choose|j: int| 0 <= j < pre.free@.len() && #[trigger] pre.free@[j] == i;
            assert(self.free@[j] == i);
        }
    }

    /// The environment stays in order while it and its model stay as they are.
    proof fn env_kept(&self, pre: &Store)
        requires
            pre.env_ok(),
            self.env@ == pre.env@,
            self.heap@.bindings == pre.heap@.bindings,
        ensures
            self.env_ok(),
    {
        assert(forall|j: int|
            0 <= j < self.env@.len() ==> self.heap@.bindings.contains_key(
                (#[trigger] self.env@[j]).name@,
            ) && self.heap@.bindings[self.env@[j].name@] == self.env@[j].value);
        assert(forall|j: int, k: int|
            0 <= j < k < self.env@.len() ==> (#[trigger] self.env@[j]).name@ != (
            #[trigger] self.env@[k]).name@);
        assert(forall|k: Seq<char>| #[trigger]
            self.heap@.bindings.contains_key(k) ==> exists|j: int|
                0 <= j < self.env@.len() && (#[trigger] self.env@[j]).name@ == k);
    }

    /// A store that can hold `capacity` terms, the empty program among
    /// them, and spends at most `quota` rule applications on an evaluation.
    pub fn new(capacity: usize, quota: usize) -> (r: Result<Store, Error>)
        ensures
            capacity == 0 ==> r is Err && r->Err_0 == Error::Space,
            capacity > 0 ==> (r matches Ok(s) && s.inv() && s@ == (Heap {
                terms: Map::empty().insert(s@.unit, Term::Identity),
                parts: Map::empty().insert(s@.unit, Seq::empty()),
                bindings: Map::empty(),
                unit: s@.unit,
                capacity: capacity as nat,
                quota: quota as nat,
            })),
    {
        if capacity == 0 {
            return Err(Error::Space);
        }
        let unit = Handle { place: 0 };
        let mut places: Vec<Option<Node>> = Vec::new();
        places.push(Some(Node::Identity));
        let ghost heap = Heap {
            terms: Map::<Handle, Term>::empty().insert(unit, Term::Identity),
            parts: Map::<Handle, Seq<Handle>>::empty().insert(unit, Seq::empty()),
            bindings: Map::<Seq<char>, Handle>::empty(),
            unit,
            capacity: capacity as nat,
            quota: quota as nat,
        };
        let s = Store {
            places,
            free: Vec::new(),
            limit: capacity,
            quota,
            env: Vec::new(),
            heap: Ghost(heap),
        };
        proof {
            assert(heap.terms.dom() =~= Set::<Handle>::empty().insert(unit));
            assert(heap.parts.dom() =~= heap.terms.dom());
            assert(s.place_ok(0));
        }
        Ok(s)
    }

    /// How many more terms the store can take.
    pub fn room(&self) -> (r: usize)
        requires
            self.inv(),
        ensures
            r == self@.room(),
    {
        self.limit - self.places.len() + self.free.len()
    }

    /// How many terms the store may hold at once.
    pub fn capacity(&self) -> (r: usize)
        requires
            self.inv(),
        ensures
            r == self@.capacity,
    {
        self.limit
    }

    /// How many rule applications one evaluation may spend.
    pub fn quota(&self) -> (r: usize)
        requires
            self.inv(),
        ensures
            r == self@.quota,
    {
        self.quota
    }

    /// Sets the effort quota of the evaluations to come.
    pub fn set_quota(&mut self, quota: usize)
        requires
            old(self).inv(),
        ensures
            final(self).inv(),
            final(self)@ == (Heap { quota: quota as nat, ..old(self)@ }),
    {
        self.quota = quota;
        proof {
            self.heap@ = Heap { quota: quota as nat, ..self.heap@ };
            self.heap_kept(old(self));
            self.env_kept(old(self));
        }
    }

    /// The node that a handle names, if the store holds the handle.
    pub(crate) fn look(&self, h: Handle) -> (r: Option<&Node>)
        requires
            self.inv(),
        ensures
            match r {
                None => !self@.has(h),
                Some(n) => {
                    &&& self@.has(h)
                    &&& self@.terms[h] == n.term(self@.terms)
                    &&& self@.parts[h] == n.parts()
                },
            },
    {
        if h.place >= self.places.len() {
            return None;
        }
        proof {
            assert(self.place_ok(h.place as int));
        }
        self.places[h.place].as_ref()
    }

    /// Whether the term of a handle has the given shape.
    fn shape(&self, obj: Handle, k: Kind) -> (r: Result<bool, Error>)
        requires
            self.inv(),
        ensures
            r == self@.probe(obj, k, false),
    {
        match self.look(obj) {
            None => Err(Error::Type),
            Some(n) => Ok(n.is(k)),
        }
    }

    /// Whether the term of a handle, or a term below it, has the given shape.
    fn search(&self, obj: Handle, k: Kind) -> (r: bool)
        requires
            self.inv(),
            self@.has(obj),
        ensures
            r == self@.terms[obj].has(k),
        decreases self@.terms[obj].size(),
    {
        proof {
            assert(self@.linked(obj));
        }
        match self.look(obj) {
            None => false,
            Some(n) => {
                if n.is(k) {
                    true
                } else {
                    match n {
                        Node::Quote(b) => {
                            proof {
                                assert(n.parts()[0] == *b);
                            }
                            self.search(*b, k)
                        },
                        Node::Sequence(a, b) => {
                            proof {
                                assert(n.parts()[0] == *a);
                                assert(n.parts()[1] == *b);
                            }
                            let x = self.search(*a, k);
                            let y = self.search(*b, k);
                            x || y
                        },
                        _ => false,
                    }
                }
            },
        }
    }

    /// As `search`, for any handle.
    fn scan(&self, obj: Handle, k: Kind) -> (r: Result<bool, Error>)
        requires
            self.inv(),
        ensures
            r == self@.probe(obj, k, true),
    {
        match self.look(obj) {
            None => Err(Error::Type),
            Some(_) => Ok(self.search(obj, k)),
        }
    }

    /// Where the environment holds a name.
    fn find(&self, name: &Rc<str>) -> (r: Option<usize>)
        requires
            self.inv(),
        ensures
            match r {
                Some(j) => j < self.env@.len() && self.env@[j as int].name@ == name@,
                None => !self@.bindings.contains_key(name@),
            },
    {
        let mut j: usize = 0;
        while j < self.env.len()
            invariant
                j <= self.env@.len(),
                forall|i: int| 0 <= i < j ==> (#[trigger] self.env@[i]).name@ != name@,
            decreases self.env@.len() - j,
        {
            if same_text(&self.env[j].name, name) {
                return Some(j);
            }
            j = j + 1;
        }
        proof {
            if self.heap@.bindings.contains_key(name@) {
                let i = choose|i: int|
                    0 <= i < self.env@.len() && (#[trigger] self.env@[i]).name@ == name@;
                assert(self.env@[i].name@ != name@);
            }
        }
        None
    }

    /// What the environment binds the variable of a handle to.
    pub(crate) fn bound(&self, obj: Handle) -> (r: Option<Handle>)
        requires
            self.inv(),
        ensures
            r == if self@.has(obj) && self@.terms[obj] is Variable {
                self@.lookup(self@.terms[obj]->Variable_0)
            } else {
                None
            },
    {
        match self.look(obj) {
            Some(Node::Variable(n)) => match self.find(n) {
                Some(j) => Some(self.env[j].value),
                None => None,
            },
            _ => None,
        }
    }

    /// The snapshot was taken of the store.
    pub closed spec fn remembers(&self, snap: &Snapshot) -> bool {
        snap.span == self.places@.len() && snap.free@ == self.free@
    }

    /// Remembers the store as it is.
    pub(crate) fn snapshot(&self) -> (snap: Snapshot)
        requires
            self.inv(),
        ensures
            self.remembers(&snap),
    {
        let mut free: Vec<usize> = Vec::new();
        let mut j: usize = 0;
        while j < self.free.len()
            invariant
                j <= self.free@.len(),
                free@ == self.free@.take(j as int),
            decreases self.free@.len() - j,
        {
            free.push(self.free[j]);
            proof {
                assert(self.free@.take(j + 1) =~= self.free@.take(j as int).push(self.free@[j as int]));
            }
            j = j + 1;
        }
        proof {
            assert(self.free@.take(self.free@.len() as int) =~= self.free@);
        }
        Snapshot { span: self.places.len(), free }
    }

    /// Gives up every term that the store has gained since the snapshot
    /// was taken. The environment is as it was then.
    pub(crate) fn restore(&mut self, snap: Snapshot, Ghost(pre): Ghost<Store>)
        requires
            old(self).inv(),
            pre.inv(),
            pre.remembers(&snap),
            pre@.extends_to(old(self)@),
        ensures
            final(self).inv(),
            final(self)@ == pre@,
    {
        let n: usize = snap.span;
        let ghost cur = self.heap@;
        let ghost was = pre.heap@;
        let ghost m = old(self).places@.len();
        self.places.truncate(n);
        while self.places.len() < n
            invariant
                self.places@.len() <= n,
                m <= self.places@.len() || n <= self.places@.len(),
                self.limit == old(self).limit,
                self.quota == old(self).quota,
                self.env@ == old(self).env@,
                self.free@ == old(self).free@,
                self.heap@ == cur,
                m == old(self).places@.len(),
                forall|i: int|
                    0 <= i < self.places@.len() ==> #[trigger] self.places@[i] == (if i < m {
                        old(self).places@[i]
                    } else {
                        None
                    }),
            decreases n - self.places@.len(),
        {
            self.places.push(None);
        }
        let mut j: usize = 0;
        while j < snap.free.len()
            invariant
                j <= snap.free@.len(),
                snap.free@ == pre.free@,
                pre.free_ok(),
                n == pre.places@.len(),
                self.places@.len() == n,
                self.limit == old(self).limit,
                self.quota == old(self).quota,
                self.env@ == old(self).env@,
                self.heap@ == cur,
                m == old(self).places@.len(),
                forall|i: int|
                    0 <= i < n ==> #[trigger] self.places@[i] == (if (exists|k: int|
                        0 <= k < j && #[trigger] snap.free@[k] == i) || i >= m {
                        None
                    } else {
                        old(self).places@[i]
                    }),
            decreases snap.free@.len() - j,
        {
            let i: usize = snap.free[j];
            let ghost before = self.places@;
            self.places.set(i, None);
            proof {
                assert forall|x: int| 0 <= x < n implies #[trigger] self.places@[x] == (if (exists|
                    k: int,
                |
                    0 <= k < j + 1 && #[trigger] snap.free@[k] == x) || x >= m {
                    None
                } else {
                    old(self).places@[x]
                }) by {
                    if x == i {
                        assert(snap.free@[j as int] == x);
                    } else if exists|k: int| 0 <= k < j && #[trigger] snap.free@[k] == x {
                        let k = choose|k: int| 0 <= k < j && #[trigger] snap.free@[k] == x;
                        assert(snap.free@[k] == x);
                    } else {
                        assert(self.places@[x] == before[x]);
                    }
                }
            }
            j = j + 1;
        }
        self.free = snap.free;
        proof {
            self.heap@ = was;
            assert forall|i: int| 0 <= i < self.places@.len() implies #[trigger] self.place_ok(
                i,
            ) by {
                let h = Handle { place: i as usize };
                assert(pre.place_ok(i));
                if pre.places@[i] is None {
                    assert(pre.listed(i));
                    let k = choose|k: int| 0 <= k < pre.free@.len() && #[trigger] pre.free@[k] == i;
                    assert(snap.free@[k] == i);
                } else {
                    assert(was.terms.dom().contains(h));
                    assert(cur.terms.contains_key(h));
                    assert(old(self).heap@.terms.contains_key(h));
                    assert(i < m);
                    assert(old(self).place_ok(i));
                    assert(was.linked(h));
                    if exists|k: int| 0 <= k < pre.free@.len() && #[trigger] snap.free@[k] == i {
                        let k = choose|k: int|
                            0 <= k < pre.free@.len() && #[trigger] snap.free@[k] == i;
                        assert(pre.places@[pre.free@[k] as int] is None);
                    }
                    let node = self.places@[i]->Some_0;
                    assert(was.parts.dom().contains(h));
                    assert(cur.parts.contains_key(h));
                    assert(node.parts() == was.parts[h]);
                    match node {
                        Node::Quote(b) => {
                            assert(node.parts()[0] == b);
                            was.lemma_kept(cur, b);
                        },
                        Node::Sequence(a, b) => {
                            assert(node.parts()[0] == a);
                            assert(node.parts()[1] == b);
                            was.lemma_kept(cur, a);
                            was.lemma_kept(cur, b);
                        },
                        _ => {},
                    }
                    assert(node.term(was.terms) == node.term(cur.terms));
                }
            }
            assert forall|i: int|
                0 <= i < self.places@.len() && (#[trigger] self.places@[i]) is None implies self.listed(
                i,
            ) by {
                if exists|k: int| 0 <= k < snap.free@.len() && #[trigger] snap.free@[k] == i {
                    let k = choose|k: int|
                        0 <= k < snap.free@.len() && #[trigger] snap.free@[k] == i;
                    assert(self.free@[k] == i);
                } else {
                    assert(pre.place_ok(i));
                    if pre.places@[i] is None {
                        assert(pre.listed(i));
                        let k = choose|k: int|
                            0 <= k < pre.free@.len() && #[trigger] pre.free@[k] == i;
                        assert(snap.free@[k] == i);
                    } else {
                        let h = Handle { place: i as usize };
                        assert(was.terms.dom().contains(h));
                        assert(cur.terms.contains_key(h));
                        assert(old(self).heap@.terms.contains_key(h));
                        assert(i < m);
                        assert(old(self).place_ok(i));
                    }
                }
            }
            assert(self.free_ok());
            self.env_kept(old(self));
        }
    }

    /// The number of places, taken or not.
    pub closed spec fn span(&self) -> nat {
        self.places@.len()
    }

    /// The number of places; every handle of the store lies below it.
    pub(crate) fn extent(&self) -> (r: usize)
        requires
            self.inv(),
        ensures
            r == self.span(),
            forall|h: Handle| #[trigger] self@.terms.contains_key(h) ==> h.place < r,
    {
        self.places.len()
    }

    /// The handles that the environment binds.
    pub(crate) fn bound_values(&self) -> (r: Vec<Handle>)
        requires
            self.inv(),
        ensures
            forall|h: Handle|
                r@.contains(h) <==> (exists|k: Seq<char>| #[trigger]
                    self@.bindings.contains_key(k) && self@.bindings[k] == h),
    {
        let mut r: Vec<Handle> = Vec::new();
        let mut j: usize = 0;
        while j < self.env.len()
            invariant
                j <= self.env@.len(),
                r@.len() == j,
                forall|i: int| 0 <= i < j ==> #[trigger] r@[i] == self.env@[i].value,
            decreases self.env@.len() - j,
        {
            r.push(self.env[j].value);
            j = j + 1;
        }
        proof {
            assert forall|h: Handle| r@.contains(h) implies (exists|k: Seq<char>| #[trigger]
                self@.bindings.contains_key(k) && self@.bindings[k] == h) by {
                let i = choose|i: int| 0 <= i < r@.len() && r@[i] == h;
                let k = self.env@[i].name@;
                assert(self@.bindings.contains_key(k) && self@.bindings[k] == h);
            }
            assert forall|h: Handle|
                (exists|k: Seq<char>| #[trigger]
                    self@.bindings.contains_key(k) && self@.bindings[k] == h) implies r@.contains(
                h,
            ) by {
                let k = choose|k: Seq<char>| #[trigger]
                    self@.bindings.contains_key(k) && self@.bindings[k] == h;
                let i = choose|i: int| 0 <= i < self.env@.len() && (#[trigger] self.env@[i]).name@ == k;
                assert(r@[i] == h);
            }
        }
        r
    }

    /// Empties every place that is not marked. The marks say which handles
    /// can be reached.
    pub(crate) fn sweep(&mut self, marks: &Vec<bool>, Ghost(roots): Ghost<Seq<Handle>>)
        requires
            old(self).inv(),
            old(self)@.has_all(roots),
            marks@.len() == old(self).span(),
            forall|i: int|
                0 <= i < marks@.len() ==> #[trigger] marks@[i] == old(self)@.live(
                    roots,
                    Handle { place: i as usize },
                ),
        ensures
            final(self).inv(),
            final(self)@ == old(self)@.retain(roots),
    {
        let ghost pre = self.heap@;
        let ghost post = pre.retain(roots);
        let n: usize = self.places.len();
        self.free = Vec::new();
        let ghost mut kept: Set<Handle> = Set::empty();
        let mut i: usize = 0;
        while i < n
            invariant
                i <= n,
                n == self.places@.len(),
                n == old(self).places@.len(),
                n == marks@.len(),
                self.limit == old(self).limit,
                self.quota == old(self).quota,
                self.env@ == old(self).env@,
                self.heap@ == pre,
                forall|j: int|
                    0 <= j < n ==> #[trigger] self.places@[j] == (if j < i && !marks@[j] {
                        None
                    } else {
                        old(self).places@[j]
                    }),
                forall|k: int|
                    0 <= k < self.free@.len() ==> (#[trigger] self.free@[k]) < i
                        && !marks@[self.free@[k] as int],
                forall|k1: int, k2: int|
                    0 <= k1 < k2 < self.free@.len() ==> #[trigger] self.free@[k1]
                        < #[trigger] self.free@[k2],
                forall|j: int|
                    0 <= j < i && !marks@[j] ==> exists|k: int|
                        0 <= k < self.free@.len() && #[trigger] self.free@[k] == j,
                kept.finite(),
                kept.len() + self.free@.len() == i,
                forall|h: Handle| kept.contains(h) <==> (h.place < i && marks@[h.place as int]),
            decreases n - i,
        {
            if !marks[i] {
                let ghost had = self.free@;
                self.places.set(i, None);
                self.free.push(i);
                proof {
                    assert(self.free@[had.len() as int] == i);
                    assert forall|j: int| 0 <= j < i + 1 && !marks@[j] implies exists|k: int|
                        0 <= k < self.free@.len() && #[trigger] self.free@[k] == j by {
                        if j < i {
                            let k = choose|k: int| 0 <= k < had.len() && #[trigger] had[k] == j;
                            assert(self.free@[k] == j);
                        }
                    }
                }
            } else {
                proof {
                    kept = kept.insert(Handle { place: i });
                }
            }
            i = i + 1;
        }
        proof {
            self.heap@ = post;
            assert forall|o: Handle| post.terms.contains_key(o) <==> kept.contains(o) by {
                if post.terms.contains_key(o) {
                    assert(pre.terms.contains_key(o));
                    assert(marks@[o.place as int] == pre.live(roots, Handle { place: o.place }));
                }
                if kept.contains(o) {
                    assert(marks@[o.place as int] == pre.live(roots, Handle { place: o.place }));
                    pre.lemma_live_in(roots, o);
                }
            }
            assert(post.terms.dom() =~= kept);
            assert(post.parts.dom() =~= post.terms.dom());
            pre.lemma_live_anchor(roots, pre.unit);
            assert forall|o: Handle| #[trigger] post.terms.contains_key(o) implies post.linked(
                o,
            ) by {
                assert(pre.linked(o));
                if pre.parts[o].len() > 0 {
                    pre.lemma_live_part(roots, o, 0);
                    pre.lemma_parts(o, 0);
                }
                if pre.parts[o].len() > 1 {
                    pre.lemma_live_part(roots, o, 1);
                    pre.lemma_parts(o, 1);
                }
            }
            assert forall|k: Seq<char>| #[trigger]
                post.bindings.contains_key(k) implies post.terms.contains_key(post.bindings[k]) by {
                pre.lemma_live_anchor(roots, pre.bindings[k]);
            }
            assert(post.wf());
            assert forall|j: int| 0 <= j < self.places@.len() implies #[trigger] self.place_ok(
                j,
            ) by {
                let h = Handle { place: j as usize };
                assert(old(self).place_ok(j));
                assert(marks@[j] == pre.live(roots, h));
                if marks@[j] {
                    pre.lemma_live_in(roots, h);
                    assert(pre.linked(h));
                    let node = self.places@[j]->Some_0;
                    assert(node.parts() == pre.parts[h]);
                    match node {
                        Node::Quote(b) => {
                            assert(node.parts()[0] == b);
                            pre.lemma_live_part(roots, h, 0);
                        },
                        Node::Sequence(a, b) => {
                            assert(node.parts()[0] == a);
                            assert(node.parts()[1] == b);
                            pre.lemma_live_part(roots, h, 0);
                            pre.lemma_live_part(roots, h, 1);
                        },
                        _ => {},
                    }
                    assert(node.term(post.terms) == node.term(pre.terms));
                }
            }
            assert forall|j: int|
                0 <= j < self.places@.len() && (#[trigger] self.places@[j]) is None implies self.listed(
                j,
            ) by {
                if marks@[j] {
                    let h = Handle { place: j as usize };
                    assert(marks@[j] == pre.live(roots, h));
                    pre.lemma_live_in(roots, h);
                    assert(old(self).place_ok(j));
                } else {
                    let k = choose|k: int| 0 <= k < self.free@.len() && #[trigger] self.free@[k] == j;
                    assert(self.free@[k] == j);
                }
            }
            assert(self.free_ok());
            self.env_kept(old(self));
        }
    }

    /// Names a new term by a fresh handle, where there is room.
    pub(crate) fn enter(&mut self, node: Node) -> (r: Result<Handle, Error>)
        requires
            old(self).inv(),
            old(self)@.has_all(node.parts()),
        ensures
            final(self).inv(),
            old(self)@.made(final(self)@, r, node.term(old(self)@.terms), node.parts()),
            old(self)@.extends_to(final(self)@),
            r is Ok ==> final(self)@.room() + 1 == old(self)@.room(),
    {
        let ghost pre = self.heap@;
        let ghost t = node.term(pre.terms);
        let ghost ps = node.parts();
        let h: Handle;
        if self.free.len() > 0 {
            let i: usize = self.free.pop().unwrap();
            h = Handle { place: i };
            proof {
                assert(old(self).free@[old(self).free@.len() - 1] == i);
                assert(old(self).place_ok(i as int));
            }
            self.places.set(i, Some(node));
        } else if self.places.len() < self.limit {
            let i: usize = self.places.len();
            h = Handle { place: i };
            self.places.push(Some(node));
        } else {
            return Err(Error::Space);
        }
        proof {
            assert(!pre.has(h));
            self.heap@ = pre.grow(h, t, ps);
            let post = self.heap@;
            assert(post.terms.dom() =~= pre.terms.dom().insert(h));
            assert(post.parts.dom() =~= post.terms.dom());
            assert forall|o: Handle| #[trigger] post.terms.contains_key(o) implies post.linked(o) by {
                if o == h {
                    assert(forall|i: int| 0 <= i < ps.len() ==> pre.has(#[trigger] ps[i]));
                    match node {
                        Node::Quote(b) => {
                            assert(ps[0] == b);
                        },
                        Node::Sequence(a, b) => {
                            assert(ps[0] == a);
                            assert(ps[1] == b);
                        },
                        _ => {},
                    }
                } else {
                    assert(pre.linked(o));
                }
            }
            assert forall|i: int| 0 <= i < self.places@.len() implies #[trigger] self.place_ok(
                i,
            ) by {
                let o = Handle { place: i as usize };
                if i != h.place {
                    assert(old(self).place_ok(i));
                    if pre.terms.contains_key(o) {
                        assert(pre.linked(o));
                        let n = self.places@[i]->Some_0;
                        assert(n.parts() == pre.parts[o]);
                        match n {
                            Node::Quote(b) => {
                                assert(n.parts()[0] == b);
                            },
                            Node::Sequence(a, b) => {
                                assert(n.parts()[0] == a);
                                assert(n.parts()[1] == b);
                            },
                            _ => {},
                        }
                        assert(n.term(post.terms) == n.term(pre.terms));
                    }
                } else {
                    assert(o == h);
                    match node {
                        Node::Quote(b) => {
                            assert(ps[0] == b);
                        },
                        Node::Sequence(a, b) => {
                            assert(ps[0] == a);
                            assert(ps[1] == b);
                        },
                        _ => {},
                    }
                    assert(node.term(post.terms) == node.term(pre.terms));
                }
            }
            assert forall|i: int|
                0 <= i < self.places@.len() && (#[trigger] self.places@[i]) is None implies self.listed(
                i,
            ) by {
                assert(old(self).places@[i] is None);
                assert(old(self).listed(i));
                let j = choose|j: int|
                    0 <= j < old(self).free@.len() && #[trigger] old(self).free@[j] == i;
                assert(self.free@[j] == i);
            }
            assert(self.free_ok());
            self.env_kept(old(self));
        }
        Ok(h)
    }
}

impl Container for Store {
    type Object = Handle;

    closed spec fn inv(&self) -> bool {
        &&& self.heap@.wf()
        &&& self.heap@.capacity == self.limit
        &&& self.heap@.quota == self.quota
        &&& self.heap@.unit == Handle { place: 0 }
        &&& self.places@.len() <= self.limit
        &&& forall|i: int| 0 <= i < self.places@.len() ==> #[trigger] self.place_ok(i)
        &&& forall|h: Handle| #[trigger]
            self.heap@.terms.contains_key(h) ==> h.place < self.places@.len()
        &&& self.free_ok()
        &&& self.heap@.terms.dom().len() + self.free@.len() == self.places@.len()
        &&& self.env_ok()
    }

    closed spec fn view(&self) -> Heap<Handle> {
        self.heap@
    }

    proof fn consistent(&self) {
    }

    fn normalize(&mut self, obj: Handle) -> (r: Result<Handle, Error>) {
        let ghost pre = self@;
        let ghost was = *self;
        proof {
            crate::heap::lemma_extends_twice(pre, pre, pre);
        }
        let mut m = match self.load(obj) {
            Ok(m) => m,
            Err(e) => {
                return Err(e);
            },
        };
        let snap = self.snapshot();
        match self.advance(&mut m, false) {
            Err(e) => {
                self.restore(snap, Ghost(was));
                return Err(e);
            },
            Ok(()) => {},
        }
        let ghost mid = self@;
        match self.conclude(m) {
            Ok(o) => {
                proof {
                    crate::heap::lemma_extends_twice(pre, mid, self@);
                }
                Ok(o)
            },
            Err(e) => {
                proof {
                    crate::heap::lemma_extends_twice(pre, mid, self@);
                }
                self.restore(snap, Ghost(was));
                Err(e)
            },
        }
    }

    fn complete(&mut self, obj: Handle) -> (r: Result<Handle, Error>) {
        if self.look(obj).is_none() {
            proof {
                crate::heap::lemma_extends_twice(self@, self@, self@);
            }
            return Err(Error::Type);
        }
        let ghost was = *self;
        let snap = self.snapshot();
        match self.fill(obj) {
            Ok((o, _)) => Ok(o),
            Err(e) => {
                self.restore(snap, Ghost(was));
                proof {
                    crate::heap::lemma_extends_twice(self@, self@, self@);
                }
                Err(e)
            },
        }
    }

    fn read(&mut self, src: &str) -> (r: Result<Handle, Error>) {
        let ghost pre = self@;
        proof {
            crate::heap::lemma_extends_twice(pre, pre, pre);
        }
        let ts = match tokens(src) {
            Ok(ts) => ts,
            Err(e) => {
                return Err(e);
            },
        };
        if closes(&ts, 0, false).is_none() {
            return Err(Error::Syntax);
        }
        proof {
            let steps = nest(lexemes(ts@), 0, false)->Some_0.0;
            lemma_nodes_assemble(steps);
        }
        let ghost was = *self;
        let snap = self.snapshot();
        let (hs, _) = match self.plant(&ts, 0, false) {
            Ok(x) => x,
            Err(e) => {
                self.restore(snap, Ghost(was));
                return Err(e);
            },
        };
        let ghost mid = self@;
        match self.join(&hs) {
            Ok(o) => {
                proof {
                    crate::heap::lemma_extends_twice(pre, mid, self@);
                }
                Ok(o)
            },
            Err(e) => {
                proof {
                    crate::heap::lemma_extends_twice(pre, mid, self@);
                }
                self.restore(snap, Ghost(was));
                Err(e)
            },
        }
    }

    fn show(&self, obj: Handle) -> (r: Result<String, Error>) {
        if self.look(obj).is_none() {
            return Err(Error::Type);
        }
        let mut out = String::new();
        if self.write(obj, &mut out) {
            proof {
                assert(Seq::<char>::empty() + crate::syntax::print(self@.terms[obj])
                    =~= crate::syntax::print(self@.terms[obj]));
            }
            Ok(out)
        } else {
            Err(Error::Type)
        }
    }

    fn collect(&mut self, xs: Vec<Handle>) -> (r: Result<(), Error>) {
        self.reclaim(&xs)
    }

    fn new_identity(&self) -> (r: Result<Handle, Error>) {
        Ok(Handle { place: 0 })
    }

    fn new_constant(&mut self, name: Constant) -> (r: Result<Handle, Error>) {
        self.enter(Node::Constant(name))
    }

    fn new_variable(&mut self, name: Variable) -> (r: Result<Handle, Error>) {
        self.enter(Node::Variable(name.0))
    }

    fn new_comment(&mut self, body: Rc<str>) -> (r: Result<Handle, Error>) {
        self.enter(Node::Comment(body))
    }

    fn new_quote(&mut self, body: Handle) -> (r: Result<Handle, Error>) {
        if self.look(body).is_none() {
            proof {
                assert(seq![body][0] == body);
            }
            return Err(Error::Type);
        }
        self.enter(Node::Quote(body))
    }

    fn new_sequence(&mut self, fst: Handle, snd: Handle) -> (r: Result<Handle, Error>) {
        if self.look(fst).is_none() || self.look(snd).is_none() {
            proof {
                assert(seq![fst, snd][0] == fst);
                assert(seq![fst, snd][1] == snd);
            }
            return Err(Error::Type);
        }
        self.enter(Node::Sequence(fst, snd))
    }

    fn is_identity(&self, obj: Handle) -> (r: Result<bool, Error>) {
        self.shape(obj, Kind::Identity)
    }

    fn is_constant(&self, obj: Handle) -> (r: Result<bool, Error>) {
        self.shape(obj, Kind::Constant)
    }

    fn is_variable(&self, obj: Handle) -> (r: Result<bool, Error>) {
        self.shape(obj, Kind::Variable)
    }

    fn is_comment(&self, obj: Handle) -> (r: Result<bool, Error>) {
        self.shape(obj, Kind::Comment)
    }

    fn is_quote(&self, obj: Handle) -> (r: Result<bool, Error>) {
        self.shape(obj, Kind::Quote)
    }

    fn is_sequence(&self, obj: Handle) -> (r: Result<bool, Error>) {
        self.shape(obj, Kind::Sequence)
    }

    fn is_prompt(&self, obj: Handle) -> (r: Result<bool, Error>) {
        self.shape(obj, Kind::Prompt)
    }

    fn is_bang(&self, obj: Handle) -> (r: Result<bool, Error>) {
        self.shape(obj, Kind::Bang)
    }

    fn has_constant(&self, obj: Handle) -> (r: Result<bool, Error>) {
        self.scan(obj, Kind::Constant)
    }

    fn has_variable(&self, obj: Handle) -> (r: Result<bool, Error>) {
        self.scan(obj, Kind::Variable)
    }

    fn has_comment(&self, obj: Handle) -> (r: Result<bool, Error>) {
        self.scan(obj, Kind::Comment)
    }

    fn has_quote(&self, obj: Handle) -> (r: Result<bool, Error>) {
        self.scan(obj, Kind::Quote)
    }

    fn has_prompt(&self, obj: Handle) -> (r: Result<bool, Error>) {
        self.scan(obj, Kind::Prompt)
    }

    fn has_bang(&self, obj: Handle) -> (r: Result<bool, Error>) {
        self.scan(obj, Kind::Bang)
    }

    fn get_constant_name(&self, obj: Handle) -> (r: Result<Constant, Error>) {
        match self.look(obj) {
            Some(Node::Constant(c)) => Ok(*c),
            _ => Err(Error::Type),
        }
    }

    fn get_variable_name(&self, obj: Handle) -> (r: Result<Variable, Error>) {
        match self.look(obj) {
            Some(Node::Variable(n)) => Ok(Variable(share_text(n))),
            _ => Err(Error::Type),
        }
    }

    fn get_comment_body(&self, obj: Handle) -> (r: Result<Rc<str>, Error>) {
        match self.look(obj) {
            Some(Node::Comment(b)) => Ok(share_text(b)),
            _ => Err(Error::Type),
        }
    }

    fn get_quote_body(&self, obj: Handle) -> (r: Result<Handle, Error>) {
        match self.look(obj) {
            Some(Node::Quote(b)) => {
                proof {
                    assert(seq![*b][0] == *b);
                }
                Ok(*b)
            },
            _ => Err(Error::Type),
        }
    }

    fn get_sequence_fst(&self, obj: Handle) -> (r: Result<Handle, Error>) {
        match self.look(obj) {
            Some(Node::Sequence(a, b)) => {
                proof {
                    assert(seq![*a, *b][0] == *a);
                }
                Ok(*a)
            },
            _ => Err(Error::Type),
        }
    }

    fn get_sequence_snd(&self, obj: Handle) -> (r: Result<Handle, Error>) {
        match self.look(obj) {
            Some(Node::Sequence(a, b)) => {
                proof {
                    assert(seq![*a, *b][1] == *b);
                }
                Ok(*b)
            },
            _ => Err(Error::Type),
        }
    }

    fn get(&self, key: Variable) -> (r: Result<Option<Handle>, Error>) {
        match self.find(&key.0) {
            Some(j) => Ok(Some(self.env[j].value)),
            None => Ok(None),
        }
    }

    fn put(&mut self, key: Variable, value: Handle) -> (r: Result<Option<Handle>, Error>) {
        if self.look(value).is_none() {
            return Err(Error::Type);
        }
        let ghost pre = self.heap@;
        let ghost k = key.0@;
        let found = self.find(&key.0);
        let prev = match found {
            Some(j) => {
                let p = self.env[j].value;
                self.env.set(j, Binding { name: key.0, value });
                Some(p)
            },
            None => {
                self.env.push(Binding { name: key.0, value });
                None
            },
        };
        proof {
            self.heap@ = pre.bind(k, value);
            self.heap_kept(old(self));
            let post = self.heap@;
            assert forall|n: Seq<char>| #[trigger] post.bindings.contains_key(n) implies exists|
                j: int,
            |
                0 <= j < self.env@.len() && (#[trigger] self.env@[j]).name@ == n by {
                if n == k {
                    match found {
                        Some(j) => {
                            assert(self.env@[j as int].name@ == n);
                        },
                        None => {
                            assert(self.env@[self.env@.len() - 1].name@ == n);
                        },
                    }
                } else {
                    assert(pre.bindings.contains_key(n));
                    let j = choose|j: int|
                        0 <= j < old(self).env@.len() && (#[trigger] old(self).env@[j]).name@ == n;
                    assert(self.env@[j].name@ == n);
                }
            }
            assert forall|j: int| 0 <= j < self.env@.len() implies post.bindings.contains_key(
                (#[trigger] self.env@[j]).name@,
            ) && post.bindings[self.env@[j].name@] == self.env@[j].value by {
                if j < old(self).env@.len() {
                    assert(old(self).env@[j].name@ == self.env@[j].name@);
                }
            }
            assert forall|i: int, j: int| 0 <= i < j < self.env@.len() implies (
            #[trigger] self.env@[i]).name@ != (#[trigger] self.env@[j]).name@ by {
                if j < old(self).env@.len() {
                    assert(old(self).env@[i].name@ == self.env@[i].name@);
                    assert(old(self).env@[j].name@ == self.env@[j].name@);
                } else {
                    assert(old(self).env@[i].name@ == self.env@[i].name@);
                }
            }
        }
        Ok(prev)
    }

    fn delete(&mut self, key: Variable) -> (r: Result<Handle, Error>) {
        let ghost pre = self.heap@;
        let ghost k = key.0@;
        match self.find(&key.0) {
            None => Err(Error::Type),
            Some(j) => {
                let gone = self.env.remove(j);
                proof {
                    self.heap@ = pre.unbind(k);
                    self.heap_kept(old(self));
                    let post = self.heap@;
                    assert forall|n: Seq<char>| #[trigger]
                        post.bindings.contains_key(n) implies exists|i: int|
                        0 <= i < self.env@.len() && (#[trigger] self.env@[i]).name@ == n by {
                        assert(pre.bindings.contains_key(n));
                        let i = choose|i: int|
                            0 <= i < old(self).env@.len() && (#[trigger] old(self).env@[i]).name@
                                == n;
                        if i < j {
                            assert(self.env@[i].name@ == n);
                        } else {
                            assert(self.env@[i - 1].name@ == n);
                        }
                    }
                    assert forall|i: int|
                        0 <= i < self.env@.len() implies post.bindings.contains_key(
                        (#[trigger] self.env@[i]).name@,
                    ) && post.bindings[self.env@[i].name@] == self.env@[i].value by {
                        if i < j {
                            assert(old(self).env@[i] == self.env@[i]);
                        } else {
                            assert(old(self).env@[i + 1] == self.env@[i]);
                        }
                    }
                    assert forall|a: int, b: int| 0 <= a < b < self.env@.len() implies (
                    #[trigger] self.env@[a]).name@ != (#[trigger] self.env@[b]).name@ by {
                        let a0 = if a < j { a } else { a + 1 };
                        let b0 = if b < j { b } else { b + 1 };
                        assert(old(self).env@[a0] == self.env@[a]);
                        assert(old(self).env@[b0] == self.env@[b]);
                    }
                }
                Ok(gone.value)
            },
        }
    }
}

} // verus!
