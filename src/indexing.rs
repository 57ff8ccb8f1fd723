//! The call identity index: dense handles for call-site descriptors, handed
//! out in first-seen order.
use vstd::prelude::*;

use std::collections::HashMap;

use crate::parsing::Address;

verus! {

broadcast use vstd::std_specs::hash::group_hash_axioms;

/// Dense, zero-based handle of a call identity.
pub type CallId = usize;

/// The identity of a call site.
#[derive(Debug, Clone, Copy, PartialEq, Eq, Structural)]
pub enum CallDescriptor {
    /// The profiler's aggregate of call sites below its threshold.
    Root,
    /// A code address.
    Inner(Address),
    /// An allocation attributed to the allocator itself, with no address.
    Leaf,
}

/// Handles of call descriptors; the handle of a descriptor is its position
/// in the order in which descriptors were first seen.
pub struct CallIndex {
    inner: HashMap<Address, CallId>,
    root: Option<CallId>,
    leaf: Option<CallId>,
    descriptors: Vec<CallDescriptor>,
}

impl View for CallIndex {
    type V = Seq<CallDescriptor>;

    /// The descriptors, by handle.
    closed spec fn view(&self) -> Seq<CallDescriptor> {
        self.descriptors@
    }
}

/// What a call of `index` leaves: the handle of `d` and the index after it.
pub open spec fn index_post(before: Seq<CallDescriptor>, d: CallDescriptor, after: Seq<CallDescriptor>, r: CallId) -> bool {
    if before.contains(d) {
        &&& after == before
        &&& r < before.len()
        &&& before[r as int] == d
    } else {
        &&& after == before.push(d)
        &&& r == before.len()
    }
}

/// Two calls of `index` in a row, with descriptors `d` then `e`, hand out the
/// same handle when the descriptors are equal and distinct handles when they
/// are not; a descriptor seen for the first time gets the next handle in
/// order, starting from zero, and every handle names its own descriptor.
pub proof fn law_index_identity(
    before: Seq<CallDescriptor>,
    d: CallDescriptor,
    middle: Seq<CallDescriptor>,
    r1: CallId,
    e: CallDescriptor,
    after: Seq<CallDescriptor>,
    r2: CallId,
)
    requires
        before.no_duplicates(),
        index_post(before, d, middle, r1),
        index_post(middle, e, after, r2),
    ensures
        d == e <==> r1 == r2,
        !before.contains(d) ==> r1 == before.len(),
        !middle.contains(e) ==> r2 == middle.len(),
        middle[r1 as int] == d,
        after[r2 as int] == e,
        after[r1 as int] == d,
        d == e ==> after == middle,
{
    if !before.contains(d) {
        assert(middle[r1 as int] == d);
        assert forall|i: int, j: int| 0 <= i < j < middle.len() implies middle[i] != middle[j] by {
            if j == before.len() {
                assert(before.contains(middle[i]));
            }
        }
    }
    assert(middle.contains(d));
    assert(middle.no_duplicates());
    if !middle.contains(e) {
        assert(after[r1 as int] == middle[r1 as int]);
    }
}

/// The descriptors of `ds`, each once, in the order first seen.
pub open spec fn first_seen(ds: Seq<CallDescriptor>) -> Seq<CallDescriptor>
    decreases ds.len(),
{
    if ds.len() == 0 {
        Seq::empty()
    } else {
        let f = first_seen(ds.drop_last());
        if f.contains(ds.last()) {
            f
        } else {
            f.push(ds.last())
        }
    }
}

/// Indexing the descriptors `ds` one after the other from an empty index,
/// through the index views `views` and with the handles `hs`, leaves the
/// distinct descriptors in first-seen order, handles counted from zero, and
/// every handle names its own descriptor.
pub proof fn law_index_first_seen(ds: Seq<CallDescriptor>, views: Seq<Seq<CallDescriptor>>, hs: Seq<CallId>)
    requires
        views.len() == ds.len() + 1,
        hs.len() == ds.len(),
        views[0] == Seq::<CallDescriptor>::empty(),
        forall|i: int| 0 <= i < ds.len() ==> index_post(#[trigger] views[i], ds[i], views[i + 1], hs[i]),
    ensures
        views.last() == first_seen(ds),
        forall|i: int| 0 <= i < ds.len() ==> (#[trigger] hs[i]) < views.last().len() && views.last()[hs[i] as int] == ds[i],
    decreases ds.len(),
{
    if ds.len() > 0 {
        let n = ds.len() - 1;
        let ds0 = ds.drop_last();
        let v0 = views.drop_last();
        let h0 = hs.drop_last();
        assert forall|i: int| 0 <= i < ds0.len() implies index_post(#[trigger] v0[i], ds0[i], v0[i + 1], h0[i]) by {
            assert(v0[i] == views[i] && v0[i + 1] == views[i + 1]);
        }
        law_index_first_seen(ds0, v0, h0);
        assert(index_post(views[n], ds[n], views[n + 1], hs[n]));
        assert(ds.last() == ds[n]);
        assert forall|i: int| 0 <= i < ds.len() implies (#[trigger] hs[i]) < views.last().len() && views.last()[hs[i] as int] == ds[i] by {
            if i < n {
                assert(h0[i] == hs[i] && ds0[i] == ds[i]);
                assert(views[n] == v0.last());
            }
        }
    }
}

impl CallIndex {
    pub closed spec fn wf(&self) -> bool {
        &&& self.descriptors@.no_duplicates()
        &&& forall|a: Address|
            #![trigger self.inner@.contains_key(a)]
            self.inner@.contains_key(a) <==> self.descriptors@.contains(CallDescriptor::Inner(a))
        &&& forall|a: Address|
            #![trigger self.inner@[a]]
            self.inner@.contains_key(a) ==> self.inner@[a] < self.descriptors@.len()
                && self.descriptors@[self.inner@[a] as int] == CallDescriptor::Inner(a)
        &&& match self.root {
            Some(i) => i < self.descriptors@.len() && self.descriptors@[i as int]
                == CallDescriptor::Root,
            None => !self.descriptors@.contains(CallDescriptor::Root),
        }
        &&& match self.leaf {
            Some(i) => i < self.descriptors@.len() && self.descriptors@[i as int]
                == CallDescriptor::Leaf,
            None => !self.descriptors@.contains(CallDescriptor::Leaf),
        }
    }

    pub fn new() -> (r: CallIndex)
        ensures
            r.wf(),
            r@.no_duplicates(),
            r@ == Seq::<CallDescriptor>::empty(),
    {
        CallIndex { inner: HashMap::new(), root: None, leaf: None, descriptors: Vec::new() }
    }

    /// The handle of `d`: the one it already has, else the next one.
    pub fn index(&mut self, d: &CallDescriptor) -> (r: CallId)
        requires
            old(self).wf(),
            old(self)@.len() < usize::MAX,
        ensures
            final(self).wf(),
            final(self)@.no_duplicates(),
            index_post(old(self)@, *d, final(self)@, r),
    {
        let next = self.descriptors.len();
        match *d {
            CallDescriptor::Inner(a) => {
                match self.inner.get(&a) {
                    Some(i) => {
                        return *i;
                    },
                    None => {},
                }
                self.inner.insert(a, next);
            },
            CallDescriptor::Root => {
                match self.root {
                    Some(i) => {
                        return i;
                    },
                    None => {},
                }
                self.root = Some(next);
            },
            CallDescriptor::Leaf => {
                match self.leaf {
                    Some(i) => {
                        return i;
                    },
                    None => {},
                }
                self.leaf = Some(next);
            },
        }
        self.descriptors.push(*d);
        proof {
            assert forall|e: CallDescriptor| #[trigger] self.descriptors@.contains(e) implies e == *d
                || old(self).descriptors@.contains(e) by {
                let k = choose|k: int| 0 <= k < self.descriptors@.len() && self.descriptors@[k] == e;
                if k < old(self).descriptors@.len() {
                    assert(old(self).descriptors@[k] == e);
                }
            }
            assert forall|e: CallDescriptor| old(self).descriptors@.contains(e) implies #[trigger] self.descriptors@.contains(e) by {
                let k = choose|k: int| 0 <= k < old(self).descriptors@.len() && old(self).descriptors@[k] == e;
                assert(self.descriptors@[k] == e);
            }
            assert(self.descriptors@[next as int] == *d);
        }
        next
    }

    /// The handle of the leaf sentinel: allocations attributed with no
    /// further caller.
    pub fn index_leaf_sentinel(&mut self) -> (r: CallId)
        requires
            old(self).wf(),
            old(self)@.len() < usize::MAX,
        ensures
            final(self).wf(),
            index_post(old(self)@, CallDescriptor::Leaf, final(self)@, r),
    {
        self.index(&CallDescriptor::Leaf)
    }

    pub proof fn lemma_wf_no_duplicates(&self)
        requires
            self.wf(),
        ensures
            self@.no_duplicates(),
    {
    }

    /// The descriptor that has handle `id`.
    pub fn get(&self, id: CallId) -> (r: Option<CallDescriptor>)
        ensures
            r is Some <==> id < self@.len(),
            r is Some ==> r.unwrap() == self@[id as int],
    {
        if id < self.descriptors.len() {
            Some(self.descriptors[id])
        } else {
            None
        }
    }

    /// Number of distinct descriptors seen.
    pub fn len(&self) -> (r: usize)
        ensures
            r == self@.len(),
    {
        self.descriptors.len()
    }
}

} // verus!
