//! One-shot ingestion: a massif file decoded into its snapshots' caller
//! trees, the call identity index, and the call graph over all snapshots.
use vstd::prelude::*;

use crate::allocation::sat_add;
use crate::graph::CallGraph;
use crate::indexing::{CallDescriptor, CallId, CallIndex};
use crate::massif::{decodes, explains, parse_massif, reads_file, Attributes, Massif, ParseError, Snapshot};
use crate::stream::{snapshot_triples, triples_of, Triple};
use crate::tree::{bytes_at, is_forest, tree_grows, frames_after_call, last_with, open_in, CallerTree, CallerTreeBuilder, CycleDetected};

verus! {

/// The caller tree of one snapshot.
pub struct SnapshotTree {
    pub id: usize,
    pub attributes: Attributes,
    pub tree: CallerTree,
}

/// Everything read from a massif file.
pub struct Profile {
    pub header: Attributes,
    pub snapshots: Vec<SnapshotTree>,
    pub index: CallIndex,
    pub graph: CallGraph,
}

/// Why a file could not be read.
#[derive(Debug, Clone, Copy, PartialEq, Eq, Structural)]
pub enum ReadError {
    /// A line does not decode.
    Parse(ParseError),
    /// A snapshot's stream makes a call recur into its own open ancestry.
    Cycle(CycleDetected),
    /// More distinct calls than handles.
    TooManyCalls,
}

impl Profile {
    pub open spec fn wf(&self) -> bool {
        &&& self.index.wf()
        &&& self.graph.wf()
        &&& forall|i: int| 0 <= i < self.snapshots@.len() ==> (#[trigger] self.snapshots@[i]).tree.wf()
    }
}

/// The handle of `d` in an index whose descriptors, by handle, are `view`.
pub open spec fn handle_of(view: Seq<CallDescriptor>, d: CallDescriptor) -> CallId {
    view.index_of(d) as usize
}

/// Every call that `ts` names stands in `view`.
pub open spec fn names_indexed(view: Seq<CallDescriptor>, ts: Seq<Triple>) -> bool {
    forall|i: int|
        0 <= i < ts.len() ==> view.contains((#[trigger] ts[i]).caller) && (ts[i].callee is Some
            ==> view.contains(ts[i].callee.unwrap()))
}

/// The edge weights `w` once the triples `ts` are added, calls resolved
/// through `view`.
pub open spec fn weights_after(
    w: Map<(CallId, CallId), u64>,
    view: Seq<CallDescriptor>,
    ts: Seq<Triple>,
) -> Map<(CallId, CallId), u64>
    decreases ts.len(),
{
    if ts.len() == 0 {
        w
    } else {
        let w0 = weights_after(w, view, ts.drop_last());
        let t = ts.last();
        match t.callee {
            None => w0,
            Some(c) => {
                let k = (handle_of(view, t.caller), handle_of(view, c));
                w0.insert(
                    k,
                    sat_add(
                        if w0.dom().contains(k) {
                            w0[k]
                        } else {
                            0
                        },
                        t.allocation.bytes as int,
                    ),
                )
            },
        }
    }
}

/// The (caller, callee) pairs of handles of the triples `ts` that have a
/// callee.
pub open spec fn pairs_of(view: Seq<CallDescriptor>, ts: Seq<Triple>) -> Set<(CallId, CallId)> {
    Set::new(
        |p: (CallId, CallId)|
            exists|i: int|
                0 <= i < ts.len() && (#[trigger] ts[i]).callee is Some && p == (
                    handle_of(view, ts[i].caller),
                    handle_of(view, ts[i].callee.unwrap()),
                ),
    )
}

proof fn lemma_handle_is(v: Seq<CallDescriptor>, d: CallDescriptor, i: int)
    requires
        v.no_duplicates(),
        0 <= i < v.len(),
        i <= usize::MAX,
        v[i] == d,
    ensures
        handle_of(v, d) == i,
        v.contains(d),
{
    let j = v.index_of(d);
    assert(v[j] == d);
    assert(j == i);
}

/// Handles stay as the index grows.
proof fn lemma_handle_stable(v: Seq<CallDescriptor>, v2: Seq<CallDescriptor>, d: CallDescriptor)
    requires
        v2.no_duplicates(),
        v.len() <= v2.len(),
        v2.take(v.len() as int) == v,
        v.contains(d),
    ensures
        handle_of(v2, d) == handle_of(v, d),
        v2.contains(d),
{
    let i = v.index_of(d);
    assert(v2.take(v.len() as int)[i] == v2[i]);
    assert(v2[i] == d);
    let j = v2.index_of(d);
    assert(v2[j] == d);
}

proof fn lemma_weights_stable(w: Map<(CallId, CallId), u64>, v: Seq<CallDescriptor>, v2: Seq<CallDescriptor>, ts: Seq<Triple>)
    requires
        v2.no_duplicates(),
        v.len() <= v2.len(),
        v2.take(v.len() as int) == v,
        names_indexed(v, ts),
    ensures
        weights_after(w, v, ts) == weights_after(w, v2, ts),
        pairs_of(v, ts) == pairs_of(v2, ts),
    decreases ts.len(),
{
    if ts.len() > 0 {
        let t0 = ts.drop_last();
        assert forall|i: int| 0 <= i < t0.len() implies v.contains((#[trigger] t0[i]).caller) && (t0[i].callee is Some ==> v.contains(t0[i].callee.unwrap())) by {
            assert(t0[i] == ts[i]);
        }
        lemma_weights_stable(w, v, v2, t0);
        let t = ts.last();
        assert(t == ts[ts.len() - 1]);
        lemma_handle_stable(v, v2, t.caller);
        if let Some(c) = t.callee {
            lemma_handle_stable(v, v2, c);
        }
    }
    assert forall|p: (CallId, CallId)| pairs_of(v, ts).contains(p) <==> pairs_of(v2, ts).contains(p) by {
        if pairs_of(v, ts).contains(p) {
            let i = choose|i: int| 0 <= i < ts.len() && (#[trigger] ts[i]).callee is Some && p == (handle_of(v, ts[i].caller), handle_of(v, ts[i].callee.unwrap()));
            lemma_handle_stable(v, v2, ts[i].caller);
            lemma_handle_stable(v, v2, ts[i].callee.unwrap());
        }
        if pairs_of(v2, ts).contains(p) {
            let i = choose|i: int| 0 <= i < ts.len() && (#[trigger] ts[i]).callee is Some && p == (handle_of(v2, ts[i].caller), handle_of(v2, ts[i].callee.unwrap()));
            lemma_handle_stable(v, v2, ts[i].caller);
            lemma_handle_stable(v, v2, ts[i].callee.unwrap());
        }
    }
    assert(pairs_of(v, ts) =~= pairs_of(v2, ts));
}

/// The reconstruction stack, as (call, open) pairs, after the triples `ts`;
/// `None` once some triple's caller is still open, a cycle.
pub open spec fn replay(ts: Seq<Triple>) -> Option<Seq<(CallDescriptor, bool)>>
    decreases ts.len(),
{
    if ts.len() == 0 {
        Some(Seq::empty())
    } else {
        match replay(ts.drop_last()) {
            None => None,
            Some(st) => {
                let t = ts.last();
                match t.callee {
                    None => Some(seq![(t.caller, true)]),
                    Some(c) => if open_in(st, t.caller) {
                        None
                    } else {
                        Some(frames_after_call(st, t.caller, c))
                    },
                }
            },
        }
    }
}

/// Triple `i` of `ts` is the first to close a cycle.
pub open spec fn cycle_at(ts: Seq<Triple>, i: int) -> bool {
    &&& 0 <= i < ts.len()
    &&& replay(ts.take(i)) is Some
    &&& ts[i].callee is Some
    &&& open_in(replay(ts.take(i)).unwrap(), ts[i].caller)
}

/// A stack of descriptors as a stack of handles.
pub open spec fn handles(v: Seq<CallDescriptor>, st: Seq<(CallDescriptor, bool)>) -> Seq<(CallId, bool)> {
    st.map_values(|p: (CallDescriptor, bool)| (handle_of(v, p.0), p.1))
}

proof fn lemma_replay_stays_none(ts: Seq<Triple>, i: int, j: int)
    requires
        0 <= i <= j <= ts.len(),
        replay(ts.take(i)) is None,
    ensures
        replay(ts.take(j)) is None,
    decreases j - i,
{
    if j > i {
        lemma_replay_stays_none(ts, i, j - 1);
        assert(ts.take(j).drop_last() == ts.take(j - 1));
    }
}

proof fn lemma_handle_injective(v: Seq<CallDescriptor>, a: CallDescriptor, b: CallDescriptor)
    requires
        v.no_duplicates(),
        v.len() <= usize::MAX,
        v.contains(a),
        v.contains(b),
        handle_of(v, a) == handle_of(v, b),
    ensures
        a == b,
{
    let i = v.index_of(a);
    let j = v.index_of(b);
    assert(v[i] == a);
    assert(v[j] == b);
}

proof fn lemma_last_with_range<T>(st: Seq<(T, bool)>, id: T)
    ensures
        -1 <= last_with(st, id) < st.len(),
        last_with(st, id) >= 0 ==> st[last_with(st, id)].0 == id,
    decreases st.len(),
{
    if st.len() > 0 {
        lemma_last_with_range(st.drop_last(), id);
    }
}

/// Resolving handles commutes with a step of the reconstruction stack.
proof fn lemma_handles_step(v: Seq<CallDescriptor>, st: Seq<(CallDescriptor, bool)>, a: CallDescriptor, b: CallDescriptor)
    requires
        v.no_duplicates(),
        v.len() <= usize::MAX,
        v.contains(a),
        v.contains(b),
        forall|j: int| 0 <= j < st.len() ==> v.contains((#[trigger] st[j]).0),
    ensures
        open_in(handles(v, st), handle_of(v, a)) == open_in(st, a),
        last_with(handles(v, st), handle_of(v, b)) == last_with(st, b),
        frames_after_call(handles(v, st), handle_of(v, a), handle_of(v, b)) == handles(
            v,
            frames_after_call(st, a, b),
        ),
    decreases st.len(),
{
    let hs = handles(v, st);
    if open_in(hs, handle_of(v, a)) {
        let k = choose|k: int| 0 <= k < hs.len() && #[trigger] hs[k].1 && hs[k].0 == handle_of(v, a);
        lemma_handle_injective(v, st[k].0, a);
        assert(st[k].1);
    }
    if open_in(st, a) {
        let k = choose|k: int| 0 <= k < st.len() && #[trigger] st[k].1 && st[k].0 == a;
        assert(hs[k].1);
    }
    if st.len() > 0 {
        let st0 = st.drop_last();
        assert(handles(v, st0) =~= hs.drop_last());
        lemma_handles_step(v, st0, a, b);
        if hs.last().0 == handle_of(v, b) {
            lemma_handle_injective(v, st.last().0, b);
        }
    }
    let k = last_with(st, b);
    lemma_last_with_range(st, b);
    if k >= 0 {
        assert(handles(v, st.take(k + 1).push((a, false))) =~= hs.take(k + 1).push((handle_of(v, a), false)));
    } else {
        assert(handles(v, seq![(b, true), (a, false)]) =~= seq![(handle_of(v, b), true), (handle_of(v, a), false)]);
    }
}

/// One more triple that has a callee and closes no cycle.
proof fn lemma_replay_call(ts: Seq<Triple>, k: int, st: Seq<(CallDescriptor, bool)>, v: Seq<CallDescriptor>)
    requires
        0 <= k < ts.len(),
        replay(ts.take(k)) == Some(st),
        ts[k].callee is Some,
        !open_in(st, ts[k].caller),
        v.contains(ts[k].caller),
        v.contains(ts[k].callee.unwrap()),
        forall|j: int| 0 <= j < st.len() ==> v.contains((#[trigger] st[j]).0),
    ensures
        replay(ts.take(k + 1)) == Some(frames_after_call(st, ts[k].caller, ts[k].callee.unwrap())),
        forall|j: int|
            0 <= j < frames_after_call(st, ts[k].caller, ts[k].callee.unwrap()).len() ==> v.contains(
                (#[trigger] frames_after_call(st, ts[k].caller, ts[k].callee.unwrap())[j]).0,
            ),
{
    assert(ts.take(k + 1).drop_last() == ts.take(k));
    assert(ts.take(k + 1).last() == ts[k]);
    let a = ts[k].caller;
    let b = ts[k].callee.unwrap();
    let f = frames_after_call(st, a, b);
    lemma_last_with_range(st, b);
    assert forall|j: int| 0 <= j < f.len() implies v.contains((#[trigger] f[j]).0) by {
        let q = last_with(st, b);
        if q >= 0 && j <= q {
            assert(f[j] == st[j]);
        }
    }
}

/// One more triple with no callee: it starts a new root.
proof fn lemma_replay_root(ts: Seq<Triple>, k: int, st: Seq<(CallDescriptor, bool)>)
    requires
        0 <= k < ts.len(),
        replay(ts.take(k)) == Some(st),
        ts[k].callee is None,
    ensures
        replay(ts.take(k + 1)) == Some(seq![(ts[k].caller, true)]),
{
    assert(ts.take(k + 1).drop_last() == ts.take(k));
    assert(ts.take(k + 1).last() == ts[k]);
}

/// The calls of `ts` were placed in the nodes `placed` of `t`, in order,
/// handles resolved through `v`: each in a node of its caller's handle,
/// with its bytes, under a node of its callee's handle, or as a root when it
/// has no callee.
pub open spec fn placed_ok(t: CallerTree, v: Seq<CallDescriptor>, ts: Seq<Triple>, placed: Seq<(usize, u64)>) -> bool {
    &&& placed.len() <= ts.len()
    &&& forall|i: int| 0 <= i < placed.len() ==> #[trigger] placed_at(t, v, ts[i], placed[i])
}

/// The call of triple `x` was placed as `p`: in a node of its caller's
/// handle, with its bytes, under a node of its callee's handle, or as a
/// root when it has no callee.
pub open spec fn placed_at(t: CallerTree, v: Seq<CallDescriptor>, x: Triple, p: (usize, u64)) -> bool {
    let n = p.0;
    &&& n < t.nodes@.len()
    &&& t.nodes@[n as int].id == handle_of(v, x.caller)
    &&& p.1 == x.allocation.bytes as u64
    &&& match x.callee {
        Some(c) => exists|q: int| #[trigger] t.has_link(q, n as int) && t.nodes@[q].id == handle_of(v, c),
        None => t.roots@.contains(n),
    }
}

/// The tree of the triples `ts`: where each call landed and the bytes of
/// each node.
pub open spec fn tree_of(t: CallerTree, v: Seq<CallDescriptor>, ts: Seq<Triple>) -> bool {
    exists|placed: Seq<(usize, u64)>|
        #[trigger] placed_ok(t, v, ts, placed) && placed.len() == ts.len() && forall|n: int|
            0 <= n < t.nodes@.len() ==> (#[trigger] t.nodes@[n]).bytes == bytes_at(placed, n)
}

proof fn lemma_placed_step(
    t0: CallerTree,
    t1: CallerTree,
    v1: Seq<CallDescriptor>,
    v2: Seq<CallDescriptor>,
    ts: Seq<Triple>,
    pl: Seq<(usize, u64)>,
    n: usize,
)
    requires
        placed_ok(t0, v1, ts, pl),
        pl.len() < ts.len(),
        tree_grows(t0, t1),
        v2.no_duplicates(),
        v1.len() <= v2.len(),
        v2.take(v1.len() as int) == v1,
        names_indexed(v1, ts.take(pl.len() as int)),
        n < t1.nodes@.len(),
        t1.nodes@[n as int].id == handle_of(v2, ts[pl.len() as int].caller),
        match ts[pl.len() as int].callee {
            Some(c) => exists|q: int| #[trigger] t1.has_link(q, n as int) && t1.nodes@[q].id == handle_of(v2, c),
            None => t1.roots@.contains(n),
        },
    ensures
        placed_ok(t1, v2, ts, pl.push((n, ts[pl.len() as int].allocation.bytes as u64))),
{
    let k = pl.len() as int;
    let pl2 = pl.push((n, ts[k].allocation.bytes as u64));
    assert forall|i: int| 0 <= i < pl2.len() implies #[trigger] placed_at(t1, v2, ts[i], pl2[i]) by {
        if i < k {
            assert(pl2[i] == pl[i]);
            assert(placed_at(t0, v1, ts[i], pl[i]));
            let m = pl[i].0;
            assert(ts.take(k)[i] == ts[i]);
            lemma_handle_stable(v1, v2, ts[i].caller);
            assert(t1.nodes@[m as int].id == t0.nodes@[m as int].id);
            match ts[i].callee {
                Some(c) => {
                    lemma_handle_stable(v1, v2, c);
                    let q = choose|q: int| #[trigger] t0.has_link(q, m as int) && t0.nodes@[q].id == handle_of(v1, c);
                    assert(t1.has_link(q, m as int));
                    assert(t1.nodes@[q].id == t0.nodes@[q].id);
                },
                None => {},
            }
            assert(placed_at(t1, v2, ts[i], pl[i]));
        } else {
            assert(pl2[i] == (n, ts[k].allocation.bytes as u64));
            assert(pl2[k].0 == n);
            assert(n < t1.nodes@.len());
            assert(t1.nodes@[n as int].id == handle_of(v2, ts[k].caller));
            match ts[k].callee {
                Some(c) => {
                    assert(exists|q: int| #[trigger] t1.has_link(q, n as int) && t1.nodes@[q].id == handle_of(v2, c));
                },
                None => {
                    assert(t1.roots@.contains(n));
                },
            }
            assert(placed_at(t1, v2, ts[k], pl2[k]));
        }
    }
}
/// Where the calls landed stays true as the index grows.
proof fn lemma_tree_of_stable(t: CallerTree, v1: Seq<CallDescriptor>, v2: Seq<CallDescriptor>, ts: Seq<Triple>)
    requires
        tree_of(t, v1, ts),
        names_indexed(v1, ts),
        v2.no_duplicates(),
        v1.len() <= v2.len(),
        v2.take(v1.len() as int) == v1,
    ensures
        tree_of(t, v2, ts),
{
    let placed = choose|placed: Seq<(usize, u64)>|
        #[trigger] placed_ok(t, v1, ts, placed) && placed.len() == ts.len() && forall|n: int|
            0 <= n < t.nodes@.len() ==> (#[trigger] t.nodes@[n]).bytes == bytes_at(placed, n);
    assert forall|i: int| 0 <= i < placed.len() implies #[trigger] placed_at(t, v2, ts[i], placed[i]) by {
        assert(placed_at(t, v1, ts[i], placed[i]));
        lemma_handle_stable(v1, v2, ts[i].caller);
        if let Some(c) = ts[i].callee {
            lemma_handle_stable(v1, v2, c);
        }
    }
    assert(placed_ok(t, v2, ts, placed));
}

/// Handles of a stack stay as the index grows.
proof fn lemma_handles_stable(v: Seq<CallDescriptor>, v2: Seq<CallDescriptor>, st: Seq<(CallDescriptor, bool)>)
    requires
        v2.no_duplicates(),
        v.len() <= v2.len(),
        v2.take(v.len() as int) == v,
        forall|j: int| 0 <= j < st.len() ==> v.contains((#[trigger] st[j]).0),
    ensures
        handles(v, st) == handles(v2, st),
        forall|j: int| 0 <= j < st.len() ==> v2.contains((#[trigger] st[j]).0),
{
    assert forall|j: int| 0 <= j < st.len() implies handles(v, st)[j] == handles(v2, st)[j] && v2.contains((#[trigger] st[j]).0) by {
        lemma_handle_stable(v, v2, st[j].0);
    }
    assert(handles(v, st) =~= handles(v2, st));
}

/// Adds the sample lines of one snapshot to `index` and `graph`, and
/// rebuilds its caller tree.
#[verifier::rlimit(80)]
pub fn ingest_snapshot(snapshot: &Snapshot, index: &mut CallIndex, graph: &mut CallGraph) -> (r: Result<CallerTree, ReadError>)
    requires
        old(index).wf(),
        old(graph).wf(),
    ensures
        final(index).wf(),
        final(graph).wf(),
        r matches Err(e) ==> !(e is Parse),
        replay(snapshot_triples(snapshot.samples@)) is Some && old(index)@.len() + 2
            * snapshot.samples@.len() < usize::MAX - 1 ==> (r is Ok),
        r is Ok ==> (replay(snapshot_triples(snapshot.samples@)) is Some),
        r is Ok ==> final(index)@.len() <= old(index)@.len() + 2 * snapshot.samples@.len(),
        r matches Err(ReadError::Cycle(_)) ==> (replay(snapshot_triples(snapshot.samples@)) is None),
        r matches Err(ReadError::TooManyCalls) ==> old(index)@.len() + 2 * snapshot.samples@.len()
            >= usize::MAX - 1,
        r matches Err(ReadError::Cycle(c)) ==> exists|i: int|
            #![trigger snapshot_triples(snapshot.samples@)[i]]
            cycle_at(snapshot_triples(snapshot.samples@), i) && c.caller == handle_of(
                final(index)@,
                snapshot_triples(snapshot.samples@)[i].caller,
            ) && c.callee == handle_of(
                final(index)@,
                snapshot_triples(snapshot.samples@)[i].callee.unwrap(),
            ),
        r is Ok ==> {
            let ts = snapshot_triples(snapshot.samples@);
            let v = final(index)@;
            &&& v.len() >= old(index)@.len()
            &&& v.take(old(index)@.len() as int) == old(index)@
            &&& names_indexed(v, ts)
            &&& final(graph).weights() == weights_after(old(graph).weights(), v, ts)
        },
        r matches Ok(t) ==> tree_of(t, final(index)@, snapshot_triples(snapshot.samples@)),
        r matches Ok(t) ==> t.wf() && is_forest(t) && t.link_pairs() == pairs_of(
            final(index)@,
            snapshot_triples(snapshot.samples@),
        ),
{
    let triples = triples_of(&snapshot.samples);
    let ghost ts = snapshot_triples(snapshot.samples@);
    assert(triples@ =~= ts);
    let mut builder = CallerTreeBuilder::new();
    proof {
        index.lemma_wf_no_duplicates();
    }
    let ghost v0 = index@;
    let n0 = index.len();
    let ghost w0 = graph.weights();
    proof {
        assert(pairs_of(index@, ts.take(0)) =~= Set::<(CallId, CallId)>::empty());
    }
    let mut k: usize = 0;
    while k < triples.len()
        invariant
            index.wf(),
            index@.no_duplicates(),
            graph.wf(),
            builder.wf(),
            triples@ == ts,
            k <= triples@.len(),
            v0.len() <= index@.len(),
            index@.take(v0.len() as int) == v0,
            names_indexed(index@, ts.take(k as int)),
            graph.weights() == weights_after(w0, index@, ts.take(k as int)),
            builder.pairs() == pairs_of(index@, ts.take(k as int)),
            ts.len() == snapshot.samples@.len(),
            index@.len() <= v0.len() + 2 * k,
            v0 == old(index)@,
            ts == snapshot_triples(snapshot.samples@),
            index@.len() <= usize::MAX,
            replay(ts.take(k as int)) is Some,
            builder.frames() == handles(index@, replay(ts.take(k as int)).unwrap()),
            builder.placed().len() == k,
            placed_ok(builder.tree(), index@, ts, builder.placed()),
            forall|j: int|
                0 <= j < replay(ts.take(k as int)).unwrap().len() ==> index@.contains(
                    (#[trigger] replay(ts.take(k as int)).unwrap()[j]).0,
                ),
        decreases triples@.len() - k,
    {
        let triple = &triples[k];
        if index.len() >= usize::MAX - 1 {
            return Err(ReadError::TooManyCalls);
        }
        let ghost st = replay(ts.take(k as int)).unwrap();
        let ghost f0 = builder.frames();
        let ghost b0 = builder;
        let ghost v1 = index@;
        let caller: CallId = index.index(&triple.caller);
        let bytes = triple.allocation.bytes as u64;
        let ghost tk = ts.take(k as int);
        let ghost tk1 = ts.take(k + 1);
        assert(tk1.drop_last() == tk);
        assert(tk1.last() == ts[k as int]);
        match triple.callee {
            Some(callee_descriptor) => {
                let callee: CallId = index.index(&callee_descriptor);
                let ghost v2 = index@;
                proof {
                    assert(v2.take(v1.len() as int) =~= v1);
                    assert(v2.take(v0.len() as int) =~= v0);
                    lemma_weights_stable(w0, v1, v2, tk);
                    assert(v2[caller as int] == triple.caller);
                    lemma_handle_is(v2, triple.caller, caller as int);
                    assert(v2[callee as int] == callee_descriptor);
                    lemma_handle_is(v2, callee_descriptor, callee as int);
                }
                proof {
                    lemma_handles_stable(v1, v2, st);
                    lemma_handles_step(v2, st, triple.caller, callee_descriptor);
                    assert(triple.caller == ts[k as int].caller);
                }
                match builder.add_call(caller, callee, bytes) {
                    Ok(()) => {},
                    Err(cycle) => {
                        proof {
                            assert(open_in(f0, caller));
                            assert(open_in(st, triple.caller));
                            assert(replay(tk) == Some(st));
                            assert(cycle_at(ts, k as int));
                            assert(cycle == CycleDetected { caller, callee });
                            assert(snapshot_triples(snapshot.samples@)[k as int] == ts[k as int]);
                            assert(ts[k as int].callee.unwrap() == callee_descriptor);
                            assert(replay(tk1) is None);
                            lemma_replay_stays_none(ts, k + 1, ts.len() as int);
                            assert(ts.take(ts.len() as int) =~= ts);
                        }
                        return Err(ReadError::Cycle(cycle));
                    },
                }
                graph.add_edge(caller, callee, triple.allocation.copied());
                proof {
                    let sk = builder.stack();
                    let top = sk.last().node;
                    assert(builder.tree().has_link(sk[sk.len() - 2].node as int, top as int));
                    lemma_placed_step(b0.tree(), builder.tree(), v1, v2, ts, b0.placed(), top);
                    lemma_replay_call(ts, k as int, st, v2);
                    assert(builder.frames() == handles(v2, frames_after_call(st, triple.caller, callee_descriptor)));
                    assert(v2.contains(triple.caller));
                    assert(v2.contains(callee_descriptor));
                    assert forall|i: int| 0 <= i < tk1.len() implies v2.contains((#[trigger] tk1[i]).caller) && (tk1[i].callee is Some ==> v2.contains(tk1[i].callee.unwrap())) by {
                        if i < k {
                            assert(tk1[i] == tk[i]);
                            lemma_handle_stable(v1, v2, tk[i].caller);
                            if tk[i].callee is Some {
                                lemma_handle_stable(v1, v2, tk[i].callee.unwrap());
                            }
                        }
                    }
                    let pair = (caller, callee);
                    assert forall|p: (CallId, CallId)| pairs_of(v2, tk1).contains(p) <==> pairs_of(v2, tk).insert(pair).contains(p) by {
                        if pairs_of(v2, tk1).contains(p) {
                            let i = choose|i: int| 0 <= i < tk1.len() && (#[trigger] tk1[i]).callee is Some && p == (handle_of(v2, tk1[i].caller), handle_of(v2, tk1[i].callee.unwrap()));
                            if i < k {
                                assert(tk1[i] == tk[i]);
                            }
                        }
                        if pairs_of(v2, tk).contains(p) {
                            let i = choose|i: int| 0 <= i < tk.len() && (#[trigger] tk[i]).callee is Some && p == (handle_of(v2, tk[i].caller), handle_of(v2, tk[i].callee.unwrap()));
                            assert(tk1[i] == tk[i]);
                        }
                        if p == pair {
                            assert(tk1[k as int] == ts[k as int]);
                        }
                    }
                    assert(pairs_of(v2, tk1) =~= pairs_of(v2, tk).insert(pair));
                }
            },
            None => {
                builder.add_root(caller, bytes);
                let ghost v2 = index@;
                proof {
                    assert(v2.take(v1.len() as int) =~= v1);
                    lemma_placed_step(b0.tree(), builder.tree(), v1, v2, ts, b0.placed(), builder.stack()[0].node);
                    lemma_replay_root(ts, k as int, st);
                    assert(v2[caller as int] == triple.caller);
                    lemma_handle_is(v2, triple.caller, caller as int);
                    assert(handles(v2, seq![(triple.caller, true)]) =~= seq![(caller, true)]);
                    assert(v2.take(v1.len() as int) =~= v1);
                    assert(v2.take(v0.len() as int) =~= v0);
                    lemma_weights_stable(w0, v1, v2, tk);
                    assert(v2.contains(triple.caller)) by {
                        assert(v2[caller as int] == triple.caller);
                    }
                    assert forall|i: int| 0 <= i < tk1.len() implies v2.contains((#[trigger] tk1[i]).caller) && (tk1[i].callee is Some ==> v2.contains(tk1[i].callee.unwrap())) by {
                        if i < k {
                            assert(tk1[i] == tk[i]);
                            lemma_handle_stable(v1, v2, tk[i].caller);
                            if tk[i].callee is Some {
                                lemma_handle_stable(v1, v2, tk[i].callee.unwrap());
                            }
                        }
                    }
                    assert forall|p: (CallId, CallId)| pairs_of(v2, tk1).contains(p) <==> pairs_of(v2, tk).contains(p) by {
                        if pairs_of(v2, tk1).contains(p) {
                            let i = choose|i: int| 0 <= i < tk1.len() && (#[trigger] tk1[i]).callee is Some && p == (handle_of(v2, tk1[i].caller), handle_of(v2, tk1[i].callee.unwrap()));
                            if i < k {
                                assert(tk1[i] == tk[i]);
                            }
                        }
                        if pairs_of(v2, tk).contains(p) {
                            let i = choose|i: int| 0 <= i < tk.len() && (#[trigger] tk[i]).callee is Some && p == (handle_of(v2, tk[i].caller), handle_of(v2, tk[i].callee.unwrap()));
                            assert(tk1[i] == tk[i]);
                        }
                    }
                    assert(pairs_of(v2, tk1) =~= pairs_of(v2, tk));
                }
            },
        }
        k = k + 1;
    }
    proof {
        assert(ts.take(k as int) =~= ts);
    }
    let ghost placed = builder.placed();
    let tree = builder.build();
    proof {
        assert(placed_ok(tree, index@, ts, placed));
    }
    Ok(tree)
}

/// The edge weights of the call graph of `snapshots`, calls resolved
/// through `view`.
pub open spec fn graph_weights(snapshots: Seq<Snapshot>, view: Seq<CallDescriptor>) -> Map<(CallId, CallId), u64>
    decreases snapshots.len(),
{
    if snapshots.len() == 0 {
        Map::empty()
    } else {
        weights_after(
            graph_weights(snapshots.drop_last(), view),
            view,
            snapshot_triples(snapshots.last().samples@),
        )
    }
}

/// Every call that `snapshots` name stands in `view`.
pub open spec fn snapshots_indexed(view: Seq<CallDescriptor>, snapshots: Seq<Snapshot>) -> bool {
    forall|i: int| 0 <= i < snapshots.len() ==> names_indexed(view, snapshot_triples((#[trigger] snapshots[i]).samples@))
}

proof fn lemma_graph_weights_stable(snapshots: Seq<Snapshot>, v: Seq<CallDescriptor>, v2: Seq<CallDescriptor>)
    requires
        v2.no_duplicates(),
        v.len() <= v2.len(),
        v2.take(v.len() as int) == v,
        snapshots_indexed(v, snapshots),
    ensures
        graph_weights(snapshots, v) == graph_weights(snapshots, v2),
    decreases snapshots.len(),
{
    if snapshots.len() > 0 {
        let s0 = snapshots.drop_last();
        assert forall|i: int| 0 <= i < s0.len() implies names_indexed(v, snapshot_triples((#[trigger] s0[i]).samples@)) by {
            assert(s0[i] == snapshots[i]);
        }
        lemma_graph_weights_stable(s0, v, v2);
        assert(snapshots.last() == snapshots[snapshots.len() - 1]);
        lemma_weights_stable(graph_weights(s0, v), v, v2, snapshot_triples(snapshots.last().samples@));
    }
}

proof fn lemma_names_extend(v: Seq<CallDescriptor>, v2: Seq<CallDescriptor>, ts: Seq<Triple>)
    requires
        v.len() <= v2.len(),
        v2.take(v.len() as int) == v,
        names_indexed(v, ts),
    ensures
        names_indexed(v2, ts),
{
    assert forall|i: int| 0 <= i < ts.len() implies v2.contains((#[trigger] ts[i]).caller) && (ts[i].callee is Some ==> v2.contains(ts[i].callee.unwrap())) by {
        let j = choose|j: int| 0 <= j < v.len() && v[j] == ts[i].caller;
        assert(v2.take(v.len() as int)[j] == v2[j]);
        if ts[i].callee is Some {
            let j2 = choose|j2: int| 0 <= j2 < v.len() && v[j2] == ts[i].callee.unwrap();
            assert(v2.take(v.len() as int)[j2] == v2[j2]);
        }
    }
}

/// `p` is built from `massif`: one caller tree per snapshot, whose caller
/// links are the (caller, callee) pairs of the snapshot's triples, and a
/// call graph whose edges sum the allocations of all triples, calls
/// resolved through `p`'s index.
pub open spec fn ingested(massif: Massif, p: Profile) -> bool {
    &&& p.wf()
    &&& p.header == massif.header
    &&& p.snapshots@.len() == massif.snapshots@.len()
    &&& snapshots_indexed(p.index@, massif.snapshots@)
    &&& p.graph.weights() == graph_weights(massif.snapshots@, p.index@)
    &&& forall|i: int|
        0 <= i < p.snapshots@.len() ==> (#[trigger] p.snapshots@[i]).id == massif.snapshots@[i].id
            && p.snapshots@[i].attributes@ == massif.snapshots@[i].attributes@
            && is_forest(p.snapshots@[i].tree)
            && tree_of(p.snapshots@[i].tree, p.index@, snapshot_triples(massif.snapshots@[i].samples@))
            && p.snapshots@[i].tree.link_pairs() == pairs_of(
            p.index@,
            snapshot_triples(massif.snapshots@[i].samples@),
        )
}

/// The number of sample lines of `snapshots`.
pub open spec fn sample_total(snapshots: Seq<Snapshot>) -> nat
    decreases snapshots.len(),
{
    if snapshots.len() == 0 {
        0
    } else {
        sample_total(snapshots.drop_last()) + snapshots.last().samples@.len()
    }
}

/// No snapshot's stream closes a cycle.
pub open spec fn snapshots_acyclic(snapshots: Seq<Snapshot>) -> bool {
    forall|i: int| 0 <= i < snapshots.len() ==> (replay(snapshot_triples((#[trigger] snapshots[i]).samples@)) is Some)
}

/// `massif` can be ingested: no cycle, and handles for every call it can
/// name.
pub open spec fn ingestible(massif: Massif) -> bool {
    &&& snapshots_acyclic(massif.snapshots@)
    &&& 2 * sample_total(massif.snapshots@) < usize::MAX - 1
}

proof fn lemma_total_prefix(s: Seq<Snapshot>, j: int)
    requires
        0 <= j <= s.len(),
    ensures
        sample_total(s.take(j)) <= sample_total(s),
    decreases s.len() - j,
{
    if j < s.len() {
        lemma_total_prefix(s, j + 1);
        assert(s.take(j + 1).drop_last() == s.take(j));
    } else {
        assert(s.take(j) == s);
    }
}

/// `p` is what reading the file `input` builds.
pub open spec fn read_from(input: Seq<char>, p: Profile) -> bool {
    exists|m: Massif| #[trigger] reads_file(input, m) && ingested(m, p)
}

/// Builds the call index, the caller tree of each snapshot and the call
/// graph over all snapshots from a decoded file.
pub fn ingest(massif: Massif) -> (r: Result<Profile, ReadError>)
    ensures
        r matches Err(e) ==> !(e is Parse),
        r matches Ok(p) ==> ingested(massif, p),
        ingestible(massif) ==> (r is Ok),
        r is Ok ==> snapshots_acyclic(massif.snapshots@),
        r matches Err(ReadError::TooManyCalls) ==> 2 * sample_total(massif.snapshots@) >= usize::MAX - 1,
        r matches Err(ReadError::Cycle(_)) ==> exists|i: int|
            0 <= i < massif.snapshots@.len() && (replay(
                snapshot_triples((#[trigger] massif.snapshots@[i]).samples@),
            ) is None) && snapshots_acyclic(massif.snapshots@.take(i)),
{
    let mut index = CallIndex::new();
    let mut graph = CallGraph::new();
    let mut snapshots: Vec<SnapshotTree> = Vec::new();
    let ghost all = massif.snapshots@;
    proof {
        assert(graph.weights() =~= graph_weights(all.take(0), index@));
    }
    let mut k: usize = 0;
    while k < massif.snapshots.len()
        invariant
            index.wf(),
            index@.no_duplicates(),
            graph.wf(),
            all == massif.snapshots@,
            k <= all.len(),
            snapshots@.len() == k,
            index@.len() <= 2 * sample_total(all.take(k as int)),
            forall|i: int| 0 <= i < k ==> (replay(snapshot_triples((#[trigger] all[i]).samples@)) is Some),
            snapshots_indexed(index@, all.take(k as int)),
            graph.weights() == graph_weights(all.take(k as int), index@),
            forall|i: int|
                0 <= i < k ==> (#[trigger] snapshots@[i]).tree.wf() && snapshots@[i].id == all[i].id
                    && snapshots@[i].attributes@ == all[i].attributes@ && is_forest(snapshots@[i].tree)
                    && tree_of(snapshots@[i].tree, index@, snapshot_triples(all[i].samples@))
                    && snapshots@[i].tree.link_pairs() == pairs_of(index@, snapshot_triples(all[i].samples@)),
        decreases all.len() - k,
    {
        let snapshot = &massif.snapshots[k];
        let ghost v1 = index@;
        proof {
            assert(all.take(k + 1).drop_last() == all.take(k as int));
            assert(all.take(k + 1).last() == all[k as int]);
            lemma_total_prefix(all, k + 1);
        }
        let tree = match ingest_snapshot(snapshot, &mut index, &mut graph) {
            Ok(t) => t,
            Err(e) => {
                proof {
                    assert forall|i: int| 0 <= i < k implies (replay(snapshot_triples((#[trigger] all.take(k as int)[i]).samples@)) is Some) by {
                        assert(all.take(k as int)[i] == all[i]);
                    }
                }
                return Err(e);
            },
        };
        let ghost v2 = index@;
        proof {
            index.lemma_wf_no_duplicates();
            let tk = all.take(k as int);
            let tk1 = all.take(k + 1);
            assert(tk1.drop_last() == tk);
            assert(tk1.last() == all[k as int]);
            lemma_graph_weights_stable(tk, v1, v2);
            assert forall|i: int| 0 <= i < tk1.len() implies names_indexed(v2, snapshot_triples((#[trigger] tk1[i]).samples@)) by {
                if i < k {
                    assert(tk1[i] == tk[i]);
                    lemma_names_extend(v1, v2, snapshot_triples(tk[i].samples@));
                }
            }
            assert forall|i: int| 0 <= i < k implies pairs_of(v1, snapshot_triples(all[i].samples@)) == pairs_of(v2, snapshot_triples(all[i].samples@))
                && tree_of(snapshots@[i].tree, v2, snapshot_triples(all[i].samples@)) by {
                assert(tk[i] == all[i]);
                lemma_weights_stable(Map::empty(), v1, v2, snapshot_triples(all[i].samples@));
                lemma_tree_of_stable(snapshots@[i].tree, v1, v2, snapshot_triples(all[i].samples@));
            }
        }
        let ghost before = snapshots@;
        snapshots.push(SnapshotTree { id: snapshot.id, attributes: copy_attributes(&snapshot.attributes), tree });
        proof {
            assert forall|i: int| 0 <= i < k + 1 implies (#[trigger] snapshots@[i]).tree.wf() && snapshots@[i].id == all[i].id
                && snapshots@[i].attributes@ == all[i].attributes@ && is_forest(snapshots@[i].tree)
                && tree_of(snapshots@[i].tree, v2, snapshot_triples(all[i].samples@))
                && snapshots@[i].tree.link_pairs() == pairs_of(v2, snapshot_triples(all[i].samples@)) by {
                if i < k {
                    assert(snapshots@[i] == before[i]);
                }
            }
        }
        k = k + 1;
    }
    proof {
        assert(all.take(k as int) =~= all);
    }
    Ok(Profile { header: massif.header, snapshots, index, graph })
}

/// Reads a whole massif file: decodes it (`parse_massif`), then builds its
/// snapshots' caller trees, and the call graph and call index over all of
/// them (`ingest`).
pub fn read(input: &str) -> (r: Result<Profile, ReadError>)
    ensures
        r matches Ok(p) ==> p.wf() && read_from(input@, p),
        r matches Err(ReadError::Parse(e)) ==> e.line >= 1 && explains(input@, e),
        (r matches Err(ReadError::Parse(_))) <==> !decodes(input@),
        decodes(input@) && (forall|m: Massif| #[trigger] reads_file(input@, m) ==> ingestible(m)) ==> (r is Ok),
{
    match parse_massif(input) {
        Ok(massif) => {
            let ghost m = massif;
            let r = ingest(massif);
            proof {
                if r is Ok {
                    assert(reads_file(input@, m) && ingested(m, r->Ok_0));
                }
            }
            r
        },
        Err(e) => Err(ReadError::Parse(e)),
    }
}

fn copy_attributes(a: &Attributes) -> (r: Attributes)
    ensures
        r@ == a@,
        r@.len() == a@.len(),
        forall|i: int| 0 <= i < a@.len() ==> (#[trigger] r@[i]).0 == a@[i].0 && r@[i].1 == a@[i].1,
{
    let mut r: Attributes = Vec::new();
    let mut k: usize = 0;
    while k < a.len()
        invariant
            k <= a@.len(),
            r@.len() == k,
            forall|i: int| 0 <= i < k ==> (#[trigger] r@[i]).0 == a@[i].0 && r@[i].1 == a@[i].1,
        decreases a@.len() - k,
    {
        let (key, value) = &a[k];
        r.push((key.clone(), value.clone()));
        k = k + 1;
    }
    assert(r@ =~= a@);
    r
}

} // verus!
