//! The call graph: one edge per (caller, callee) pair of call handles, over
//! all snapshots, weighted by the bytes allocated through it.
use vstd::prelude::*;

use petgraph::graphmap::{DiGraphMap, GraphMap};

use crate::allocation::{location_matches, merge_locations, merged, sat_add, Allocation, Location};
use crate::indexing::CallId;

verus! {

/// petgraph's `GraphMap`, opaque: what it holds is named by `graph_edges`
/// and `graph_nodes` below.
#[verifier::external_type_specification]
#[verifier::external_body]
#[verifier::reject_recursive_types(N)]
#[verifier::reject_recursive_types(E)]
#[verifier::reject_recursive_types(Ty)]
pub struct ExGraphMap<N, E, Ty>(GraphMap<N, E, Ty>);

/// petgraph's `Directed` marker, the edge kind of the graph map.
#[verifier::external_type_specification]
#[verifier::external_body]
pub struct ExDirected(petgraph::Directed);

/// The edges of a graph map, with their weights.
pub uninterp spec fn graph_edges(g: DiGraphMap<CallId, usize>) -> Map<(CallId, CallId), usize>;

/// The nodes of a graph map.
pub uninterp spec fn graph_nodes(g: DiGraphMap<CallId, usize>) -> Set<CallId>;

/// Relies on `GraphMap::new`: a graph with no node and no edge.
#[verifier::external_body]
fn graph_new() -> (r: DiGraphMap<CallId, usize>)
    ensures
        graph_edges(r) =~= Map::empty(),
        graph_nodes(r) =~= Set::empty(),
{
    DiGraphMap::new()
}

/// Relies on `GraphMap::add_edge`: the edge (a, b) gets weight `w`, both
/// ends become nodes, and the weight it replaces comes back.
#[verifier::external_body]
fn graph_add_edge(g: &mut DiGraphMap<CallId, usize>, a: CallId, b: CallId, w: usize) -> (r: Option<usize>)
    ensures
        graph_edges(*final(g)) == graph_edges(*old(g)).insert((a, b), w),
        graph_nodes(*final(g)) == graph_nodes(*old(g)).insert(a).insert(b),
        r == (if graph_edges(*old(g)).dom().contains((a, b)) {
            Some(graph_edges(*old(g))[(a, b)])
        } else {
            None
        }),
{
    g.add_edge(a, b, w)
}

/// Relies on `GraphMap::edge_weight`: the weight of edge (a, b), if any.
#[verifier::external_body]
fn graph_edge_weight(g: &DiGraphMap<CallId, usize>, a: CallId, b: CallId) -> (r: Option<usize>)
    ensures
        r == (if graph_edges(*g).dom().contains((a, b)) {
            Some(graph_edges(*g)[(a, b)])
        } else {
            None
        }),
{
    g.edge_weight(a, b).copied()
}

/// Relies on `GraphMap::neighbors_directed`: every node with an edge to `a`
/// (`incoming`) or from `a`, each once.
#[verifier::external_body]
fn graph_neighbors(g: &DiGraphMap<CallId, usize>, a: CallId, incoming: bool) -> (r: Vec<CallId>)
    ensures
        r@.no_duplicates(),
        forall|n: CallId|
            r@.contains(n) <==> graph_edges(*g).dom().contains(
                if incoming {
                    (n, a)
                } else {
                    (a, n)
                },
            ),
{
    let dir = if incoming {
        petgraph::Direction::Incoming
    } else {
        petgraph::Direction::Outgoing
    };
    g.neighbors_directed(a, dir).collect()
}

/// Relies on `GraphMap::nodes`: every node, each once.
#[verifier::external_body]
fn graph_node_list(g: &DiGraphMap<CallId, usize>) -> (r: Vec<CallId>)
    ensures
        r@.no_duplicates(),
        forall|n: CallId| r@.contains(n) <==> graph_nodes(*g).contains(n),
{
    g.nodes().collect()
}


/// The direction of a neighbour query.
#[derive(Debug, Clone, Copy, PartialEq, Eq, Structural)]
pub enum Direction {
    /// The callers of a call.
    Incoming,
    /// The callees of a call.
    Outgoing,
}

/// The allocations observed on one edge.
#[derive(Debug, Clone, PartialEq, Eq)]
pub struct EdgeAllocations {
    pub caller: CallId,
    pub callee: CallId,
    pub bytes: u64,
    pub locations: Vec<Location>,
}

/// The call graph. Each edge of the graph map holds the position of its
/// allocations in `slots`.
pub struct CallGraph {
    graph: DiGraphMap<CallId, usize>,
    slots: Vec<EdgeAllocations>,
}

impl CallGraph {
    /// The summed bytes of each edge, saturating at `u64::MAX`.
    pub closed spec fn weights(&self) -> Map<(CallId, CallId), u64> {
        Map::new(
            |k: (CallId, CallId)| graph_edges(self.graph).dom().contains(k),
            |k: (CallId, CallId)| self.slots@[graph_edges(self.graph)[k] as int].bytes,
        )
    }

    /// The locations of the allocations of each edge, in the order added.
    pub closed spec fn locations(&self) -> Map<(CallId, CallId), Seq<Location>> {
        Map::new(
            |k: (CallId, CallId)| graph_edges(self.graph).dom().contains(k),
            |k: (CallId, CallId)| self.slots@[graph_edges(self.graph)[k] as int].locations@,
        )
    }

    /// The calls that some edge starts or ends at.
    pub closed spec fn nodes(&self) -> Set<CallId> {
        graph_nodes(self.graph)
    }

    pub closed spec fn wf(&self) -> bool {
        &&& forall|k: (CallId, CallId)|
            #![trigger graph_edges(self.graph)[k]]
            graph_edges(self.graph).dom().contains(k) ==> {
                let i = graph_edges(self.graph)[k] as int;
                &&& 0 <= i < self.slots@.len()
                &&& self.slots@[i].caller == k.0
                &&& self.slots@[i].callee == k.1
            }
        &&& forall|i: int|
            #![trigger self.slots@[i]]
            0 <= i < self.slots@.len() ==> graph_edges(self.graph).dom().contains(
                (self.slots@[i].caller, self.slots@[i].callee),
            ) && graph_edges(self.graph)[(self.slots@[i].caller, self.slots@[i].callee)] == i
        &&& forall|n: CallId|
            #![trigger graph_nodes(self.graph).contains(n)]
            graph_nodes(self.graph).contains(n) <==> exists|m: CallId|
                graph_edges(self.graph).dom().contains((n, m)) || graph_edges(
                    self.graph,
                ).dom().contains((m, n))
    }

    pub fn new() -> (r: CallGraph)
        ensures
            r.wf(),
            r.weights() == Map::<(CallId, CallId), u64>::empty(),
            r.locations() == Map::<(CallId, CallId), Seq<Location>>::empty(),
    {
        let r = CallGraph { graph: graph_new(), slots: Vec::new() };
        proof {
            assert(r.weights() =~= Map::<(CallId, CallId), u64>::empty());
            assert(r.locations() =~= Map::<(CallId, CallId), Seq<Location>>::empty());
        }
        r
    }

    /// `n` has an edge to some call and none from any.
    pub open spec fn is_root(&self, n: CallId) -> bool {
        &&& exists|m: CallId| self.weights().dom().contains((n, m))
        &&& forall|m: CallId| !self.weights().dom().contains((m, n))
    }

    /// The summed bytes of the edge from `caller` to `callee`, if any.
    pub fn edge_weight(&self, caller: CallId, callee: CallId) -> (r: Option<u64>)
        requires
            self.wf(),
        ensures
            r == (if self.weights().dom().contains((caller, callee)) {
                Some(self.weights()[(caller, callee)])
            } else {
                None
            }),
    {
        match graph_edge_weight(&self.graph, caller, callee) {
            Some(i) => Some(self.slots[i].bytes),
            None => None,
        }
    }

    /// The locations of the allocations of the edge from `caller` to
    /// `callee`, if any.
    pub fn edge_locations(&self, caller: CallId, callee: CallId) -> (r: Option<&Vec<Location>>)
        requires
            self.wf(),
        ensures
            r is Some <==> self.locations().dom().contains((caller, callee)),
            r is Some ==> r.unwrap()@ == self.locations()[(caller, callee)],
    {
        match graph_edge_weight(&self.graph, caller, callee) {
            Some(i) => Some(&self.slots[i].locations),
            None => None,
        }
    }

    /// The locations of the edge from `caller` to `callee`, merged (see
    /// `merged`); `None` when there is no such edge or they do not merge.
    pub fn edge_location(&self, caller: CallId, callee: CallId) -> (r: Option<Location>)
        requires
            self.wf(),
        ensures
            !self.locations().dom().contains((caller, callee)) ==> r is None,
            self.locations().dom().contains((caller, callee)) ==> {
                &&& (r is Some <==> merged(self.locations()[(caller, callee)]) is Some)
                &&& (r is Some ==> location_matches(r.unwrap(), merged(self.locations()[(caller, callee)]).unwrap()))
            },
    {
        match self.edge_locations(caller, callee) {
            Some(ls) => merge_locations(ls),
            None => None,
        }
    }

    /// The calls with an edge to `id` (`Incoming`) or from it (`Outgoing`),
    /// each once.
    pub fn neighbors(&self, id: CallId, direction: Direction) -> (r: Vec<CallId>)
        requires
            self.wf(),
        ensures
            r@.no_duplicates(),
            forall|n: CallId|
                r@.contains(n) <==> self.weights().dom().contains(
                    match direction {
                        Direction::Incoming => (n, id),
                        Direction::Outgoing => (id, n),
                    },
                ),
    {
        let incoming = match direction {
            Direction::Incoming => true,
            Direction::Outgoing => false,
        };
        graph_neighbors(&self.graph, id, incoming)
    }

    /// The calls with no incoming edge: the entry points, each once.
    pub fn roots(&self) -> (r: Vec<CallId>)
        requires
            self.wf(),
        ensures
            r@.no_duplicates(),
            forall|n: CallId| r@.contains(n) <==> self.is_root(n),
    {
        let all = graph_node_list(&self.graph);
        let mut r: Vec<CallId> = Vec::new();
        let mut k: usize = 0;
        while k < all.len()
            invariant
                self.wf(),
                k <= all@.len(),
                all@.no_duplicates(),
                forall|n: CallId| all@.contains(n) <==> graph_nodes(self.graph).contains(n),
                r@.no_duplicates(),
                forall|n: CallId|
                    #![trigger r@.contains(n)]
                    r@.contains(n) <==> all@.take(k as int).contains(n) && self.is_root(n),
            decreases all@.len() - k,
        {
            let n = all[k];
            let ghost r0 = r@;
            let ghost seen = all@.take(k as int);
            assert(all@.take(k + 1) == seen.push(n));
            proof {
                if seen.contains(n) {
                    let j = choose|j: int| 0 <= j < seen.len() && seen[j] == n;
                    assert(all@[j] == all@[k as int]);
                }
            }
            let callers = graph_neighbors(&self.graph, n, true);
            if callers.len() == 0 {
                proof {
                    assert(all@[k as int] == n);
                    assert(all@.contains(n));
                    assert(graph_nodes(self.graph).contains(n));
                    let m = choose|m: CallId| graph_edges(self.graph).dom().contains((n, m)) || graph_edges(self.graph).dom().contains((m, n));
                    assert forall|m2: CallId| !self.weights().dom().contains((m2, n)) by {
                        if self.weights().dom().contains((m2, n)) {
                            assert(callers@.contains(m2));
                        }
                    }
                    if graph_edges(self.graph).dom().contains((m, n)) {
                        assert(self.weights().dom().contains((m, n)));
                    }
                    assert(self.weights().dom().contains((n, m)));
                    assert(!r0.contains(n));
                }
                r.push(n);
                assert(r@[r0.len() as int] == n);
            } else {
                proof {
                    assert(callers@.contains(callers@[0]));
                    assert(graph_edges(self.graph).dom().contains((callers@[0], n)));
                    assert(self.weights().dom().contains((callers@[0], n)));
                    assert(!self.is_root(n));
                }
            }
            proof {
                assert forall|x: CallId| #[trigger] r@.contains(x) <==> all@.take(k + 1).contains(x) && self.is_root(x) by {
                    if r@.contains(x) && x != n {
                        let t = choose|t: int| 0 <= t < r@.len() && r@[t] == x;
                        assert(r0[t] == x);
                        assert(r0.contains(x));
                    }
                    if r0.contains(x) {
                        let t = choose|t: int| 0 <= t < r0.len() && r0[t] == x;
                        assert(r@[t] == x);
                    }
                    if seen.push(n).contains(x) && x != n {
                        let t = choose|t: int| 0 <= t < seen.len() + 1 && seen.push(n)[t] == x;
                        assert(seen[t] == x);
                    }
                    if seen.contains(x) {
                        let t = choose|t: int| 0 <= t < seen.len() && seen[t] == x;
                        assert(seen.push(n)[t] == x);
                    }
                    if x == n {
                        assert(seen.push(n)[k as int] == n);
                    }
                }
            }
            k = k + 1;
        }
        proof {
            assert(all@.take(k as int) == all@);
            assert forall|n: CallId| self.is_root(n) implies r@.contains(n) by {
                let m = choose|m: CallId| self.weights().dom().contains((n, m));
                assert(graph_nodes(self.graph).contains(n));
                assert(all@.contains(n));
            }
        }
        r
    }

    /// What a call of `add_edge` leaves.
    pub open spec fn add_edge_post(
        before: CallGraph,
        caller: CallId,
        callee: CallId,
        allocation: Allocation,
        after: CallGraph,
    ) -> bool {
        &&& after.weights() == before.weights().insert(
            (caller, callee),
            sat_add(
                if before.weights().dom().contains((caller, callee)) {
                    before.weights()[(caller, callee)]
                } else {
                    0
                },
                allocation.bytes as int,
            ),
        )
        &&& after.locations() == before.locations().insert(
            (caller, callee),
            if before.locations().dom().contains((caller, callee)) {
                before.locations()[(caller, callee)]
            } else {
                Seq::empty()
            }.push(allocation.location),
        )
    }

    /// Adds `allocation` to the edge from `caller` to `callee`, which is made
    /// when it is the first one.
    pub fn add_edge(&mut self, caller: CallId, callee: CallId, allocation: Allocation)
        requires
            old(self).wf(),
        ensures
            final(self).wf(),
            Self::add_edge_post(*old(self), caller, callee, allocation, *final(self)),
    {
        let bytes = allocation.bytes as u64;
        match graph_edge_weight(&self.graph, caller, callee) {
            Some(i) => {
                let b = self.slots[i].bytes;
                let sum = if b <= u64::MAX - bytes {
                    b + bytes
                } else {
                    u64::MAX
                };
                self.slots[i].bytes = sum;
                self.slots[i].locations.push(allocation.location);
                proof {
                    assert forall|j: int| 0 <= j < self.slots@.len() && j != i implies #[trigger] self.slots@[j] == old(self).slots@[j] by {}
                    assert(self.weights() =~= old(self).weights().insert((caller, callee), sum));
                    assert(self.locations() =~= old(self).locations().insert(
                        (caller, callee),
                        old(self).locations()[(caller, callee)].push(allocation.location),
                    ));
                }
            },
            None => {
                let i = self.slots.len();
                let mut locations = Vec::new();
                locations.push(allocation.location);
                self.slots.push(EdgeAllocations { caller, callee, bytes, locations });
                graph_add_edge(&mut self.graph, caller, callee, i);
                proof {
                    let g = graph_edges(self.graph);
                    let og = graph_edges(old(self).graph);
                    assert forall|k: (CallId, CallId)| g.dom().contains(k) && k != (caller, callee) implies g[k] == og[k] by {}
                    assert forall|n: CallId| graph_nodes(self.graph).contains(n) <==> exists|m: CallId|
                        g.dom().contains((n, m)) || g.dom().contains((m, n)) by {
                        if graph_nodes(old(self).graph).contains(n) {
                            let m = choose|m: CallId| og.dom().contains((n, m)) || og.dom().contains((m, n));
                            assert(g.dom().contains((n, m)) || g.dom().contains((m, n)));
                        }
                        if n == caller {
                            assert(g.dom().contains((caller, callee)));
                        }
                        if n == callee {
                            assert(g.dom().contains((caller, callee)));
                        }
                    }
                    assert(self.weights() =~= old(self).weights().insert((caller, callee), bytes));
                    assert(self.locations() =~= old(self).locations().insert(
                        (caller, callee),
                        Seq::empty().push(allocation.location),
                    ));
                }
            },
        }
    }
}


/// Two allocations on the same new edge from `a` to `b` add up: the edge
/// weighs their sum, and among the callers of `b` that a neighbour query
/// returns, `a` stands exactly once.
pub proof fn law_edge_aggregation(
    g0: CallGraph,
    a: CallId,
    b: CallId,
    x: Allocation,
    g1: CallGraph,
    y: Allocation,
    g2: CallGraph,
    callers: Seq<CallId>,
)
    requires
        !g0.weights().dom().contains((a, b)),
        x.bytes + y.bytes <= u64::MAX,
        CallGraph::add_edge_post(g0, a, b, x, g1),
        CallGraph::add_edge_post(g1, a, b, y, g2),
        callers.no_duplicates(),
        forall|n: CallId| callers.contains(n) <==> g2.weights().dom().contains((n, b)),
    ensures
        g2.weights()[(a, b)] == x.bytes + y.bytes,
        callers.contains(a),
        forall|i: int, j: int|
            0 <= i < callers.len() && 0 <= j < callers.len() && callers[i] == a && callers[j] == a
                ==> i == j,
{
    assert(g1.weights()[(a, b)] == x.bytes);
    assert(g2.weights().dom().contains((a, b)));
}

} // verus!
