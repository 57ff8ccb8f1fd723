//! Navigation over the call graph: the callers and the callees of the call
//! drilled into, heaviest first, and the history of calls drilled into.
use vstd::prelude::*;

use crate::graph::{CallGraph, Direction};
use crate::indexing::CallId;
use crate::navigable_selection::NavigableSelection;

verus! {

/// One edge of the call graph, as a list shows it.
#[derive(Debug, Clone, Copy, PartialEq, Eq, Structural)]
pub struct CallStack {
    pub caller_id: CallId,
    pub callee_id: CallId,
    pub allocated_bytes: u64,
}

pub type CallList = NavigableSelection<CallStack>;

/// `a` comes before `b` in a list: more bytes first, then by caller handle,
/// then by callee handle.
pub open spec fn comes_before(a: CallStack, b: CallStack) -> bool {
    ||| a.allocated_bytes > b.allocated_bytes
    ||| (a.allocated_bytes == b.allocated_bytes && a.caller_id < b.caller_id)
    ||| (a.allocated_bytes == b.allocated_bytes && a.caller_id == b.caller_id && a.callee_id
        < b.callee_id)
}

pub open spec fn sorted_stacks(s: Seq<CallStack>) -> bool {
    forall|i: int, j: int| 0 <= i < j < s.len() ==> comes_before(s[i], s[j])
}

/// `s` lists the edges of `edges`, each once, in list order.
pub open spec fn lists_edges(s: Seq<CallStack>, edges: Set<CallStack>) -> bool {
    &&& sorted_stacks(s)
    &&& forall|e: CallStack| s.contains(e) <==> edges.contains(e)
}

/// The edge from `caller` to `callee` as a list shows it.
pub open spec fn edge_of(g: CallGraph, caller: CallId, callee: CallId) -> CallStack {
    CallStack { caller_id: caller, callee_id: callee, allocated_bytes: g.weights()[(caller, callee)] }
}

/// The edges that end at `id`.
pub open spec fn edges_into(g: CallGraph, id: CallId) -> Set<CallStack> {
    Set::new(
        |e: CallStack|
            e.callee_id == id && g.weights().dom().contains((e.caller_id, id)) && e == edge_of(
                g,
                e.caller_id,
                id,
            ),
    )
}

/// The edges that start at `id`.
pub open spec fn edges_from(g: CallGraph, id: CallId) -> Set<CallStack> {
    Set::new(
        |e: CallStack|
            e.caller_id == id && g.weights().dom().contains((id, e.callee_id)) && e == edge_of(
                g,
                id,
                e.callee_id,
            ),
    )
}

/// The edges that start at a root of the graph.
pub open spec fn root_edges(g: CallGraph) -> Set<CallStack> {
    Set::new(
        |e: CallStack|
            g.is_root(e.caller_id) && g.weights().dom().contains((e.caller_id, e.callee_id))
                && e == edge_of(g, e.caller_id, e.callee_id),
    )
}

proof fn lemma_comes_before_total(a: CallStack, b: CallStack)
    ensures
        a != b ==> comes_before(a, b) || comes_before(b, a),
        !(comes_before(a, b) && comes_before(b, a)),
        !comes_before(a, a),
{
}

/// Inserts `e` into sorted `s` at the position where it belongs.
fn insert_sorted(s: &mut Vec<CallStack>, e: CallStack)
    requires
        sorted_stacks(old(s)@),
        !old(s)@.contains(e),
    ensures
        sorted_stacks(final(s)@),
        forall|x: CallStack| final(s)@.contains(x) <==> old(s)@.contains(x) || x == e,
        final(s)@.len() == old(s)@.len() + 1,
{
    let mut k: usize = 0;
    while k < s.len() && !before_exec(e, s[k])
        invariant
            sorted_stacks(s@),
            !s@.contains(e),
            k <= s@.len(),
            forall|m: int| 0 <= m < k ==> comes_before(#[trigger] s@[m], e),
        decreases s@.len() - k,
    {
        proof {
            lemma_comes_before_total(e, s@[k as int]);
            assert(s@.contains(s@[k as int]));
        }
        k = k + 1;
    }
    let ghost s0 = s@;
    s.insert(k, e);
    proof {
        assert forall|i: int, j: int| 0 <= i < j < s@.len() implies comes_before(s@[i], s@[j]) by {
            if j < k {
            } else if j == k {
            } else if i < k {
                assert(s@[j] == s0[j - 1]);
                if j - 1 > k {
                    assert(comes_before(s0[k as int], s0[j - 1]));
                }
                lemma_transitive(s0[i], e, s0[j - 1]);
            } else if i == k {
                assert(s@[j] == s0[j - 1]);
                if j - 1 > k {
                    assert(comes_before(s0[k as int], s0[j - 1]));
                    lemma_transitive(e, s0[k as int], s0[j - 1]);
                }
            } else {
                assert(s@[j] == s0[j - 1]);
                assert(s@[i] == s0[i - 1]);
            }
        }
        assert forall|x: CallStack| s@.contains(x) <==> s0.contains(x) || x == e by {
            if s@.contains(x) {
                let t = choose|t: int| 0 <= t < s@.len() && s@[t] == x;
                if t < k {
                    assert(s0[t] == x);
                } else if t > k {
                    assert(s0[t - 1] == x);
                }
            }
            if s0.contains(x) {
                let t = choose|t: int| 0 <= t < s0.len() && s0[t] == x;
                if t < k {
                    assert(s@[t] == x);
                } else {
                    assert(s@[t + 1] == x);
                }
            }
            if x == e {
                assert(s@[k as int] == e);
            }
        }
    }
}

proof fn lemma_transitive(a: CallStack, b: CallStack, c: CallStack)
    requires
        comes_before(a, b),
        comes_before(b, c),
    ensures
        comes_before(a, c),
{
}

fn before_exec(a: CallStack, b: CallStack) -> (r: bool)
    ensures
        r == comes_before(a, b),
{
    a.allocated_bytes > b.allocated_bytes || (a.allocated_bytes == b.allocated_bytes && (a.caller_id
        < b.caller_id || (a.caller_id == b.caller_id && a.callee_id < b.callee_id)))
}

/// The stacks of `v`, in list order.
pub fn sort_call_stacks(v: &Vec<CallStack>) -> (r: Vec<CallStack>)
    requires
        v@.no_duplicates(),
    ensures
        sorted_stacks(r@),
        forall|x: CallStack| r@.contains(x) <==> v@.contains(x),
        r@.len() == v@.len(),
{
    let mut r: Vec<CallStack> = Vec::new();
    let mut k: usize = 0;
    while k < v.len()
        invariant
            k <= v@.len(),
            v@.no_duplicates(),
            sorted_stacks(r@),
            r@.len() == k,
            forall|x: CallStack| r@.contains(x) <==> v@.take(k as int).contains(x),
        decreases v@.len() - k,
    {
        let ghost seen = v@.take(k as int);
        assert(v@.take(k + 1) == seen.push(v@[k as int]));
        proof {
            if seen.contains(v@[k as int]) {
                let t = choose|t: int| 0 <= t < seen.len() && seen[t] == v@[k as int];
                assert(v@[t] == v@[k as int]);
            }
            assert forall|x: CallStack| seen.push(v@[k as int]).contains(x) <==> seen.contains(x) || x
                == v@[k as int] by {
                if seen.push(v@[k as int]).contains(x) && x != v@[k as int] {
                    let t = choose|t: int| 0 <= t < seen.len() + 1 && seen.push(v@[k as int])[t] == x;
                    assert(seen[t] == x);
                }
                if seen.contains(x) {
                    let t = choose|t: int| 0 <= t < seen.len() && seen[t] == x;
                    assert(seen.push(v@[k as int])[t] == x);
                }
                if x == v@[k as int] {
                    assert(seen.push(v@[k as int])[k as int] == x);
                }
            }
        }
        insert_sorted(&mut r, v[k]);
        k = k + 1;
    }
    assert(v@.take(k as int) == v@);
    r
}

/// The list of `stacks`, sorted, with its first item selected.
pub fn new_call_list(stacks: &Vec<CallStack>) -> (r: CallList)
    requires
        stacks@.no_duplicates(),
    ensures
        r.wf(),
        sorted_stacks(r.spec_items()),
        forall|x: CallStack| r.spec_items().contains(x) <==> stacks@.contains(x),
        r.spec_selected() == CallList::initial_selection(r.spec_items().len()),
        r.spec_items().len() == stacks@.len(),
{
    NavigableSelection::new(sort_call_stacks(stacks))
}


/// Appends to `out` the edges between `id` and each of `others`: from them
/// to `id` (`incoming`) or from `id` to them.
fn push_edges(g: &CallGraph, id: CallId, others: &Vec<CallId>, incoming: bool, out: &mut Vec<CallStack>)
    requires
        g.wf(),
        forall|j: int|
            0 <= j < others@.len() ==> g.weights().dom().contains(
                if incoming {
                    (#[trigger] others@[j], id)
                } else {
                    (id, others@[j])
                },
            ),
    ensures
        final(out)@.len() == old(out)@.len() + others@.len(),
        final(out)@.take(old(out)@.len() as int) == old(out)@,
        forall|j: int|
            0 <= j < others@.len() ==> #[trigger] final(out)@[old(out)@.len() + j] == (if incoming {
                edge_of(*g, others@[j], id)
            } else {
                edge_of(*g, id, others@[j])
            }),
{
    let ghost start = out@;
    let mut k: usize = 0;
    while k < others.len()
        invariant
            g.wf(),
            k <= others@.len(),
            out@.len() == start.len() + k,
            out@.take(start.len() as int) == start,
            forall|j: int|
                0 <= j < others@.len() ==> g.weights().dom().contains(
                    if incoming {
                        (#[trigger] others@[j], id)
                    } else {
                        (id, others@[j])
                    },
                ),
            forall|j: int|
                0 <= j < k ==> #[trigger] out@[start.len() + j] == (if incoming {
                    edge_of(*g, others@[j], id)
                } else {
                    edge_of(*g, id, others@[j])
                }),
        decreases others@.len() - k,
    {
        let n = others[k];
        let (caller, callee) = if incoming {
            (n, id)
        } else {
            (id, n)
        };
        assert(g.weights().dom().contains((caller, callee)));
        let bytes = match g.edge_weight(caller, callee) {
            Some(w) => w,
            None => 0,
        };
        let ghost before = out@;
        out.push(CallStack { caller_id: caller, callee_id: callee, allocated_bytes: bytes });
        assert(out@.take(start.len() as int) =~= before.take(start.len() as int));
        assert forall|j: int| 0 <= j < k + 1 implies #[trigger] out@[start.len() + j] == (if incoming {
            edge_of(*g, others@[j], id)
        } else {
            edge_of(*g, id, others@[j])
        }) by {
            if j < k {
                assert(out@[start.len() + j] == before[start.len() + j]);
            }
        }
        k = k + 1;
    }
}

/// The edges into `id` (its callers) or out of it (its callees), as a list.
fn neighbour_list(g: &CallGraph, id: CallId, incoming: bool) -> (r: CallList)
    requires
        g.wf(),
    ensures
        r.wf(),
        lists_edges(
            r.spec_items(),
            if incoming {
                edges_into(*g, id)
            } else {
                edges_from(*g, id)
            },
        ),
        r.spec_selected() == CallList::initial_selection(r.spec_items().len()),
{
    let others = g.neighbors(
        id,
        if incoming {
            Direction::Incoming
        } else {
            Direction::Outgoing
        },
    );
    let mut stacks: Vec<CallStack> = Vec::new();
    proof {
        assert forall|j: int| 0 <= j < others@.len() implies g.weights().dom().contains(
            if incoming {
                (#[trigger] others@[j], id)
            } else {
                (id, others@[j])
            },
        ) by {
            assert(others@.contains(others@[j]));
        }
    }
    push_edges(g, id, &others, incoming, &mut stacks);
    proof {
        assert(stacks@.len() == others@.len());
        assert forall|i: int, j: int| 0 <= i < j < stacks@.len() implies stacks@[i] != stacks@[j] by {
            assert(stacks@[0 + i] == stacks@[i]);
            assert(stacks@[0 + j] == stacks@[j]);
        }
        let set = if incoming {
            edges_into(*g, id)
        } else {
            edges_from(*g, id)
        };
        assert forall|x: CallStack| stacks@.contains(x) <==> set.contains(x) by {
            if stacks@.contains(x) {
                let t = choose|t: int| 0 <= t < stacks@.len() && stacks@[t] == x;
                assert(stacks@[0 + t] == x);
                assert(others@.contains(others@[t]));
            }
            if set.contains(x) {
                let n = if incoming {
                    x.caller_id
                } else {
                    x.callee_id
                };
                assert(others@.contains(n));
                let t = choose|t: int| 0 <= t < others@.len() && others@[t] == n;
                assert(stacks@[0 + t] == x);
            }
        }
    }
    new_call_list(&stacks)
}

/// The edges out of the roots of the graph, as a list: where navigation
/// starts.
fn root_list(g: &CallGraph) -> (r: CallList)
    requires
        g.wf(),
    ensures
        r.wf(),
        lists_edges(r.spec_items(), root_edges(*g)),
        r.spec_selected() == CallList::initial_selection(r.spec_items().len()),
{
    let roots = g.roots();
    let mut stacks: Vec<CallStack> = Vec::new();
    let mut k: usize = 0;
    while k < roots.len()
        invariant
            g.wf(),
            k <= roots@.len(),
            roots@.no_duplicates(),
            forall|n: CallId| roots@.contains(n) <==> g.is_root(n),
            stacks@.no_duplicates(),
            forall|x: CallStack|
                #![trigger stacks@.contains(x)]
                stacks@.contains(x) <==> root_edges(*g).contains(x) && roots@.take(k as int).contains(x.caller_id),
        decreases roots@.len() - k,
    {
        let root = roots[k];
        let others = g.neighbors(root, Direction::Outgoing);
        let ghost before = stacks@;
        proof {
            assert forall|j: int| 0 <= j < others@.len() implies g.weights().dom().contains(
                if false {
                    (#[trigger] others@[j], root)
                } else {
                    (root, others@[j])
                },
            ) by {
                assert(others@.contains(others@[j]));
            }
        }
        push_edges(g, root, &others, false, &mut stacks);
        proof {
            let seen = roots@.take(k as int);
            assert(roots@.take(k + 1) == seen.push(root));
            assert(roots@.contains(roots@[k as int]));
            assert(!seen.contains(root)) by {
                if seen.contains(root) {
                    let t = choose|t: int| 0 <= t < seen.len() && seen[t] == root;
                    assert(roots@[t] == roots@[k as int]);
                }
            }
            assert forall|x: CallStack| #[trigger] stacks@.contains(x) <==> root_edges(*g).contains(x) && roots@.take(k + 1).contains(x.caller_id) by {
                if stacks@.contains(x) {
                    let t = choose|t: int| 0 <= t < stacks@.len() && stacks@[t] == x;
                    if t < before.len() {
                        assert(before[t] == x);
                        assert(before.contains(x));
                        let u = choose|u: int| 0 <= u < seen.len() && seen[u] == x.caller_id;
                        assert(seen.push(root)[u] == x.caller_id);
                    } else {
                        let j = t - before.len();
                        assert(stacks@[before.len() + j] == x);
                        assert(others@.contains(others@[j]));
                        assert(seen.push(root)[k as int] == root);
                    }
                }
                if root_edges(*g).contains(x) && seen.push(root).contains(x.caller_id) {
                    let u = choose|u: int| 0 <= u < seen.len() + 1 && seen.push(root)[u] == x.caller_id;
                    if u < seen.len() {
                        assert(seen[u] == x.caller_id);
                        assert(before.contains(x));
                        let t = choose|t: int| 0 <= t < before.len() && before[t] == x;
                        assert(stacks@.take(before.len() as int)[t] == x);
                        assert(stacks@[t] == x);
                    } else {
                        assert(x.caller_id == root);
                        assert(others@.contains(x.callee_id));
                        let j = choose|j: int| 0 <= j < others@.len() && others@[j] == x.callee_id;
                        assert(stacks@[before.len() + j] == x);
                    }
                }
            }
            assert forall|i: int, j: int| 0 <= i < j < stacks@.len() implies stacks@[i] != stacks@[j] by {
                if j < before.len() {
                    assert(stacks@.take(before.len() as int)[i] == before[i]);
                    assert(stacks@.take(before.len() as int)[j] == before[j]);
                } else if i < before.len() {
                    assert(stacks@.take(before.len() as int)[i] == before[i]);
                    assert(before.contains(before[i]));
                    let u = choose|u: int| 0 <= u < seen.len() && seen[u] == before[i].caller_id;
                    let jj = j - before.len();
                    assert(stacks@[before.len() + jj] == stacks@[j]);
                    assert(stacks@[j].caller_id == root);
                } else {
                    let ii = i - before.len();
                    let jj = j - before.len();
                    assert(stacks@[before.len() + ii] == stacks@[i]);
                    assert(stacks@[before.len() + jj] == stacks@[j]);
                }
            }
        }
        k = k + 1;
    }
    proof {
        assert(roots@.take(k as int) == roots@);
        assert forall|x: CallStack| stacks@.contains(x) <==> root_edges(*g).contains(x) by {
            if root_edges(*g).contains(x) {
                assert(roots@.contains(x.caller_id));
            }
        }
    }
    new_call_list(&stacks)
}


/// The callers and callees lists that navigation shows at `history`: those
/// of its last call, or the edges out of the roots when it is empty.
pub open spec fn shows_view(g: CallGraph, history: Seq<CallId>, callers: Seq<CallStack>, callees: Seq<CallStack>) -> bool {
    if history.len() == 0 {
        &&& callers.len() == 0
        &&& lists_edges(callees, root_edges(g))
    } else {
        &&& lists_edges(callers, edges_into(g, history.last()))
        &&& lists_edges(callees, edges_from(g, history.last()))
    }
}

/// Navigation over a call graph: the callers and callees of the current
/// call, which of the two lists is active, and the calls drilled into.
pub struct CallGraphController<'a> {
    call_graph: &'a CallGraph,
    callers: CallList,
    callees: CallList,
    callees_selected: bool,
    history: Vec<CallId>,
    /// For each call of `history`, the two lists, with their selections,
    /// that were shown when it was drilled into.
    saved: Vec<(CallList, CallList)>,
}

impl<'a> CallGraphController<'a> {
    pub closed spec fn graph(&self) -> CallGraph {
        *self.call_graph
    }

    pub closed spec fn callers(&self) -> CallList {
        self.callers
    }

    pub closed spec fn callees(&self) -> CallList {
        self.callees
    }

    pub closed spec fn callees_active(&self) -> bool {
        self.callees_selected
    }

    pub closed spec fn history(&self) -> Seq<CallId> {
        self.history@
    }

    /// For each call of the history, the callers and callees lists shown
    /// just before it was drilled into.
    pub closed spec fn saved(&self) -> Seq<(CallList, CallList)> {
        self.saved@
    }

    /// Each saved pair of lists is the view of the history before the call
    /// it goes with.
    pub open spec fn saved_ok(&self) -> bool {
        &&& self.saved().len() == self.history().len()
        &&& forall|k: int|
            0 <= k < self.saved().len() ==> {
                let (c, e) = #[trigger] self.saved()[k];
                &&& c.wf()
                &&& e.wf()
                &&& shows_view(self.graph(), self.history().take(k), c.spec_items(), e.spec_items())
            }
    }

    /// The active list.
    pub open spec fn active(&self) -> CallList {
        if self.callees_active() {
            self.callees()
        } else {
            self.callers()
        }
    }

    pub open spec fn wf(&self) -> bool {
        &&& self.graph().wf()
        &&& self.callers().wf()
        &&& self.callees().wf()
        &&& shows_view(self.graph(), self.history(), self.callers().spec_items(), self.callees().spec_items())
        &&& self.saved_ok()
    }

    /// Both lists show their first item selected, as after a recomputation.
    pub open spec fn selections_initial(&self) -> bool {
        &&& self.callers().spec_selected() == CallList::initial_selection(self.callers().spec_items().len())
        &&& self.callees().spec_selected() == CallList::initial_selection(self.callees().spec_items().len())
    }

    /// What `enter_selected` leaves.
    pub open spec fn enter_post(before: CallGraphController<'a>, after: CallGraphController<'a>) -> bool {
        match before.active().spec_selected() {
            Some(i) => {
                let e = before.active().spec_items()[i as int];
                &&& after.history() == before.history().push(
                    if before.callees_active() {
                        e.callee_id
                    } else {
                        e.caller_id
                    },
                )
                &&& after.saved() == before.saved().push((before.callers(), before.callees()))
                &&& after.selections_initial()
            },
            None => after == before,
        }
    }

    /// What `leave_current` leaves.
    /// On an empty history nothing changes; otherwise the last call is
    /// forgotten and the lists shown before it was drilled into come back,
    /// selections included.
    pub open spec fn leave_post(before: CallGraphController<'a>, after: CallGraphController<'a>) -> bool {
        if before.history().len() == 0 {
            after == before
        } else {
            &&& after.history() == before.history().drop_last()
            &&& after.saved() == before.saved().drop_last()
            &&& after.callers() == before.saved().last().0
            &&& after.callees() == before.saved().last().1
            &&& after.callees_active() == before.callees_active()
            &&& after.graph() == before.graph()
        }
    }

    /// Navigation at the roots of `call_graph`, the callees list active.
    pub fn new(call_graph: &'a CallGraph) -> (r: CallGraphController<'a>)
        requires
            call_graph.wf(),
        ensures
            r.wf(),
            r.graph() == *call_graph,
            r.history().len() == 0,
            r.saved().len() == 0,
            r.callees_active(),
            r.selections_initial(),
    {
        let callees = root_list(call_graph);
        CallGraphController {
            call_graph,
            callers: NavigableSelection::new(Vec::new()),
            callees,
            callees_selected: true,
            history: Vec::new(),
            saved: Vec::new(),
        }
    }

    /// Recomputes both lists for `history`.
    fn navigate(&mut self)
        requires
            old(self).graph().wf(),
            old(self).saved_ok(),
        ensures
            final(self).wf(),
            final(self).saved() == old(self).saved(),
            final(self).selections_initial(),
            final(self).graph() == old(self).graph(),
            final(self).history() == old(self).history(),
            final(self).callees_active() == old(self).callees_active(),
    {
        let n = self.history.len();
        if n == 0 {
            self.callers = NavigableSelection::new(Vec::new());
            self.callees = root_list(self.call_graph);
        } else {
            let id = self.history[n - 1];
            self.callers = neighbour_list(self.call_graph, id, true);
            self.callees = neighbour_list(self.call_graph, id, false);
        }
    }

    /// Drills into the selected edge of the active list: its callee when
    /// the callees list is active, its caller otherwise. Nothing happens
    /// when the active list has no selection.
    pub fn enter_selected(&mut self)
        requires
            old(self).wf(),
        ensures
            final(self).wf(),
            final(self).graph() == old(self).graph(),
            final(self).callees_active() == old(self).callees_active(),
            Self::enter_post(*old(self), *final(self)),
    {
        let target = match if self.callees_selected {
            self.callees.selected_item()
        } else {
            self.callers.selected_item()
        } {
            Some(stack) => Some(
                if self.callees_selected {
                    stack.callee_id
                } else {
                    stack.caller_id
                },
            ),
            None => None,
        };
        if let Some(id) = target {
            let ghost h0 = self.history@;
            let mut callers = NavigableSelection::new(Vec::new());
            let mut callees = NavigableSelection::new(Vec::new());
            core::mem::swap(&mut callers, &mut self.callers);
            core::mem::swap(&mut callees, &mut self.callees);
            self.saved.push((callers, callees));
            self.history.push(id);
            proof {
                assert(self.history@.take(h0.len() as int) =~= h0);
                assert forall|k: int| 0 <= k < self.saved@.len() implies {
                    let (c, e) = #[trigger] self.saved@[k];
                    &&& c.wf()
                    &&& e.wf()
                    &&& shows_view(*self.call_graph, self.history@.take(k), c.spec_items(), e.spec_items())
                } by {
                    if k < h0.len() {
                        assert(self.history@.take(k) =~= h0.take(k));
                    }
                }
            }
            self.navigate();
        }
    }

    /// Leaves the current call: forgets the last call drilled into and shows
    /// again the lists, with their selections, that were shown before it.
    /// Nothing happens on an empty history.
    pub fn leave_current(&mut self)
        requires
            old(self).wf(),
        ensures
            final(self).wf(),
            final(self).graph() == old(self).graph(),
            final(self).callees_active() == old(self).callees_active(),
            Self::leave_post(*old(self), *final(self)),
    {
        if self.history.len() == 0 {
            return;
        }
        let ghost h0 = self.history@;
        let ghost s0 = self.saved@;
        self.history.pop();
        match self.saved.pop() {
            Some((callers, callees)) => {
                self.callers = callers;
                self.callees = callees;
            },
            None => {},
        }
        proof {
            assert(h0.take(h0.len() - 1) =~= self.history@);
            assert forall|k: int| 0 <= k < self.saved@.len() implies {
                let (c, e) = #[trigger] self.saved@[k];
                &&& c.wf()
                &&& e.wf()
                &&& shows_view(*self.call_graph, self.history@.take(k), c.spec_items(), e.spec_items())
            } by {
                assert(self.saved@[k] == s0[k]);
                assert(self.history@.take(k) =~= h0.take(k));
            }
        }
    }

    /// Makes the callers list active, or drills into its selection when it
    /// already is.
    pub fn move_towards_callers(&mut self)
        requires
            old(self).wf(),
        ensures
            final(self).wf(),
            final(self).graph() == old(self).graph(),
            old(self).callees_active() ==> !final(self).callees_active() && final(self).history()
                == old(self).history() && final(self).callers() == old(self).callers()
                && final(self).callees() == old(self).callees() && final(self).saved() == old(self).saved(),
            !old(self).callees_active() ==> !final(self).callees_active() && Self::enter_post(
                *old(self),
                *final(self),
            ),
    {
        if self.callees_selected {
            self.callees_selected = false;
        } else {
            self.enter_selected();
        }
    }

    /// Makes the callees list active, or drills into its selection when it
    /// already is.
    pub fn move_towards_callees(&mut self)
        requires
            old(self).wf(),
        ensures
            final(self).wf(),
            final(self).graph() == old(self).graph(),
            !old(self).callees_active() ==> final(self).callees_active() && final(self).history()
                == old(self).history() && final(self).callers() == old(self).callers()
                && final(self).callees() == old(self).callees() && final(self).saved() == old(self).saved(),
            old(self).callees_active() ==> final(self).callees_active() && Self::enter_post(
                *old(self),
                *final(self),
            ),
    {
        if !self.callees_selected {
            self.callees_selected = true;
        } else {
            self.enter_selected();
        }
    }

    pub fn select_first(&mut self)
        requires
            old(self).wf(),
        ensures
            final(self).wf(),
            final(self).graph() == old(self).graph(),
            final(self).history() == old(self).history(),
            final(self).callees_active() == old(self).callees_active(),
            final(self).active().spec_items() == old(self).active().spec_items(),
            final(self).active().spec_selected() == CallList::initial_selection(
                old(self).active().spec_items().len(),
            ),
            old(self).callees_active() ==> final(self).callers() == old(self).callers(),
            !old(self).callees_active() ==> final(self).callees() == old(self).callees(),
    {
        if self.callees_selected {
            self.callees.select_first();
        } else {
            self.callers.select_first();
        }
    }

    pub fn select_last(&mut self)
        requires
            old(self).wf(),
        ensures
            final(self).wf(),
            final(self).graph() == old(self).graph(),
            final(self).history() == old(self).history(),
            final(self).callees_active() == old(self).callees_active(),
            final(self).active().spec_items() == old(self).active().spec_items(),
            final(self).active().spec_selected() == (if old(self).active().spec_items().len() > 0 {
                Some((old(self).active().spec_items().len() - 1) as usize)
            } else {
                None
            }),
            old(self).callees_active() ==> final(self).callers() == old(self).callers(),
            !old(self).callees_active() ==> final(self).callees() == old(self).callees(),
    {
        if self.callees_selected {
            self.callees.select_last();
        } else {
            self.callers.select_last();
        }
    }

    pub fn select_next(&mut self)
        requires
            old(self).wf(),
        ensures
            final(self).wf(),
            final(self).graph() == old(self).graph(),
            final(self).history() == old(self).history(),
            final(self).callees_active() == old(self).callees_active(),
            final(self).active().spec_items() == old(self).active().spec_items(),
            final(self).active().spec_selected() == old(self).active().nth_next(1),
            old(self).callees_active() ==> final(self).callers() == old(self).callers(),
            !old(self).callees_active() ==> final(self).callees() == old(self).callees(),
    {
        self.select_nth_next(1)
    }

    pub fn select_previous(&mut self)
        requires
            old(self).wf(),
        ensures
            final(self).wf(),
            final(self).graph() == old(self).graph(),
            final(self).history() == old(self).history(),
            final(self).callees_active() == old(self).callees_active(),
            final(self).active().spec_items() == old(self).active().spec_items(),
            final(self).active().spec_selected() == old(self).active().nth_previous(1),
            old(self).callees_active() ==> final(self).callers() == old(self).callers(),
            !old(self).callees_active() ==> final(self).callees() == old(self).callees(),
    {
        self.select_nth_previous(1)
    }

    pub fn select_nth_next(&mut self, n: usize)
        requires
            old(self).wf(),
        ensures
            final(self).wf(),
            final(self).graph() == old(self).graph(),
            final(self).history() == old(self).history(),
            final(self).callees_active() == old(self).callees_active(),
            final(self).active().spec_items() == old(self).active().spec_items(),
            final(self).active().spec_selected() == old(self).active().nth_next(n),
            old(self).callees_active() ==> final(self).callers() == old(self).callers(),
            !old(self).callees_active() ==> final(self).callees() == old(self).callees(),
    {
        if self.callees_selected {
            self.callees.select_nth_next(n);
        } else {
            self.callers.select_nth_next(n);
        }
    }

    pub fn select_nth_previous(&mut self, n: usize)
        requires
            old(self).wf(),
        ensures
            final(self).wf(),
            final(self).graph() == old(self).graph(),
            final(self).history() == old(self).history(),
            final(self).callees_active() == old(self).callees_active(),
            final(self).active().spec_items() == old(self).active().spec_items(),
            final(self).active().spec_selected() == old(self).active().nth_previous(n),
            old(self).callees_active() ==> final(self).callers() == old(self).callers(),
            !old(self).callees_active() ==> final(self).callees() == old(self).callees(),
    {
        if self.callees_selected {
            self.callees.select_nth_previous(n);
        } else {
            self.callers.select_nth_previous(n);
        }
    }

    /// The callees list, and whether it is the active one.
    pub fn callee_list(&self) -> (r: (&CallList, bool))
        ensures
            *r.0 == self.callees(),
            r.1 == self.callees_active(),
    {
        (&self.callees, self.callees_selected)
    }

    /// The callers list, and whether it is the active one.
    pub fn caller_list(&self) -> (r: (&CallList, bool))
        ensures
            *r.0 == self.callers(),
            r.1 == !self.callees_active(),
    {
        (&self.callers, !self.callees_selected)
    }

    pub fn select_callees(&mut self)
        requires
            old(self).wf(),
        ensures
            final(self).wf(),
            final(self).callees_active(),
            final(self).graph() == old(self).graph(),
            final(self).history() == old(self).history(),
            final(self).callers() == old(self).callers(),
            final(self).callees() == old(self).callees(),
    {
        self.callees_selected = true;
    }

    pub fn select_callers(&mut self)
        requires
            old(self).wf(),
        ensures
            final(self).wf(),
            !final(self).callees_active(),
            final(self).graph() == old(self).graph(),
            final(self).history() == old(self).history(),
            final(self).callers() == old(self).callers(),
            final(self).callees() == old(self).callees(),
    {
        self.callees_selected = false;
    }

    pub fn are_callees_selected(&self) -> (r: bool)
        ensures
            r == self.callees_active(),
    {
        self.callees_selected
    }

    pub fn are_callers_selected(&self) -> (r: bool)
        ensures
            r == !self.callees_active(),
    {
        !self.callees_selected
    }

    /// The calls drilled into, the current one last.
    pub fn current_history(&self) -> (r: &Vec<CallId>)
        ensures
            r@ == self.history(),
    {
        &self.history
    }
}


/// A list in list order is determined by the edges it holds.
pub proof fn lemma_sorted_unique(a: Seq<CallStack>, b: Seq<CallStack>)
    requires
        sorted_stacks(a),
        sorted_stacks(b),
        forall|x: CallStack| a.contains(x) <==> b.contains(x),
    ensures
        a == b,
    decreases a.len(),
{
    if a.len() == 0 {
        if b.len() > 0 {
            assert(b.contains(b[0]));
        }
        assert(a =~= b);
    } else {
        assert(a.contains(a[0]));
        assert(b.len() > 0);
        assert(b.contains(b[0]));
        let i = choose|i: int| 0 <= i < b.len() && b[i] == a[0];
        let j = choose|j: int| 0 <= j < a.len() && a[j] == b[0];
        if i > 0 {
            assert(comes_before(b[0], a[0]));
            if j > 0 {
                assert(comes_before(a[0], b[0]));
            }
            lemma_comes_before_total(a[0], b[0]);
        }
        assert(a[0] == b[0]);
        let a1 = a.drop_first();
        let b1 = b.drop_first();
        assert forall|x: CallStack| a1.contains(x) <==> b1.contains(x) by {
            if a1.contains(x) {
                let t = choose|t: int| 0 <= t < a1.len() && a1[t] == x;
                assert(a[t + 1] == x);
                assert(comes_before(a[0], a[t + 1]));
                lemma_comes_before_total(a[0], x);
                assert(b.contains(x));
                let u = choose|u: int| 0 <= u < b.len() && b[u] == x;
                assert(u != 0);
                assert(b1[u - 1] == x);
            }
            if b1.contains(x) {
                let t = choose|t: int| 0 <= t < b1.len() && b1[t] == x;
                assert(b[t + 1] == x);
                assert(comes_before(b[0], b[t + 1]));
                lemma_comes_before_total(b[0], x);
                assert(a.contains(x));
                let u = choose|u: int| 0 <= u < a.len() && a[u] == x;
                assert(u != 0);
                assert(a1[u - 1] == x);
            }
        }
        lemma_sorted_unique(a1, b1);
        assert(a =~= b1.insert(0, b[0]));
        assert(b =~= b1.insert(0, b[0]));
    }
}

/// Drilling into the selected edge and leaving right away brings back the
/// lists, their selections, the history and the active list of before,
/// whenever the active list had a selection to drill into.
pub proof fn law_enter_then_leave<'a>(
    c0: CallGraphController<'a>,
    c1: CallGraphController<'a>,
    c2: CallGraphController<'a>,
)
    requires
        c0.wf(),
        c0.active().spec_selected() is Some,
        CallGraphController::enter_post(c0, c1),
        CallGraphController::leave_post(c1, c2),
        c1.callees_active() == c0.callees_active(),
    ensures
        c2.history() == c0.history(),
        c2.saved() == c0.saved(),
        c2.callees_active() == c0.callees_active(),
        c2.callers() == c0.callers(),
        c2.callees() == c0.callees(),
        c2.callers().spec_selected() == c0.callers().spec_selected(),
        c2.callees().spec_selected() == c0.callees().spec_selected(),
{
    assert(c2.history() =~= c0.history());
    assert(c2.saved() =~= c0.saved());
}

/// Leaving with nothing drilled into changes nothing.
pub proof fn law_leave_at_roots<'a>(c0: CallGraphController<'a>, c1: CallGraphController<'a>)
    requires
        c0.history().len() == 0,
        CallGraphController::leave_post(c0, c1),
    ensures
        c1 == c0,
{
}

/// What navigation shows is a function of the graph and of the last call
/// of the history alone (the roots when it is empty): two well-formed
/// navigations over one graph whose histories end alike show the same lists.
pub proof fn law_view_follows_history<'a, 'b>(c1: CallGraphController<'a>, c2: CallGraphController<'b>)
    requires
        c1.wf(),
        c2.wf(),
        c1.graph() == c2.graph(),
        c1.history().len() == 0 <==> c2.history().len() == 0,
        c1.history().len() > 0 ==> c1.history().last() == c2.history().last(),
    ensures
        c1.callers().spec_items() == c2.callers().spec_items(),
        c1.callees().spec_items() == c2.callees().spec_items(),
{
    if c1.history().len() == 0 {
        assert(c1.callers().spec_items() =~= c2.callers().spec_items());
        lemma_sorted_unique(c1.callees().spec_items(), c2.callees().spec_items());
    } else {
        lemma_sorted_unique(c1.callers().spec_items(), c2.callers().spec_items());
        lemma_sorted_unique(c1.callees().spec_items(), c2.callees().spec_items());
    }
}

} // verus!
