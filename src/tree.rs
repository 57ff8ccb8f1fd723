//! Reconstruction of a snapshot's caller tree from its stream of
//! (caller, callee) pairs.
//!
//! The tree is an arena: nodes refer to their callers by position in it.
//! The callers of each node, and the roots, are kept sorted by call handle,
//! with no handle twice: a caller that comes back under the same node is
//! merged into the node it already has.
use vstd::prelude::*;

use crate::allocation::sat_add;
use crate::indexing::CallId;

verus! {

/// One node of a caller tree: a call, the bytes attributed to it at this
/// place of the tree, and the positions of its callers in the arena.
#[derive(Debug, Clone, PartialEq, Eq)]
pub struct TreeNode {
    pub id: CallId,
    pub bytes: u64,
    pub callers: Vec<usize>,
}

/// A forest of calls and their callers.
#[derive(Debug, Clone, PartialEq, Eq)]
pub struct CallerTree {
    pub nodes: Vec<TreeNode>,
    pub roots: Vec<usize>,
}

/// The call `caller` recurs into `callee`'s open ancestry.
#[derive(Debug, Clone, Copy, PartialEq, Eq, Structural)]
pub struct CycleDetected {
    pub caller: CallId,
    pub callee: CallId,
}

/// A frame of the reconstruction stack: a node whose callers may still grow.
#[derive(Debug, Clone, Copy, PartialEq, Eq, Structural)]
pub struct Frame {
    pub node: usize,
    pub open: bool,
}

/// `links` point into an arena of `n` nodes, and the handles of the nodes
/// they point to strictly increase.
pub open spec fn sorted_links(nodes: Seq<TreeNode>, links: Seq<usize>) -> bool {
    &&& forall|k: int| 0 <= k < links.len() ==> #[trigger] links[k] < nodes.len()
    &&& forall|i: int, j: int|
        0 <= i < j < links.len() ==> nodes[links[i] as int].id < nodes[links[j] as int].id
}

impl CallerTree {
    /// Every link points into the arena, and each sibling set holds no
    /// handle twice, in increasing order.
    pub open spec fn wf(&self) -> bool {
        &&& sorted_links(self.nodes@, self.roots@)
        &&& forall|n: int|
            0 <= n < self.nodes@.len() ==> sorted_links(
                self.nodes@,
                #[trigger] self.nodes@[n].callers@,
            )
    }

    /// `c` is a direct caller of `n` in the tree.
    pub open spec fn has_link(&self, n: int, c: int) -> bool {
        0 <= n < self.nodes@.len() && 0 <= c < self.nodes@.len() && self.nodes@[n].callers@.contains(
            c as usize,
        )
    }

    /// The (caller, callee) pairs of handles that the tree links.
    pub open spec fn link_pairs(&self) -> Set<(CallId, CallId)> {
        Set::new(
            |p: (CallId, CallId)|
                exists|n: int, c: int|
                    #![trigger self.has_link(n, c)]
                    self.has_link(n, c) && self.nodes@[c].id == p.0 && self.nodes@[n].id == p.1,
        )
    }

    pub fn new() -> (r: CallerTree)
        ensures
            r.wf(),
            r.nodes@.len() == 0,
            r.roots@.len() == 0,
    {
        CallerTree { nodes: Vec::new(), roots: Vec::new() }
    }

    /// The node of handle `id` among the roots (no `parent`) or among the
    /// callers of `parent`, added when there is none yet.
    fn attach(&mut self, parent: Option<usize>, id: CallId) -> (r: usize)
        requires
            old(self).wf(),
            parent is Some ==> parent.unwrap() < old(self).nodes@.len(),
        ensures
            final(self).wf(),
            r < final(self).nodes@.len(),
            final(self).nodes@[r as int].id == id,
            match parent {
                Some(p) => final(self).has_link(p as int, r as int) && final(self).roots == old(
                    self,
                ).roots,
                None => final(self).roots@.contains(r),
            },
            old(self).nodes@.len() <= final(self).nodes@.len(),
            forall|i: int|
                0 <= i < old(self).nodes@.len() ==> #[trigger] final(self).nodes@[i].id == old(
                    self,
                ).nodes@[i].id && final(self).nodes@[i].bytes == old(self).nodes@[i].bytes,
            r >= old(self).nodes@.len() ==> final(self).nodes@[r as int].bytes == 0,
            final(self).nodes@.len() == old(self).nodes@.len() || (final(self).nodes@.len() == old(
                self,
            ).nodes@.len() + 1 && r == old(self).nodes@.len()),
            final(self).link_pairs() == match parent {
                Some(p) => old(self).link_pairs().insert((id, old(self).nodes@[p as int].id)),
                None => old(self).link_pairs(),
            },
            forall|n: int, c: int|
                #![trigger final(self).has_link(n, c)]
                final(self).has_link(n, c) <==> old(self).has_link(n, c) || (r >= old(self).nodes@.len()
                    && parent == Some(n as usize) && 0 <= n < old(self).nodes@.len() && c == r),
            forall|c: usize|
                #![trigger final(self).roots@.contains(c)]
                final(self).roots@.contains(c) <==> old(self).roots@.contains(c) || (r >= old(
                    self,
                ).nodes@.len() && parent is None && c == r),
    {
        let (pos, found) = match parent {
            Some(p) => find_link(&self.nodes, &self.nodes[p].callers, id),
            None => find_link(&self.nodes, &self.roots, id),
        };
        if found {
            let r = match parent {
                Some(p) => self.nodes[p].callers[pos],
                None => self.roots[pos],
            };
            proof {
                if let Some(p) = parent {
                    assert(self.has_link(p as int, r as int));
                    assert(self.link_pairs().contains((id, self.nodes@[p as int].id)));
                    assert(self.link_pairs() =~= self.link_pairs().insert((id, self.nodes@[p as int].id)));
                }
            }
            return r;
        }
        let ghost old_tree = *self;
        let m = self.nodes.len();
        self.nodes.push(TreeNode { id, bytes: 0, callers: Vec::new() });
        proof {
            lemma_push_keeps_sorted(old_tree.nodes@, old_tree.roots@, self.nodes@[m as int]);
            assert forall|n: int| 0 <= n < self.nodes@.len() implies sorted_links(
                self.nodes@,
                #[trigger] self.nodes@[n].callers@,
            ) by {
                if n < m {
                    lemma_push_keeps_sorted(old_tree.nodes@, old_tree.nodes@[n].callers@, self.nodes@[m as int]);
                }
            }
        }
        match parent {
            Some(p) => {
                let ghost before = self.nodes@[p as int].callers@;
                let ghost pushed = *self;
                proof {
                    lemma_insert_link(self.nodes@, before, pos as int, m);
                }
                self.nodes[p].callers.insert(pos, m);
                assert(self.nodes@[p as int].callers@ == before.insert(pos as int, m));
                proof {
                    lemma_wf_after_update(pushed, *self, p as int);
                }
            },
            None => {
                proof {
                    lemma_insert_link(self.nodes@, self.roots@, pos as int, m);
                }
                self.roots.insert(pos, m);
            },
        }
        proof {
            assert(self.nodes@[m as int].id == id);
            if let Some(p) = parent {
                assert(self.nodes@[p as int].callers@[pos as int] == m);
                assert(self.has_link(p as int, m as int));
                let pair = (id, old_tree.nodes@[p as int].id);
                assert forall|q: (CallId, CallId)| #[trigger] self.link_pairs().contains(q) implies old_tree.link_pairs().insert(pair).contains(q) by {
                    let (n, c) = choose|n: int, c: int| #![trigger self.has_link(n, c)] self.has_link(n, c) && self.nodes@[c].id == q.0 && self.nodes@[n].id == q.1;
                    if n == p && c == m {
                    } else if n == p {
                        let k = choose|k: int| 0 <= k < self.nodes@[n].callers@.len() && self.nodes@[n].callers@[k] == c as usize;
                        if k < pos {
                            assert(old_tree.nodes@[n].callers@[k] == c as usize);
                        } else {
                            assert(self.nodes@[n].callers@[pos as int] == m);
                            assert(k != pos);
                            assert(old_tree.nodes@[n].callers@[k - 1] == c as usize);
                        }
                        assert(old_tree.has_link(n, c));
                        assert(c < old_tree.nodes@.len());
                    } else {
                        assert(n < m);
                        assert(old_tree.has_link(n, c));
                        assert(c < old_tree.nodes@.len());
                    }
                }
                assert forall|q: (CallId, CallId)| old_tree.link_pairs().insert(pair).contains(q) implies #[trigger] self.link_pairs().contains(q) by {
                    if q == pair {
                        assert(self.has_link(p as int, m as int));
                    } else {
                        let (n, c) = choose|n: int, c: int| #![trigger old_tree.has_link(n, c)] old_tree.has_link(n, c) && old_tree.nodes@[c].id == q.0 && old_tree.nodes@[n].id == q.1;
                        assert(c < old_tree.nodes@.len());
                        if n == p {
                            let k = choose|k: int| 0 <= k < old_tree.nodes@[n].callers@.len() && old_tree.nodes@[n].callers@[k] == c as usize;
                            if k < pos {
                                assert(self.nodes@[n].callers@[k] == c as usize);
                            } else {
                                assert(self.nodes@[n].callers@[k + 1] == c as usize);
                            }
                        } else {
                            assert(self.nodes@[n].callers@ == old_tree.nodes@[n].callers@);
                        }
                        assert(self.has_link(n, c));
                    }
                }
                assert(self.link_pairs() =~= old_tree.link_pairs().insert(pair));
            } else {
                assert(self.roots@[pos as int] == m);
                assert forall|q: (CallId, CallId)| #[trigger] self.link_pairs().contains(q) implies old_tree.link_pairs().contains(q) by {
                    let (n, c) = choose|n: int, c: int| #![trigger self.has_link(n, c)] self.has_link(n, c) && self.nodes@[c].id == q.0 && self.nodes@[n].id == q.1;
                    assert(n < m);
                    assert(old_tree.has_link(n, c));
                    assert(c < old_tree.nodes@.len());
                }
                assert forall|q: (CallId, CallId)| old_tree.link_pairs().contains(q) implies #[trigger] self.link_pairs().contains(q) by {
                    let (n, c) = choose|n: int, c: int| #![trigger old_tree.has_link(n, c)] old_tree.has_link(n, c) && old_tree.nodes@[c].id == q.0 && old_tree.nodes@[n].id == q.1;
                    assert(c < old_tree.nodes@.len());
                    assert(self.has_link(n, c));
                }
                assert(self.link_pairs() =~= old_tree.link_pairs());
            }
        }
        proof {
            lemma_attach_links(old_tree, *self, parent, pos as int, m);
        }
        m
    }
}


/// The bytes of the calls of `placed` that landed in node `n`, summed
/// (saturating).
pub open spec fn bytes_at(placed: Seq<(usize, u64)>, n: int) -> u64
    decreases placed.len(),
{
    if placed.len() == 0 {
        0
    } else if placed.last().0 == n {
        sat_add(bytes_at(placed.drop_last(), n), placed.last().1 as int)
    } else {
        bytes_at(placed.drop_last(), n)
    }
}

/// Attaching a node keeps each node's bytes equal to the bytes placed in it.
proof fn lemma_bytes_after_attach(a: CallerTree, b: CallerTree, placed: Seq<(usize, u64)>, r: usize)
    requires
        forall|i: int| 0 <= i < placed.len() ==> (#[trigger] placed[i]).0 < a.nodes@.len(),
        forall|n: int| 0 <= n < a.nodes@.len() ==> (#[trigger] a.nodes@[n]).bytes == bytes_at(placed, n),
        forall|i: int| #![trigger b.nodes@[i]] 0 <= i < a.nodes@.len() ==> b.nodes@[i].id == a.nodes@[i].id && b.nodes@[i].bytes == a.nodes@[i].bytes,
        b.nodes@.len() == a.nodes@.len() || (b.nodes@.len() == a.nodes@.len() + 1 && r == a.nodes@.len()),
        r >= a.nodes@.len() ==> b.nodes@[r as int].bytes == 0,
    ensures
        forall|i: int| 0 <= i < placed.len() ==> (#[trigger] placed[i]).0 < b.nodes@.len(),
        forall|n: int| 0 <= n < b.nodes@.len() ==> (#[trigger] b.nodes@[n]).bytes == bytes_at(placed, n),
{
    assert forall|n: int| 0 <= n < b.nodes@.len() implies (#[trigger] b.nodes@[n]).bytes == bytes_at(placed, n) by {
        if n < a.nodes@.len() {
            assert(b.nodes@[n].id == a.nodes@[n].id && b.nodes@[n].bytes == a.nodes@[n].bytes);
            assert(a.nodes@[n].bytes == bytes_at(placed, n));
        } else {
            assert(n == r as int);
            assert forall|i: int| 0 <= i < placed.len() implies (#[trigger] placed[i]).0 != n by {
                assert(placed[i].0 < a.nodes@.len());
            }
            lemma_bytes_at_none(placed, n);
        }
    }
}

proof fn lemma_bytes_at_none(placed: Seq<(usize, u64)>, n: int)
    requires
        forall|i: int| 0 <= i < placed.len() ==> (#[trigger] placed[i]).0 != n,
    ensures
        bytes_at(placed, n) == 0,
    decreases placed.len(),
{
    if placed.len() > 0 {
        assert(placed.last() == placed[placed.len() - 1]);
        assert forall|i: int| 0 <= i < placed.drop_last().len() implies (#[trigger] placed.drop_last()[i]).0 != n by {
            assert(placed.drop_last()[i] == placed[i]);
        }
        lemma_bytes_at_none(placed.drop_last(), n);
    }
}

/// `b` keeps every node, handle, link and root of `a`.
pub open spec fn tree_grows(a: CallerTree, b: CallerTree) -> bool {
    &&& a.nodes@.len() <= b.nodes@.len()
    &&& forall|i: int| 0 <= i < a.nodes@.len() ==> (#[trigger] b.nodes@[i]).id == a.nodes@[i].id
    &&& forall|n: int, c: int| #![trigger b.has_link(n, c)] a.has_link(n, c) ==> b.has_link(n, c)
    &&& forall|c: usize| #![trigger b.roots@.contains(c)] a.roots@.contains(c) ==> b.roots@.contains(c)
}

/// The trees that `attach` and byte updates produce grow.
proof fn lemma_tree_grows(a: CallerTree, b: CallerTree)
    requires
        a.nodes@.len() <= b.nodes@.len(),
        forall|i: int| #![trigger b.nodes@[i]] 0 <= i < a.nodes@.len() ==> b.nodes@[i].id == a.nodes@[i].id,
        forall|n: int, c: int| #![trigger b.has_link(n, c)] a.has_link(n, c) ==> b.has_link(n, c),
        forall|c: usize| #![trigger b.roots@.contains(c)] a.roots@.contains(c) ==> b.roots@.contains(c),
    ensures
        tree_grows(a, b),
{
}

proof fn lemma_tree_grows_trans(a: CallerTree, b: CallerTree, c: CallerTree)
    requires
        tree_grows(a, b),
        tree_grows(b, c),
    ensures
        tree_grows(a, c),
{
    assert forall|i: int| 0 <= i < a.nodes@.len() implies (#[trigger] c.nodes@[i]).id == a.nodes@[i].id by {
        assert(b.nodes@[i].id == a.nodes@[i].id);
    }
    assert forall|n: int, x: int| #![trigger c.has_link(n, x)] a.has_link(n, x) implies c.has_link(n, x) by {
        assert(b.has_link(n, x));
    }
    assert forall|x: usize| #![trigger c.roots@.contains(x)] a.roots@.contains(x) implies c.roots@.contains(x) by {
        assert(b.roots@.contains(x));
    }
}

/// `parent` gives each node of `t` the node it hangs under, or none for a
/// root; a node comes after the node it hangs under in the arena.
pub open spec fn forest_by(t: CallerTree, parent: Seq<Option<usize>>) -> bool {
    &&& parent.len() == t.nodes@.len()
    &&& forall|n: int, c: int|
        #![trigger t.has_link(n, c)]
        t.has_link(n, c) <==> (0 <= c < parent.len() && 0 <= n < parent.len() && parent[c] == Some(
            n as usize,
        ))
    &&& forall|c: usize| #![trigger t.roots@.contains(c)] t.roots@.contains(c) <==> (c < parent.len() && parent[c as int] is None)
    &&& forall|c: int| 0 <= c < parent.len() && (#[trigger] parent[c]) is Some ==> parent[c].unwrap() < c
}

/// Every node of `t` is a root or the caller of exactly one node before it
/// in the arena: `t` is a forest.
pub open spec fn is_forest(t: CallerTree) -> bool {
    exists|parent: Seq<Option<usize>>| #[trigger] forest_by(t, parent)
}

proof fn lemma_forest_attach(old_tree: CallerTree, t: CallerTree, parent: Option<usize>, r: usize, par: Seq<Option<usize>>)
    requires
        forest_by(old_tree, par),
        parent is Some ==> parent.unwrap() < old_tree.nodes@.len(),
        t.nodes@.len() == old_tree.nodes@.len() || (t.nodes@.len() == old_tree.nodes@.len() + 1 && r
            == old_tree.nodes@.len()),
        r < t.nodes@.len(),
        forall|n: int, c: int|
            #![trigger t.has_link(n, c)]
            t.has_link(n, c) <==> old_tree.has_link(n, c) || (r >= old_tree.nodes@.len() && parent == Some(
                n as usize,
            ) && 0 <= n < old_tree.nodes@.len() && c == r),
        forall|c: usize|
            #![trigger t.roots@.contains(c)]
            t.roots@.contains(c) <==> old_tree.roots@.contains(c) || (r >= old_tree.nodes@.len() && parent is None
                && c == r),
    ensures
        forest_by(t, if r >= old_tree.nodes@.len() { par.push(parent) } else { par }),
{
    let np = if r >= old_tree.nodes@.len() { par.push(parent) } else { par };
    assert forall|n: int, c: int| #![trigger t.has_link(n, c)] t.has_link(n, c) <==> (0 <= c < np.len() && 0 <= n < np.len() && np[c] == Some(n as usize)) by {
        if 0 <= c < par.len() {
            assert(np[c] == par[c]);
        }
        if old_tree.has_link(n, c) {
            assert(c < par.len());
        }
    }
    assert forall|c: usize| #![trigger t.roots@.contains(c)] t.roots@.contains(c) <==> (c < np.len() && np[c as int] is None) by {
        if c < par.len() {
            assert(np[c as int] == par[c as int]);
        }
    }
    assert forall|c: int| 0 <= c < np.len() && (#[trigger] np[c]) is Some implies np[c].unwrap() < c by {
        if c < par.len() {
            assert(np[c] == par[c]);
        }
    }
}

proof fn lemma_forest_same_links(a: CallerTree, b: CallerTree, par: Seq<Option<usize>>)
    requires
        forest_by(a, par),
        a.nodes@.len() == b.nodes@.len(),
        a.roots@ == b.roots@,
        forall|i: int| 0 <= i < a.nodes@.len() ==> (#[trigger] a.nodes@[i]).callers@ == b.nodes@[i].callers@,
    ensures
        forest_by(b, par),
{
    assert forall|n: int, c: int| #![trigger b.has_link(n, c)] b.has_link(n, c) <==> a.has_link(n, c) by {
        if 0 <= n < a.nodes@.len() {
            assert(a.nodes@[n].callers@ == b.nodes@[n].callers@);
        }
    }
}

/// How the links of a tree change when node `m` is added under `parent`
/// (or as a root) at position `pos`.
proof fn lemma_attach_links(old_tree: CallerTree, t: CallerTree, parent: Option<usize>, pos: int, m: usize)
    requires
        old_tree.wf(),
        m == old_tree.nodes@.len(),
        t.nodes@.len() == m + 1,
        t.nodes@[m as int].callers@.len() == 0,
        forall|i: int| 0 <= i < m && parent != Some(i as usize) ==> (#[trigger] t.nodes@[i]).callers@ == old_tree.nodes@[i].callers@,
        parent matches Some(p) ==> p < m && 0 <= pos <= old_tree.nodes@[p as int].callers@.len() && t.nodes@[p as int].callers@
            == old_tree.nodes@[p as int].callers@.insert(pos, m) && t.roots@ == old_tree.roots@,
        parent is None ==> 0 <= pos <= old_tree.roots@.len() && t.roots@ == old_tree.roots@.insert(pos, m),
    ensures
        forall|n: int, c: int|
            #![trigger t.has_link(n, c)]
            t.has_link(n, c) <==> old_tree.has_link(n, c) || (parent == Some(n as usize) && 0 <= n < m && c == m),
        forall|c: usize|
            #![trigger t.roots@.contains(c)]
            t.roots@.contains(c) <==> old_tree.roots@.contains(c) || (parent is None && c == m),
{
        assert forall|n: int, c: int| #![trigger t.has_link(n, c)] t.has_link(n, c) <==> old_tree.has_link(n, c)
            || (parent == Some(n as usize) && 0 <= n < m && c == m) by {
            if t.has_link(n, c) && !(parent == Some(n as usize) && 0 <= n < m && c == m) {
                if parent == Some(n as usize) && n < m {
                    assert(n == parent.unwrap() as int);
                    let k = choose|k: int| 0 <= k < t.nodes@[n].callers@.len() && t.nodes@[n].callers@[k] == c as usize;
                    assert(t.nodes@[n].callers@[pos as int] == m);
                    if k < pos {
                        assert(old_tree.nodes@[n].callers@[k] == c as usize);
                    } else {
                        assert(old_tree.nodes@[n].callers@[k - 1] == c as usize);
                    }
                } else {
                    assert(n < m);
                    assert(t.nodes@[n].callers@ == old_tree.nodes@[n].callers@);
                }
                assert(c < m) by {
                    assert(sorted_links(old_tree.nodes@, old_tree.nodes@[n].callers@));
                }
            }
            if old_tree.has_link(n, c) {
                if parent == Some(n as usize) {
                    assert(n == parent.unwrap() as int);
                    let k = choose|k: int| 0 <= k < old_tree.nodes@[n].callers@.len() && old_tree.nodes@[n].callers@[k] == c as usize;
                    if k < pos {
                        assert(t.nodes@[n].callers@[k] == c as usize);
                    } else {
                        assert(t.nodes@[n].callers@[k + 1] == c as usize);
                    }
                } else {
                    assert(t.nodes@[n].callers@ == old_tree.nodes@[n].callers@);
                }
            }
            if parent == Some(n as usize) && 0 <= n < m && c == m {
                assert(n == parent.unwrap() as int);
                assert(t.nodes@[n].callers@[pos as int] == m);
            }
        }
        assert forall|c: usize| #![trigger t.roots@.contains(c)] t.roots@.contains(c) <==> old_tree.roots@.contains(c)
            || (parent is None && c == m) by {
            if parent is None {
                if t.roots@.contains(c) && c != m {
                    let k = choose|k: int| 0 <= k < t.roots@.len() && t.roots@[k] == c;
                    if k < pos {
                        assert(old_tree.roots@[k] == c);
                    } else {
                        assert(k != pos);
                        assert(old_tree.roots@[k - 1] == c);
                    }
                }
                if old_tree.roots@.contains(c) {
                    let k = choose|k: int| 0 <= k < old_tree.roots@.len() && old_tree.roots@[k] == c;
                    if k < pos {
                        assert(t.roots@[k] == c);
                    } else {
                        assert(t.roots@[k + 1] == c);
                    }
                }
                if c == m {
                    assert(t.roots@[pos as int] == m);
                }
            }
        }
    }

/// Position of the topmost frame of `stack` whose node has handle `id`; -1
/// when there is none.
pub open spec fn last_frame_with(stack: Seq<Frame>, nodes: Seq<TreeNode>, id: CallId) -> int
    decreases stack.len(),
{
    if stack.len() == 0 {
        -1
    } else if nodes[stack.last().node as int].id == id {
        stack.len() - 1
    } else {
        last_frame_with(stack.drop_last(), nodes, id)
    }
}

/// Some open frame of `stack` holds a node of handle `id`.
pub open spec fn is_open(stack: Seq<Frame>, nodes: Seq<TreeNode>, id: CallId) -> bool {
    exists|k: int| 0 <= k < stack.len() && #[trigger] stack[k].open && nodes[stack[k].node as int].id == id
}

/// The stack of frames as (call, open) pairs.
pub open spec fn frames_of(stack: Seq<Frame>, nodes: Seq<TreeNode>) -> Seq<(CallId, bool)> {
    stack.map_values(|f: Frame| (nodes[f.node as int].id, f.open))
}

/// Position of the topmost entry of `st` for `id`; -1 when there is none.
pub open spec fn last_with<T>(st: Seq<(T, bool)>, id: T) -> int
    decreases st.len(),
{
    if st.len() == 0 {
        -1
    } else if st.last().0 == id {
        st.len() - 1
    } else {
        last_with(st.drop_last(), id)
    }
}

/// Some open entry of `st` is for `id`.
pub open spec fn open_in<T>(st: Seq<(T, bool)>, id: T) -> bool {
    exists|k: int| 0 <= k < st.len() && #[trigger] st[k].1 && st[k].0 == id
}

/// The stack after the pair (`caller`, `callee`) when no cycle is found:
/// the entries above the topmost one of `callee` are closed, a new open
/// root for `callee` starts when there is none, and `caller` is pushed,
/// not open.
pub open spec fn frames_after_call<T>(st: Seq<(T, bool)>, caller: T, callee: T) -> Seq<(T, bool)> {
    let k = last_with(st, callee);
    if k >= 0 {
        st.take(k + 1).push((caller, false))
    } else {
        seq![(callee, true), (caller, false)]
    }
}

proof fn lemma_frames_last(stack: Seq<Frame>, nodes: Seq<TreeNode>, id: CallId)
    ensures
        last_frame_with(stack, nodes, id) == last_with(frames_of(stack, nodes), id),
        is_open(stack, nodes, id) == open_in(frames_of(stack, nodes), id),
    decreases stack.len(),
{
    let f = frames_of(stack, nodes);
    if stack.len() > 0 {
        assert(frames_of(stack.drop_last(), nodes) =~= f.drop_last());
        lemma_frames_last(stack.drop_last(), nodes, id);
    }
    if is_open(stack, nodes, id) {
        let k = choose|k: int| 0 <= k < stack.len() && #[trigger] stack[k].open && nodes[stack[k].node as int].id == id;
        assert(f[k].1);
    }
    if open_in(f, id) {
        let k = choose|k: int| 0 <= k < f.len() && #[trigger] f[k].1 && f[k].0 == id;
        assert(stack[k].open);
    }
}

/// Rebuilds a caller tree from a stream of (caller, callee) pairs, in the
/// order of a pre-order walk of the tree.
pub struct CallerTreeBuilder {
    tree: CallerTree,
    stack: Vec<Frame>,
    pairs: Ghost<Set<(CallId, CallId)>>,
    parent: Ghost<Seq<Option<usize>>>,
    placed: Ghost<Seq<(usize, u64)>>,
}

impl CallerTreeBuilder {
    pub closed spec fn tree(&self) -> CallerTree {
        self.tree
    }

    pub closed spec fn stack(&self) -> Seq<Frame> {
        self.stack@
    }

    /// `after` keeps every node, handle, link and root of `before`.
    pub open spec fn grows(before: CallerTreeBuilder, after: CallerTreeBuilder) -> bool {
        tree_grows(before.tree(), after.tree())
    }

    /// Each node's bytes are those of the calls placed in it, and every call
    /// was placed in a node.
    pub proof fn lemma_placed(&self)
        requires
            self.wf(),
        ensures
            forall|i: int| 0 <= i < self.placed().len() ==> (#[trigger] self.placed()[i]).0 < self.tree().nodes@.len(),
            forall|n: int| 0 <= n < self.tree().nodes@.len() ==> (#[trigger] self.tree().nodes@[n]).bytes == bytes_at(self.placed(), n),
    {
    }

    /// For each call added so far, the node it landed in and its bytes.
    pub closed spec fn placed(&self) -> Seq<(usize, u64)> {
        self.placed@
    }

    /// The frames as (call, open) pairs, bottom first.
    pub open spec fn frames(&self) -> Seq<(CallId, bool)> {
        frames_of(self.stack(), self.tree().nodes@)
    }

    /// The (caller, callee) pairs added so far.
    pub closed spec fn pairs(&self) -> Set<(CallId, CallId)> {
        self.pairs@
    }

    pub closed spec fn wf(&self) -> bool {
        &&& self.tree.wf()
        &&& forall|k: int| 0 <= k < self.stack@.len() ==> #[trigger] self.stack@[k].node < self.tree.nodes@.len()
        &&& self.tree.link_pairs() == self.pairs@
        &&& forest_by(self.tree, self.parent@)
        &&& forall|i: int| 0 <= i < self.placed@.len() ==> (#[trigger] self.placed@[i]).0 < self.tree.nodes@.len()
        &&& forall|n: int| 0 <= n < self.tree.nodes@.len() ==> (#[trigger] self.tree.nodes@[n]).bytes == bytes_at(self.placed@, n)
    }

    pub fn new() -> (r: CallerTreeBuilder)
        ensures
            r.wf(),
            r.stack().len() == 0,
            r.tree().nodes@.len() == 0,
            r.pairs() == Set::<(CallId, CallId)>::empty(),
            r.placed().len() == 0,
    {
        let tree = CallerTree::new();
        proof {
            assert(tree.link_pairs() =~= Set::<(CallId, CallId)>::empty());
        }
        CallerTreeBuilder { tree, stack: Vec::new(), pairs: Ghost(Set::empty()), parent: Ghost(Seq::empty()), placed: Ghost(Seq::empty()) }
    }

    /// What a call of `add_call` leaves.
    pub open spec fn add_call_post(
        before: CallerTreeBuilder,
        caller: CallId,
        callee: CallId,
        bytes: u64,
        after: CallerTreeBuilder,
        r: Result<(), CycleDetected>,
    ) -> bool {
        let nodes = before.tree().nodes@;
        let k = last_frame_with(before.stack(), nodes, callee);
        let s = after.stack();
        let top = s.last().node as int;
        if is_open(before.stack(), nodes, caller) {
            &&& r == Err::<(), CycleDetected>(CycleDetected { caller, callee })
            &&& after == before
        } else {
            &&& r is Ok
            &&& after.pairs() == before.pairs().insert((caller, callee))
            &&& s.len() >= 2
            &&& !s.last().open
            &&& after.tree().nodes@[top].id == caller
            &&& after.tree().nodes@[s[s.len() - 2].node as int].id == callee
            &&& after.tree().has_link(s[s.len() - 2].node as int, top)
            &&& after.tree().nodes@[top].bytes == sat_add(
                if top < nodes.len() {
                    nodes[top].bytes
                } else {
                    0
                },
                bytes as int,
            )
            &&& k >= 0 ==> s.drop_last() == before.stack().take(k + 1)
            &&& k < 0 ==> s.len() == 2 && s[0].open && after.tree().roots@.contains(s[0].node)
        }
    }

    /// Adds the pair (`caller`, `callee`) of the next sample line, with the
    /// bytes attributed to `caller`. The frames above the topmost one of
    /// `callee` are closed; when there is none, `callee` starts a new root,
    /// open. A `caller` that is still open makes a cycle: it is refused and
    /// nothing changes.
    pub fn add_call(&mut self, caller: CallId, callee: CallId, bytes: u64) -> (r: Result<(), CycleDetected>)
        requires
            old(self).wf(),
        ensures
            final(self).wf(),
            Self::add_call_post(*old(self), caller, callee, bytes, *final(self), r),
            r is Err <==> open_in(old(self).frames(), caller),
            r is Ok ==> final(self).frames() == frames_after_call(old(self).frames(), caller, callee),
            r is Ok ==> final(self).placed() == old(self).placed().push((final(self).stack().last().node, bytes)),
            r is Ok ==> Self::grows(*old(self), *final(self)),
    {
        proof {
            lemma_frames_last(self.stack@, self.tree.nodes@, caller);
            lemma_frames_last(self.stack@, self.tree.nodes@, callee);
        }
        let mut k: usize = 0;
        while k < self.stack.len()
            invariant
                self.wf(),
                *self == *old(self),
                k <= self.stack@.len(),
                forall|m: int| 0 <= m < k ==> !(#[trigger] self.stack@[m].open && self.tree.nodes@[self.stack@[m].node as int].id == caller),
            decreases self.stack@.len() - k,
        {
            let f = self.stack[k];
            if f.open && self.tree.nodes[f.node].id == caller {
                assert(self.stack@[k as int].open && self.tree.nodes@[self.stack@[k as int].node as int].id == caller);
                assert(is_open(self.stack@, self.tree.nodes@, caller));
                proof {
                    lemma_frames_last(self.stack@, self.tree.nodes@, caller);
                    let f = frames_of(self.stack@, self.tree.nodes@);
                    assert(f[k as int].1 && f[k as int].0 == caller);
                    assert(old(self).frames() == f);
                }
                return Err(CycleDetected { caller, callee });
            }
            k = k + 1;
        }
        let ghost before = *self;
        while self.stack.len() > 0 && self.tree.nodes[self.stack[self.stack.len() - 1].node].id != callee
            invariant
                self.wf(),
                self.tree == before.tree,
                self.pairs == before.pairs,
                self.placed == before.placed,
                self.parent == before.parent,
                self.stack@ == before.stack@.take(self.stack@.len() as int),
                self.stack@.len() <= before.stack@.len(),
                last_frame_with(before.stack@, before.tree.nodes@, callee) == last_frame_with(self.stack@, self.tree.nodes@, callee),
            decreases self.stack@.len(),
        {
            let ghost s0 = self.stack@;
            self.stack.pop();
            assert(s0.drop_last() == self.stack@);
            assert forall|m: int| 0 <= m < self.stack@.len() implies #[trigger] self.stack@[m].node < self.tree.nodes@.len() by {
                assert(s0[m] == self.stack@[m]);
            }
            assert(self.stack@ =~= before.stack@.take(self.stack@.len() as int));
        }
        if self.stack.len() == 0 {
            let ghost st = self.stack@;
            proof {
                if last_frame_with(before.stack@, before.tree.nodes@, callee) >= 0 {
                    assert(last_frame_with(st, self.tree.nodes@, callee) == -1);
                }
            }
            let ghost t0 = self.tree;
            let root = self.tree.attach(None, callee);
            proof {
                lemma_forest_attach(t0, self.tree, None, root, self.parent@);
            lemma_bytes_after_attach(t0, self.tree, self.placed@, root);
                lemma_bytes_after_attach(t0, self.tree, self.placed@, root);
                if root >= t0.nodes@.len() {
                    self.parent = Ghost(self.parent@.push(None));
                }
            }
            self.stack.push(Frame { node: root, open: true });
            proof {
                assert forall|m: int| 0 <= m < self.stack@.len() implies #[trigger] self.stack@[m].node < self.tree.nodes@.len() by {}
            }
        } else {
            proof {
                assert(last_frame_with(self.stack@, self.tree.nodes@, callee) == self.stack@.len() - 1);
                assert(self.stack@ =~= before.stack@.take(last_frame_with(before.stack@, before.tree.nodes@, callee) + 1));
            }
        }
        let parent = self.stack[self.stack.len() - 1].node;
        let ghost mid = *self;
        let ghost t1 = self.tree;
        proof {
            lemma_tree_grows(old(self).tree, t1);
        }
        let child = self.tree.attach(Some(parent), caller);
        proof {
            lemma_forest_attach(t1, self.tree, Some(parent), child, self.parent@);
            lemma_bytes_after_attach(t1, self.tree, self.placed@, child);
            if child >= t1.nodes@.len() {
                self.parent = Ghost(self.parent@.push(Some(parent)));
            }
        }
        self.pairs = Ghost(self.pairs@.insert((caller, callee)));
        let ghost t2 = self.tree;
        self.add_bytes(child, bytes);
        self.stack.push(Frame { node: child, open: false });
        proof {
            lemma_tree_grows(old(self).tree, t1);
            lemma_tree_grows(t1, t2);
            lemma_tree_grows(t2, self.tree);
            lemma_tree_grows_trans(old(self).tree, t1, t2);
            lemma_tree_grows_trans(old(self).tree, t2, self.tree);
            assert(self.stack@.drop_last() == mid.stack@);
            assert forall|m: int| 0 <= m < self.stack@.len() implies #[trigger] self.stack@[m].node < self.tree.nodes@.len() by {
                if m < mid.stack@.len() {
                    assert(mid.stack@[m].node < mid.tree.nodes@.len());
                }
            }
            let nodes = old(self).tree().nodes@;
            let k = last_frame_with(old(self).stack(), nodes, callee);
            let s = self.stack();
            let top = s.last().node as int;
            assert(!is_open(old(self).stack(), nodes, caller));
            assert(self.pairs() == old(self).pairs().insert((caller, callee)));
            assert(s.len() >= 2);
            assert(self.tree().nodes@[top].id == caller);
            assert(self.tree().nodes@[s[s.len() - 2].node as int].id == callee);
            assert(self.tree().has_link(s[s.len() - 2].node as int, top));
            assert(k >= 0 ==> s.drop_last() == old(self).stack().take(k + 1));
            assert(k < 0 ==> s.len() == 2 && s[0].open && self.tree().roots@.contains(s[0].node));
            assert(!s.last().open);
            let f0 = old(self).frames();
            let f1 = self.frames();
            if k >= 0 {
                assert forall|j: int| 0 <= j < f1.len() implies f1[j] == f0.take(k + 1).push((caller, false))[j] by {
                    if j < k + 1 {
                        assert(s[j] == old(self).stack()[j]);
                        assert(old(self).stack()[j].node < nodes.len());
                    }
                }
                assert(f1 =~= frames_after_call(f0, caller, callee));
            } else {
                assert(f1 =~= frames_after_call(f0, caller, callee));
            }
            if top >= nodes.len() && top < mid.tree.nodes@.len() {
                assert(mid.tree.nodes@[top].bytes == 0);
            }
            assert(self.tree().nodes@[top].bytes == sat_add(
                if top < nodes.len() {
                    nodes[top].bytes
                } else {
                    0
                },
                bytes as int,
            ));
        }
        Ok(())
    }

    /// Adds the first sample line of a tree, which has no callee: every frame
    /// is closed and `caller` starts a root, open.
    pub fn add_root(&mut self, caller: CallId, bytes: u64)
        requires
            old(self).wf(),
        ensures
            final(self).wf(),
            final(self).pairs() == old(self).pairs(),
            final(self).stack().len() == 1,
            final(self).stack()[0].open,
            final(self).tree().roots@.contains(final(self).stack()[0].node),
            final(self).tree().nodes@[final(self).stack()[0].node as int].id == caller,
            final(self).frames() == seq![(caller, true)],
            final(self).stack()[0].node < final(self).tree().nodes@.len(),
            final(self).placed() == old(self).placed().push((final(self).stack()[0].node, bytes)),
            Self::grows(*old(self), *final(self)),
            final(self).tree().nodes@[final(self).stack()[0].node as int].bytes == sat_add(
                if final(self).stack()[0].node < old(self).tree().nodes@.len() {
                    old(self).tree().nodes@[final(self).stack()[0].node as int].bytes
                } else {
                    0
                },
                bytes as int,
            ),
    {
        self.stack.clear();
        let ghost t0 = self.tree;
        let root = self.tree.attach(None, caller);
        proof {
            lemma_forest_attach(t0, self.tree, None, root, self.parent@);
            lemma_bytes_after_attach(t0, self.tree, self.placed@, root);
            if root >= t0.nodes@.len() {
                self.parent = Ghost(self.parent@.push(None));
            }
        }
        let ghost t2 = self.tree;
        self.add_bytes(root, bytes);
        self.stack.push(Frame { node: root, open: true });
        proof {
            lemma_tree_grows(old(self).tree, t2);
            lemma_tree_grows(t2, self.tree);
            lemma_tree_grows_trans(old(self).tree, t2, self.tree);
            assert forall|m: int| 0 <= m < self.stack@.len() implies #[trigger] self.stack@[m].node < self.tree.nodes@.len() by {}
            assert(self.frames() =~= seq![(caller, true)]);
        }
    }

    /// Closes every frame and hands the tree out.
    pub fn build(self) -> (r: CallerTree)
        requires
            self.wf(),
        ensures
            r.wf(),
            r.link_pairs() == self.pairs(),
            r == self.tree(),
            is_forest(r),
            forall|i: int| 0 <= i < self.placed().len() ==> (#[trigger] self.placed()[i]).0 < r.nodes@.len(),
            forall|n: int| 0 <= n < r.nodes@.len() ==> (#[trigger] r.nodes@[n]).bytes == bytes_at(self.placed(), n),
    {
        proof {
            assert(forest_by(self.tree, self.parent@));
        }
        self.tree
    }

    fn add_bytes(&mut self, n: usize, bytes: u64)
        requires
            old(self).wf(),
            n < old(self).tree().nodes@.len(),
        ensures
            final(self).wf(),
            final(self).stack() == old(self).stack(),
            final(self).pairs() == old(self).pairs(),
            final(self).tree().roots == old(self).tree().roots,
            final(self).tree().nodes@ == old(self).tree().nodes@.update(
                n as int,
                TreeNode { bytes: sat_add(old(self).tree().nodes@[n as int].bytes, bytes as int), ..old(self).tree().nodes@[n as int] },
            ),
            final(self).placed() == old(self).placed().push((n, bytes)),
    {
        let b = self.tree.nodes[n].bytes;
        let sum = if b <= u64::MAX - bytes {
            b + bytes
        } else {
            u64::MAX
        };
        self.tree.nodes[n].bytes = sum;
        self.placed = Ghost(self.placed@.push((n, bytes)));
        proof {
            let pl = self.placed@;
            assert(pl.drop_last() =~= old(self).placed@);
            assert forall|m: int| 0 <= m < self.tree.nodes@.len() implies (#[trigger] self.tree.nodes@[m]).bytes == bytes_at(pl, m) by {
                assert(pl.last() == (n, bytes));
            }
            assert forall|i: int| 0 <= i < pl.len() implies (#[trigger] pl[i]).0 < self.tree.nodes@.len() by {
                if i < pl.len() - 1 {
                    assert(pl[i] == old(self).placed@[i]);
                }
            }
        }
        proof {
            let t = self.tree;
            let o = old(self).tree;
            lemma_same_ids(o.nodes@, t.nodes@, o.nodes@[n as int].callers@);
            lemma_forest_same_links(o, t, self.parent@);
            lemma_wf_after_update(o, t, n as int);
            assert forall|q: (CallId, CallId)| #[trigger] t.link_pairs().contains(q) == o.link_pairs().contains(q) by {
                if t.link_pairs().contains(q) {
                    let (a, c) = choose|a: int, c: int| #![trigger t.has_link(a, c)] t.has_link(a, c) && t.nodes@[c].id == q.0 && t.nodes@[a].id == q.1;
                    assert(o.has_link(a, c));
                }
                if o.link_pairs().contains(q) {
                    let (a, c) = choose|a: int, c: int| #![trigger o.has_link(a, c)] o.has_link(a, c) && o.nodes@[c].id == q.0 && o.nodes@[a].id == q.1;
                    assert(t.has_link(a, c));
                }
            }
            assert(t.link_pairs() =~= o.link_pairs());
            assert(self.tree().wf());
            assert(self.tree().link_pairs() == self.pairs());
            assert(self.stack() == old(self).stack());
            assert(self.tree().nodes@.len() == old(self).tree().nodes@.len());
        }
    }
}

/// Position in `links` of the node with handle `id`, or where such a node
/// would be inserted; the flag tells which.
fn find_link(nodes: &Vec<TreeNode>, links: &Vec<usize>, id: CallId) -> (r: (usize, bool))
    requires
        sorted_links(nodes@, links@),
    ensures
        r.0 <= links@.len(),
        r.1 ==> r.0 < links@.len() && nodes@[links@[r.0 as int] as int].id == id,
        !r.1 ==> forall|k: int|
            0 <= k < links@.len() ==> (k < r.0 <==> nodes@[#[trigger] links@[k] as int].id < id)
                && nodes@[links@[k] as int].id != id,
{
    let mut k: usize = 0;
    while k < links.len() && nodes[links[k]].id < id
        invariant
            sorted_links(nodes@, links@),
            k <= links@.len(),
            forall|m: int| 0 <= m < k ==> nodes@[#[trigger] links@[m] as int].id < id,
        decreases links@.len() - k,
    {
        k = k + 1;
    }
    let found = k < links.len() && nodes[links[k]].id == id;
    proof {
        if !found && k < links@.len() {
            assert forall|m: int| k <= m < links@.len() implies nodes@[#[trigger] links@[m] as int].id
                > id by {
                if m > k {
                    assert(nodes@[links@[k as int] as int].id < nodes@[links@[m] as int].id);
                }
            }
        }
    }
    (k, found)
}

/// Inserts `m` into sorted `links` at `pos`, where the handle of node `m`
/// fits between its neighbours.
proof fn lemma_insert_link(nodes: Seq<TreeNode>, links: Seq<usize>, pos: int, m: usize)
    requires
        sorted_links(nodes, links),
        0 <= pos <= links.len(),
        m < nodes.len(),
        forall|k: int|
            0 <= k < links.len() ==> (k < pos <==> nodes[#[trigger] links[k] as int].id < nodes[m as int].id)
                && nodes[links[k] as int].id != nodes[m as int].id,
    ensures
        sorted_links(nodes, links.insert(pos, m)),
{
    let l2 = links.insert(pos, m);
    assert forall|i: int, j: int| 0 <= i < j < l2.len() implies nodes[l2[i] as int].id < nodes[l2[j] as int].id by {
        if i < pos && j == pos {
        } else if i < pos && j > pos {
            assert(l2[j] == links[j - 1]);
            assert(nodes[links[i] as int].id < nodes[links[j - 1] as int].id || i == j - 1);
        } else if i == pos {
            assert(l2[j] == links[j - 1]);
        } else if j < pos {
        } else {
            assert(l2[j] == links[j - 1]);
            assert(l2[i] == links[i - 1]);
        }
    }
    assert forall|k: int| 0 <= k < l2.len() implies #[trigger] l2[k] < nodes.len() by {
        if k < pos {
        } else if k > pos {
            assert(l2[k] == links[k - 1]);
        }
    }
}

/// Sortedness of links depends on the handles of the nodes alone.
proof fn lemma_same_ids(a: Seq<TreeNode>, b: Seq<TreeNode>, links: Seq<usize>)
    requires
        sorted_links(a, links),
        a.len() == b.len(),
        forall|i: int| 0 <= i < a.len() ==> #[trigger] a[i].id == b[i].id,
    ensures
        sorted_links(b, links),
{
    assert forall|i: int, j: int| 0 <= i < j < links.len() implies b[links[i] as int].id < b[links[j] as int].id by {
        assert(a[links[i] as int].id == b[links[i] as int].id);
        assert(a[links[j] as int].id == b[links[j] as int].id);
    }
}

/// The tree is well formed when its node handles are those of a well-formed
/// tree and only the callers of node `p` differ, sorted.
proof fn lemma_wf_after_update(a: CallerTree, b: CallerTree, p: int)
    requires
        a.wf(),
        0 <= p < a.nodes@.len(),
        a.nodes@.len() == b.nodes@.len(),
        forall|i: int| 0 <= i < a.nodes@.len() ==> #[trigger] a.nodes@[i].id == b.nodes@[i].id,
        forall|i: int| 0 <= i < a.nodes@.len() && i != p ==> #[trigger] a.nodes@[i].callers@ == b.nodes@[i].callers@,
        a.roots@ == b.roots@,
        sorted_links(b.nodes@, b.nodes@[p].callers@),
    ensures
        b.wf(),
{
    lemma_same_ids(a.nodes@, b.nodes@, a.roots@);
    assert forall|n: int| 0 <= n < b.nodes@.len() implies sorted_links(b.nodes@, #[trigger] b.nodes@[n].callers@) by {
        if n != p {
            assert(sorted_links(a.nodes@, a.nodes@[n].callers@));
            lemma_same_ids(a.nodes@, b.nodes@, a.nodes@[n].callers@);
        }
    }
}

/// Appending a node to the arena keeps existing links sorted.
proof fn lemma_push_keeps_sorted(nodes: Seq<TreeNode>, links: Seq<usize>, n: TreeNode)
    requires
        sorted_links(nodes, links),
    ensures
        sorted_links(nodes.push(n), links),
{
    assert forall|i: int, j: int| 0 <= i < j < links.len() implies nodes.push(n)[links[i] as int].id
        < nodes.push(n)[links[j] as int].id by {
        assert(links[i] < nodes.len());
        assert(links[j] < nodes.len());
    }
}


/// Within every sibling set of a well-formed caller tree (the roots, and
/// the direct callers of each node) no call handle appears twice.
pub proof fn law_siblings_distinct(t: CallerTree)
    requires
        t.wf(),
    ensures
        forall|i: int, j: int|
            0 <= i < j < t.roots@.len() ==> t.nodes@[t.roots@[i] as int].id != t.nodes@[t.roots@[j] as int].id,
        forall|n: int, i: int, j: int|
            0 <= n < t.nodes@.len() && 0 <= i < j < t.nodes@[n].callers@.len() ==> t.nodes@[#[trigger] t.nodes@[n].callers@[i] as int].id
                != t.nodes@[#[trigger] t.nodes@[n].callers@[j] as int].id,
{
    assert forall|n: int, i: int, j: int|
        0 <= n < t.nodes@.len() && 0 <= i < j < t.nodes@[n].callers@.len() implies t.nodes@[#[trigger] t.nodes@[n].callers@[i] as int].id
            != t.nodes@[#[trigger] t.nodes@[n].callers@[j] as int].id by {
        assert(sorted_links(t.nodes@, t.nodes@[n].callers@));
    }
}

/// A caller that the stream has just put under a callee that was not on the
/// stack (so that the callee started a new root, still open), and which then
/// comes back as the callee's own caller, is refused as a cycle, and the
/// builder is left as it was.
pub proof fn law_cycle_detected(
    b0: CallerTreeBuilder,
    a: CallId,
    b: CallId,
    x: u64,
    b1: CallerTreeBuilder,
    r1: Result<(), CycleDetected>,
    y: u64,
    b2: CallerTreeBuilder,
    r2: Result<(), CycleDetected>,
)
    requires
        b0.wf(),
        last_frame_with(b0.stack(), b0.tree().nodes@, b) < 0,
        !is_open(b0.stack(), b0.tree().nodes@, a),
        CallerTreeBuilder::add_call_post(b0, a, b, x, b1, r1),
        b1.wf(),
        CallerTreeBuilder::add_call_post(b1, b, a, y, b2, r2),
    ensures
        r1 is Ok,
        r2 == Err::<(), CycleDetected>(CycleDetected { caller: b, callee: a }),
        b2 == b1,
{
    let s = b1.stack();
    assert(s[0].open);
    assert(b1.tree().nodes@[s[0].node as int].id == b);
    assert(is_open(b1.stack(), b1.tree().nodes@, b));
}

/// The freshly made builder: the pairs (A, B) then (B, A) make a cycle.
pub proof fn law_cycle_from_start(
    b0: CallerTreeBuilder,
    a: CallId,
    b: CallId,
    x: u64,
    b1: CallerTreeBuilder,
    r1: Result<(), CycleDetected>,
    y: u64,
    b2: CallerTreeBuilder,
    r2: Result<(), CycleDetected>,
)
    requires
        b0.wf(),
        b0.stack().len() == 0,
        CallerTreeBuilder::add_call_post(b0, a, b, x, b1, r1),
        b1.wf(),
        CallerTreeBuilder::add_call_post(b1, b, a, y, b2, r2),
    ensures
        r1 is Ok,
        r2 == Err::<(), CycleDetected>(CycleDetected { caller: b, callee: a }),
{
    law_cycle_detected(b0, a, b, x, b1, r1, y, b2, r2);
}

} // verus!
