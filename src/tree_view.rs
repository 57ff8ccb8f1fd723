//! A scrolling window over a caller tree, flattened in pre-order with the
//! depth of each row. The rows before the window, the rows of the window
//! before the selection, and the rows from the selection on are kept in
//! three double-ended queues, so that a scroll step moves rows from one to
//! another and costs no more than the rows it moves.
use vstd::prelude::*;

use std::collections::VecDeque;

use crate::indexing::CallId;
use crate::tree::{sorted_links, CallerTree};

verus! {

/// One row of the flattened tree: a node of the arena and its depth.
#[derive(Debug, Clone, Copy, PartialEq, Eq, Structural)]
pub struct TreeItem {
    pub node: usize,
    pub id: CallId,
    pub depth: usize,
}

/// What the presentation shows of a row.
#[derive(Debug, Clone, Copy, PartialEq, Eq, Structural)]
pub struct TreeRow {
    pub id: CallId,
    pub child_count: usize,
    pub bytes: u64,
    pub depth: usize,
}

pub open spec fn item_of(t: CallerTree, n: usize, depth: usize) -> TreeItem {
    TreeItem { node: n, id: t.nodes@[n as int].id, depth }
}

/// The roots, collapsed, at depth 0.
pub open spec fn root_items(t: CallerTree) -> Seq<TreeItem> {
    t.roots@.map_values(|r: usize| item_of(t, r, 0))
}

/// The direct callers of `item`, one level deeper.
pub open spec fn caller_items(t: CallerTree, item: TreeItem) -> Seq<TreeItem> {
    t.nodes@[item.node as int].callers@.map_values(|c: usize| item_of(t, c, (item.depth + 1) as usize))
}

/// Position, from `q` on, of the first row of `s` no deeper than `d`: the
/// end of the run of rows below a row of depth `d`.
pub open spec fn run_end(s: Seq<TreeItem>, d: usize, q: int) -> int
    decreases s.len() - q,
{
    if 0 <= q < s.len() && s[q].depth > d {
        run_end(s, d, q + 1)
    } else {
        q
    }
}

/// The caller at position `j` of node `n` is a node of the arena.
pub open spec fn sorted_links_ok(t: CallerTree, n: int, j: int) -> bool {
    0 <= n < t.nodes@.len() && 0 <= j < t.nodes@[n].callers@.len() ==> t.nodes@[n].callers@[j] < t.nodes@.len()
}

pub struct CallerTreeController<'a> {
    tree: &'a CallerTree,
    skipped: VecDeque<TreeItem>,
    before_selected: VecDeque<TreeItem>,
    after_selected: VecDeque<TreeItem>,
    expanded: Vec<bool>,
}

impl<'a> CallerTreeController<'a> {
    pub closed spec fn tree(&self) -> CallerTree {
        *self.tree
    }

    /// The rows above the window.
    pub closed spec fn skipped(&self) -> Seq<TreeItem> {
        self.skipped@
    }

    /// The rows of the window above the selection.
    pub closed spec fn before(&self) -> Seq<TreeItem> {
        self.before_selected@
    }

    /// The selected row and the rows below it.
    pub closed spec fn after(&self) -> Seq<TreeItem> {
        self.after_selected@
    }

    pub closed spec fn is_expanded(&self, n: int) -> bool {
        self.expanded@[n]
    }

    /// All rows, in order.
    pub open spec fn rows(&self) -> Seq<TreeItem> {
        self.skipped() + self.before() + self.after()
    }

    /// Position of the selected row among all rows.
    pub open spec fn position(&self) -> int {
        (self.skipped().len() + self.before().len()) as int
    }

    pub open spec fn item_ok(t: CallerTree, it: TreeItem) -> bool {
        it.node < t.nodes@.len() && it.id == t.nodes@[it.node as int].id
    }

    pub closed spec fn wf(&self) -> bool {
        &&& self.tree.wf()
        &&& self.expanded@.len() == self.tree.nodes@.len()
        &&& forall|i: int| 0 <= i < self.skipped@.len() ==> Self::item_ok(*self.tree, #[trigger] self.skipped@[i])
        &&& forall|i: int| 0 <= i < self.before_selected@.len() ==> Self::item_ok(*self.tree, #[trigger] self.before_selected@[i])
        &&& forall|i: int| 0 <= i < self.after_selected@.len() ==> Self::item_ok(*self.tree, #[trigger] self.after_selected@[i])
        &&& (self.skipped@.len() + self.before_selected@.len() > 0 ==> self.after_selected@.len() > 0)
    }

    /// The view of `tree` with its roots collapsed and the first selected.
    pub fn new(tree: &'a CallerTree) -> (r: CallerTreeController<'a>)
        requires
            tree.wf(),
        ensures
            r.wf(),
            r.tree() == *tree,
            r.skipped().len() == 0,
            r.before().len() == 0,
            r.after() == root_items(*tree),
    {
        let mut r = CallerTreeController {
            tree,
            skipped: VecDeque::new(),
            before_selected: VecDeque::new(),
            after_selected: VecDeque::new(),
            expanded: Vec::new(),
        };
        r.fill();
        r
    }

    /// A well-formed view is over a well-formed tree.
    pub proof fn lemma_tree_wf(&self)
        requires
            self.wf(),
        ensures
            self.tree().wf(),
            forall|i: int| 0 <= i < self.after().len() ==> Self::item_ok(self.tree(), #[trigger] self.after()[i]),
    {
    }

    /// Back to the roots, all collapsed, the first selected.
    pub fn reset(&mut self)
        requires
            old(self).wf(),
        ensures
            final(self).wf(),
            final(self).tree() == old(self).tree(),
            final(self).skipped().len() == 0,
            final(self).before().len() == 0,
            final(self).after() == root_items(old(self).tree()),
            forall|n: int| 0 <= n < final(self).tree().nodes@.len() ==> !final(self).is_expanded(n),
    {
        self.fill();
    }

    fn fill(&mut self)
        requires
            old(self).tree().wf(),
        ensures
            final(self).wf(),
            final(self).tree() == old(self).tree(),
            final(self).skipped().len() == 0,
            final(self).before().len() == 0,
            final(self).after() == root_items(old(self).tree()),
            forall|n: int| 0 <= n < final(self).tree().nodes@.len() ==> !final(self).is_expanded(n),
    {
        self.skipped.clear();
        self.before_selected.clear();
        self.after_selected.clear();
        let n = self.tree.nodes.len();
        let mut expanded: Vec<bool> = Vec::new();
        while expanded.len() < n
            invariant
                expanded@.len() <= n,
                forall|i: int| 0 <= i < expanded@.len() ==> !expanded@[i],
            decreases n - expanded@.len(),
        {
            expanded.push(false);
        }
        self.expanded = expanded;
        let roots = &self.tree.roots;
        let mut k: usize = 0;
        while k < roots.len()
            invariant
                self.tree.wf(),
                self.tree == old(self).tree,
                self.expanded@.len() == self.tree.nodes@.len(),
                forall|i: int| 0 <= i < self.expanded@.len() ==> !self.expanded@[i],
                self.skipped@.len() == 0,
                self.before_selected@.len() == 0,
                roots == &self.tree.roots,
                k <= roots@.len(),
                self.after_selected@ == root_items(*self.tree).take(k as int),
            decreases roots@.len() - k,
        {
            let r = roots[k];
            self.after_selected.push_back(TreeItem { node: r, id: self.tree.nodes[r].id, depth: 0 });
            assert(root_items(*self.tree).take(k + 1) =~= root_items(*self.tree).take(k as int).push(
                item_of(*self.tree, r, 0),
            ));
            k = k + 1;
        }
        proof {
            assert(root_items(*self.tree).take(k as int) =~= root_items(*self.tree));
            assert forall|i: int| 0 <= i < self.after_selected@.len() implies Self::item_ok(*self.tree, #[trigger] self.after_selected@[i]) by {
                assert(self.tree.roots@[i] < self.tree.nodes@.len());
            }
        }
    }

    /// How many rows stand above the selection in a window of `limit` rows
    /// when `wanted` would: at most `limit - 1`.
    pub open spec fn window_above(wanted: int, limit: usize) -> int {
        let keep = if limit > 0 {
            limit - 1
        } else {
            0
        };
        if wanted <= keep {
            wanted
        } else {
            keep
        }
    }

    /// Moves the selection `n` rows down, at most to the last row, and
    /// scrolls so that at most `limit - 1` rows of the window stand above
    /// the selection.
    pub fn select_nth_next(&mut self, n: usize, limit: usize)
        requires
            old(self).wf(),
        ensures
            final(self).wf(),
            final(self).tree() == old(self).tree(),
            final(self).rows() == old(self).rows(),
            final(self).position() == old(self).position() + if old(self).after().len() == 0 {
                0
            } else if n < old(self).after().len() - 1 {
                n as int
            } else {
                old(self).after().len() - 1
            },
            final(self).before().len() == Self::window_above(
                (old(self).before().len() + (final(self).position() - old(self).position())) as int,
                limit,
            ),
            forall|m: int| #![trigger final(self).is_expanded(m)] final(self).is_expanded(m) == old(self).is_expanded(m),
    {
        let mut k: usize = 0;
        while k < n && self.after_selected.len() > 1
            invariant
                self.wf(),
                self.tree == old(self).tree,
                self.expanded == old(self).expanded,
                self.skipped@ == old(self).skipped@,
                self.before_selected@.len() == old(self).before_selected@.len() + k,
                k <= n,
                self.rows() == old(self).rows(),
                self.position() == old(self).position() + k,
                self.after_selected@.len() == old(self).after_selected@.len() - k,
                old(self).after_selected@.len() == 0 ==> k == 0,
            decreases n - k,
        {
            let ghost b = self.before_selected@;
            let ghost a = self.after_selected@;
            let it = self.after_selected.pop_front().unwrap();
            self.before_selected.push_back(it);
            proof {
                assert(self.before_selected@ == b.push(a[0]));
                assert(self.after_selected@ == a.subrange(1, a.len() as int));
                assert(b.push(a[0]) + a.subrange(1, a.len() as int) =~= b + a);
                assert(self.skipped@ + self.before_selected@ + self.after_selected@ =~= self.skipped@ + (b + a));
                assert forall|i: int| 0 <= i < self.before_selected@.len() implies Self::item_ok(*self.tree, #[trigger] self.before_selected@[i]) by {
                    if i < b.len() {
                        assert(self.before_selected@[i] == b[i]);
                    }
                }
                assert forall|i: int| 0 <= i < self.after_selected@.len() implies Self::item_ok(*self.tree, #[trigger] self.after_selected@[i]) by {
                    assert(self.after_selected@[i] == a[i + 1]);
                }
            }
            k = k + 1;
        }
        let keep = if limit > 0 {
            limit - 1
        } else {
            0
        };
        let ghost b1 = self.before_selected@.len();
        while self.before_selected.len() > keep
            invariant
                self.wf(),
                b1 == old(self).before_selected@.len() + k,
                keep == (if limit > 0 { limit - 1 } else { 0 }),
                b1 <= keep ==> self.before_selected@.len() == b1,
                b1 > keep ==> self.before_selected@.len() >= keep,
                self.tree == old(self).tree,
                self.expanded == old(self).expanded,
                self.rows() == old(self).rows(),
                self.position() == old(self).position() + k,
                self.after_selected@.len() == old(self).after_selected@.len() - k,
            decreases self.before_selected@.len(),
        {
            let ghost s = self.skipped@;
            let ghost b = self.before_selected@;
            let it = self.before_selected.pop_front().unwrap();
            self.skipped.push_back(it);
            proof {
                assert(self.skipped@ == s.push(b[0]));
                assert(self.before_selected@ == b.subrange(1, b.len() as int));
                assert(s.push(b[0]) + b.subrange(1, b.len() as int) =~= s + b);
                assert(self.skipped@ + self.before_selected@ + self.after_selected@ =~= (s + b) + self.after_selected@);
                assert forall|i: int| 0 <= i < self.skipped@.len() implies Self::item_ok(*self.tree, #[trigger] self.skipped@[i]) by {
                    if i < s.len() {
                        assert(self.skipped@[i] == s[i]);
                    }
                }
                assert forall|i: int| 0 <= i < self.before_selected@.len() implies Self::item_ok(*self.tree, #[trigger] self.before_selected@[i]) by {
                    assert(self.before_selected@[i] == b[i + 1]);
                }
            }
        }
    }

    /// Moves the selection `n` rows up, at most to the first row; rows come
    /// back into the window from above as needed.
    pub fn select_nth_previous(&mut self, n: usize)
        requires
            old(self).wf(),
        ensures
            final(self).wf(),
            final(self).tree() == old(self).tree(),
            final(self).rows() == old(self).rows(),
            final(self).position() == old(self).position() - if n < old(self).position() {
                n as int
            } else {
                old(self).position()
            },
            forall|m: int| #![trigger final(self).is_expanded(m)] final(self).is_expanded(m) == old(self).is_expanded(m),
    {
        let mut k: usize = 0;
        while k < n && (self.before_selected.len() > 0 || self.skipped.len() > 0)
            invariant
                self.wf(),
                self.tree == old(self).tree,
                self.expanded == old(self).expanded,
                k <= n,
                self.rows() == old(self).rows(),
                self.position() == old(self).position() - k,
            decreases n - k,
        {
            let ghost s = self.skipped@;
            let ghost b = self.before_selected@;
            let ghost a = self.after_selected@;
            if self.before_selected.len() > 0 {
                let it = self.before_selected.pop_back().unwrap();
                self.after_selected.push_front(it);
                proof {
                    let bl = b.len() - 1;
                    assert(self.before_selected@ == b.subrange(0, bl));
                    assert(self.after_selected@ == seq![b[bl]] + a);
                    assert(b.subrange(0, bl) + (seq![b[bl]] + a) =~= b + a);
                    assert(self.skipped@ + self.before_selected@ + self.after_selected@ =~= s + (b + a));
                    assert forall|i: int| 0 <= i < self.before_selected@.len() implies Self::item_ok(*self.tree, #[trigger] self.before_selected@[i]) by {
                        assert(self.before_selected@[i] == b[i]);
                    }
                    assert forall|i: int| 0 <= i < self.after_selected@.len() implies Self::item_ok(*self.tree, #[trigger] self.after_selected@[i]) by {
                        if i > 0 {
                            assert(self.after_selected@[i] == a[i - 1]);
                        }
                    }
                }
            } else if self.skipped.len() > 0 {
                let it = self.skipped.pop_back().unwrap();
                self.after_selected.push_front(it);
                proof {
                    let sl = s.len() - 1;
                    assert(self.skipped@ == s.subrange(0, sl));
                    assert(self.after_selected@ == seq![s[sl]] + a);
                    assert(s.subrange(0, sl) + b + (seq![s[sl]] + a) =~= s + b + a);
                    assert forall|i: int| 0 <= i < self.skipped@.len() implies Self::item_ok(*self.tree, #[trigger] self.skipped@[i]) by {
                        assert(self.skipped@[i] == s[i]);
                    }
                    assert forall|i: int| 0 <= i < self.after_selected@.len() implies Self::item_ok(*self.tree, #[trigger] self.after_selected@[i]) by {
                        if i > 0 {
                            assert(self.after_selected@[i] == a[i - 1]);
                        }
                    }
                }
            }
            k = k + 1;
        }
    }

    pub fn select_next(&mut self, limit: usize)
        requires
            old(self).wf(),
        ensures
            final(self).wf(),
            final(self).rows() == old(self).rows(),
            final(self).tree() == old(self).tree(),
            forall|m: int| #![trigger final(self).is_expanded(m)] final(self).is_expanded(m) == old(self).is_expanded(m),
            final(self).position() == old(self).position() + if old(self).after().len() > 1 {
                1int
            } else {
                0
            },
    {
        self.select_nth_next(1, limit)
    }

    pub fn select_previous(&mut self)
        requires
            old(self).wf(),
        ensures
            final(self).wf(),
            final(self).rows() == old(self).rows(),
            final(self).tree() == old(self).tree(),
            forall|m: int| #![trigger final(self).is_expanded(m)] final(self).is_expanded(m) == old(self).is_expanded(m),
            final(self).position() == old(self).position() - if old(self).position() > 0 {
                1int
            } else {
                0
            },
    {
        self.select_nth_previous(1)
    }

    /// Expands the selected row, showing its direct callers one level deeper
    /// below it, or folds it when it is expanded, hiding every deeper row
    /// that follows it. The selection and the rows above it stay.
    pub fn toggle_selected(&mut self)
        requires
            old(self).wf(),
        ensures
            final(self).wf(),
            final(self).tree() == old(self).tree(),
            final(self).skipped() == old(self).skipped(),
            final(self).before() == old(self).before(),
            old(self).after().len() == 0 ==> final(self).after() == old(self).after(),
            old(self).after().len() > 0 ==> {
                let sel = old(self).after()[0];
                let rest = old(self).after().drop_first();
                if old(self).is_expanded(sel.node as int) {
                    &&& final(self).after() == seq![sel] + rest.subrange(
                        run_end(rest, sel.depth, 0),
                        rest.len() as int,
                    )
                    &&& !final(self).is_expanded(sel.node as int)
                } else if sel.depth < usize::MAX {
                    &&& final(self).after() == seq![sel] + caller_items(old(self).tree(), sel) + rest
                    &&& final(self).is_expanded(sel.node as int)
                } else {
                    final(self).after() == old(self).after()
                }
            },
    {
        if self.after_selected.len() == 0 {
            return;
        }
        let ghost a0 = self.after_selected@;
        let sel = self.after_selected.pop_front().unwrap();
        let ghost rest = self.after_selected@;
        assert(Self::item_ok(*self.tree, a0[0]));
        if self.expanded[sel.node] {
            while self.after_selected.len() > 0 && self.after_selected[0].depth > sel.depth
                invariant
                    self.tree == old(self).tree,
                    self.tree.wf(),
                    self.expanded@.len() == self.tree.nodes@.len(),
                    self.expanded@[sel.node as int],
                    sel.node < self.tree.nodes@.len(),
                    self.skipped@ == old(self).skipped@,
                    self.before_selected@ == old(self).before_selected@,
                    rest.len() >= self.after_selected@.len(),
                    self.after_selected@ == rest.subrange(rest.len() - self.after_selected@.len(), rest.len() as int),
                    run_end(rest, sel.depth, 0) == run_end(rest, sel.depth, rest.len() - self.after_selected@.len()),
                    forall|i: int| 0 <= i < rest.len() ==> Self::item_ok(*self.tree, #[trigger] rest[i]),
                decreases self.after_selected@.len(),
            {
                let ghost a1 = self.after_selected@;
                let it = self.after_selected.pop_front().unwrap();
                assert(it == rest[rest.len() - a1.len()]);
                if it.node != sel.node {
                    self.expanded.set(it.node, false);
                }
                assert(self.after_selected@ =~= rest.subrange(rest.len() - self.after_selected@.len(), rest.len() as int));
            }
            self.expanded.set(sel.node, false);
            proof {
                assert(run_end(rest, sel.depth, 0) == rest.len() - self.after_selected@.len());
            }
        } else if sel.depth < usize::MAX {
            let callers = &self.tree.nodes[sel.node].callers;
            let mut j = callers.len();
            while j > 0
                invariant
                    self.tree == old(self).tree,
                    self.tree.wf(),
                    sel.node < self.tree.nodes@.len(),
                    sel.depth < usize::MAX,
                    callers == &self.tree.nodes@[sel.node as int].callers,
                    j <= callers@.len(),
                    self.skipped@ == old(self).skipped@,
                    self.before_selected@ == old(self).before_selected@,
                    self.expanded == old(self).expanded,
                    self.after_selected@ == caller_items(*self.tree, sel).subrange(j as int, callers@.len() as int) + rest,
                decreases j,
            {
                j = j - 1;
                let c = callers[j];
                assert(c < self.tree.nodes@.len()) by {
                    assert(sorted_links_ok(*self.tree, sel.node as int, j as int));
                }
                let ghost a1 = self.after_selected@;
                self.after_selected.push_front(TreeItem { node: c, id: self.tree.nodes[c].id, depth: sel.depth + 1 });
                assert(self.after_selected@ =~= caller_items(*self.tree, sel).subrange(j as int, callers@.len() as int) + rest);
            }
            assert(caller_items(*self.tree, sel).subrange(0, callers@.len() as int) =~= caller_items(*self.tree, sel));
            self.expanded.set(sel.node, true);
        }
        self.after_selected.push_front(sel);
        proof {
            assert(seq![sel] + rest =~= a0);
            assert forall|i: int| 0 <= i < self.after_selected@.len() implies Self::item_ok(*self.tree, #[trigger] self.after_selected@[i]) by {
                if i > 0 {
                    let x = self.after_selected@[i];
                    if old(self).expanded@[sel.node as int] {
                        assert(x == rest[i - 1 + run_end(rest, sel.depth, 0)]);
                        assert(rest[i - 1 + run_end(rest, sel.depth, 0)] == a0[i + run_end(rest, sel.depth, 0)]);
                    } else if sel.depth < usize::MAX {
                        let cs = caller_items(*self.tree, sel);
                        if i - 1 < cs.len() {
                            assert(x == cs[i - 1]);
                            let c = self.tree.nodes@[sel.node as int].callers@[i - 1];
                            assert(sorted_links_ok(*self.tree, sel.node as int, i - 1));
                        } else {
                            assert(x == rest[i - 1 - cs.len()]);
                            assert(rest[i - 1 - cs.len()] == a0[i - cs.len()]);
                        }
                    } else {
                        assert(x == a0[i]);
                    }
                }
            }
        }
    }

    /// The window row `index` is the selected one.
    pub fn is_selected(&self, index: usize) -> (r: bool)
        ensures
            r == (self.before().len() == index),
    {
        self.before_selected.len() == index
    }

    /// The rows of the window: from its top, through the selection, to the
    /// last row.
    pub fn iter(&self) -> (r: Vec<TreeRow>)
        requires
            self.wf(),
        ensures
            r@.len() == self.before().len() + self.after().len(),
            forall|i: int|
                0 <= i < r@.len() ==> #[trigger] r@[i] == self.row_of((self.before() + self.after())[i]),
    {
        let mut r: Vec<TreeRow> = Vec::new();
        self.push_rows(&self.before_selected, &mut r);
        let ghost r1 = r@;
        self.push_rows(&self.after_selected, &mut r);
        proof {
            let b = self.before_selected@;
            let a = self.after_selected@;
            assert forall|i: int| 0 <= i < r@.len() implies #[trigger] r@[i] == self.row_of((b + a)[i]) by {
                if i < b.len() {
                    assert(r@[i] == r1[i]);
                    assert(r1[0 + i] == self.row_of(b[i]));
                } else {
                    assert(r@[b.len() + (i - b.len())] == self.row_of(a[i - b.len()]));
                }
            }
        }
        r
    }

    /// What the presentation shows of `it`.
    pub open spec fn row_of(&self, it: TreeItem) -> TreeRow {
        TreeRow {
            id: it.id,
            child_count: self.tree().nodes@[it.node as int].callers@.len() as usize,
            bytes: self.tree().nodes@[it.node as int].bytes,
            depth: it.depth,
        }
    }

    fn push_rows(&self, items: &VecDeque<TreeItem>, r: &mut Vec<TreeRow>)
        requires
            self.tree.wf(),
            forall|i: int| 0 <= i < items@.len() ==> Self::item_ok(*self.tree, #[trigger] items@[i]),
        ensures
            final(r)@.len() == old(r)@.len() + items@.len(),
            forall|i: int| 0 <= i < old(r)@.len() ==> #[trigger] final(r)@[i] == old(r)@[i],
            forall|i: int| 0 <= i < items@.len() ==> #[trigger] final(r)@[old(r)@.len() + i] == self.row_of(items@[i]),
    {
        let ghost start = r@.len();
        let mut k: usize = 0;
        while k < items.len()
            invariant
                self.tree.wf(),
                forall|i: int| 0 <= i < items@.len() ==> Self::item_ok(*self.tree, #[trigger] items@[i]),
                k <= items@.len(),
                r@.len() == start + k,
                start == old(r)@.len(),
                forall|i: int| 0 <= i < old(r)@.len() ==> #[trigger] r@[i] == old(r)@[i],
                forall|i: int| 0 <= i < k ==> #[trigger] r@[start + i] == self.row_of(items@[i]),
            decreases items@.len() - k,
        {
            let it = items[k];
            assert(Self::item_ok(*self.tree, items@[k as int]));
            let node = &self.tree.nodes[it.node];
            let ghost r0 = r@;
            r.push(TreeRow { id: it.id, child_count: node.callers.len(), bytes: node.bytes, depth: it.depth });
            assert forall|i: int| 0 <= i < k + 1 implies #[trigger] r@[start + i] == self.row_of(items@[i]) by {
                if i < k {
                    assert(r@[start + i] == r0[start + i]);
                }
            }
            k = k + 1;
        }
    }
}

/// The direct callers that expanding a row shows are one level deeper, each
/// call handle once, in increasing handle order.
pub proof fn law_expanded_callers_sorted(t: CallerTree, sel: TreeItem)
    requires
        t.wf(),
        sel.node < t.nodes@.len(),
    ensures
        forall|i: int, j: int|
            0 <= i < j < caller_items(t, sel).len() ==> (#[trigger] caller_items(t, sel)[i]).id < (
            #[trigger] caller_items(t, sel)[j]).id,
        forall|i: int|
            0 <= i < caller_items(t, sel).len() ==> (#[trigger] caller_items(t, sel)[i]).depth == (
            sel.depth + 1) as usize,
{
    let cs = t.nodes@[sel.node as int].callers@;
    assert(sorted_links(t.nodes@, cs));
}

} // verus!
