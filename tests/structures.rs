use massif_collect::allocation::{merge_locations, Allocation, Location};
use massif_collect::graph::{CallGraph, Direction};
use massif_collect::indexing::{CallDescriptor, CallIndex};
use massif_collect::navigable_selection::NavigableSelection;
use massif_collect::navigator::{CallGraphController, CallStack};
use massif_collect::massif::{ParseError, ParseErrorKind};
use massif_collect::profile::{read, ReadError};
use massif_collect::stream::{sample_triples, Triple};
use massif_collect::tree::{CallerTreeBuilder, CycleDetected};
use massif_collect::tree_view::CallerTreeController;

fn described(bytes: usize, text: &str) -> Allocation {
    Allocation { bytes, location: Location::Described(text.to_string()) }
}

#[test]
fn index_hands_out_handles_in_first_seen_order() {
    let mut index = CallIndex::new();
    assert_eq!(index.index(&CallDescriptor::Inner(0x10)), 0);
    assert_eq!(index.index(&CallDescriptor::Root), 1);
    assert_eq!(index.index(&CallDescriptor::Inner(0x10)), 0);
    assert_eq!(index.index(&CallDescriptor::Inner(0x20)), 2);
    assert_eq!(index.index_leaf_sentinel(), 3);
    assert_eq!(index.index(&CallDescriptor::Leaf), 3);
    assert_eq!(index.index(&CallDescriptor::Root), 1);
    assert_eq!(index.len(), 4);
    assert_eq!(index.get(2), Some(CallDescriptor::Inner(0x20)));
    assert_eq!(index.get(4), None);
}

#[test]
fn end_to_end_example() {
    let triples = sample_triples("n1: 100 0x10: f\n n0: 100 0x20: g\n").unwrap();
    assert_eq!(
        triples,
        vec![
            Triple {
                caller: CallDescriptor::Inner(0x10),
                callee: None,
                allocation: described(100, "f"),
            },
            Triple {
                caller: CallDescriptor::Inner(0x20),
                callee: Some(CallDescriptor::Inner(0x10)),
                allocation: described(100, "g"),
            },
        ]
    );
    let input = "#---\nsnapshot=0\n#---\nn1: 100 0x10: f\n n0: 100 0x20: g\n";
    let profile = read(input).unwrap();
    let f = 0;
    let g = 1;
    assert_eq!(profile.index.get(f), Some(CallDescriptor::Inner(0x10)));
    assert_eq!(profile.index.get(g), Some(CallDescriptor::Inner(0x20)));
    assert_eq!(profile.graph.edge_weight(g, f), Some(100));
    assert_eq!(profile.graph.edge_weight(f, g), None);
    assert_eq!(profile.graph.neighbors(f, Direction::Incoming), vec![g]);
    assert_eq!(profile.graph.neighbors(g, Direction::Outgoing), vec![f]);
    assert_eq!(profile.graph.roots(), vec![g]);
}

#[test]
fn stack_decoding_follows_the_declared_counts() {
    let triples =
        sample_triples("n2: 30 0x1: a\n n1: 20 0x2: b\n  n0: 20 0x3: c\n n0: 10 0x4: d\nn0: 5 0x5: e\n")
            .unwrap();
    let callees: Vec<Option<CallDescriptor>> = triples.iter().map(|t| t.callee).collect();
    let inner = CallDescriptor::Inner;
    assert_eq!(callees, vec![None, Some(inner(1)), Some(inner(2)), Some(inner(1)), None]);
    assert_eq!(triples.len(), 5);
    assert_eq!(sample_triples("").unwrap().len(), 0);
    assert_eq!(sample_triples("n0: 1 f\nbad\n").err().map(|e| e.line), Some(2));
}

#[test]
fn caller_tree_merges_repeated_siblings() {
    let mut b = CallerTreeBuilder::new();
    b.add_root(0, 100);
    assert_eq!(b.add_call(2, 0, 40), Ok(()));
    assert_eq!(b.add_call(1, 0, 30), Ok(()));
    assert_eq!(b.add_call(3, 1, 30), Ok(()));
    assert_eq!(b.add_call(2, 0, 5), Ok(()));
    let t = b.build();
    assert_eq!(t.roots.len(), 1);
    let root = &t.nodes[t.roots[0]];
    assert_eq!((root.id, root.bytes), (0, 100));
    let callers: Vec<(usize, u64)> =
        root.callers.iter().map(|&c| (t.nodes[c].id, t.nodes[c].bytes)).collect();
    assert_eq!(callers, vec![(1, 30), (2, 45)]);
    let one = &t.nodes[root.callers[0]];
    assert_eq!(one.callers.len(), 1);
    assert_eq!(t.nodes[one.callers[0]].id, 3);
}

#[test]
fn caller_tree_detects_cycles() {
    let mut b = CallerTreeBuilder::new();
    assert_eq!(b.add_call(7, 8, 1), Ok(()));
    assert_eq!(b.add_call(8, 7, 1), Err(CycleDetected { caller: 8, callee: 7 }));
    let input = "#---\nsnapshot=0\n#---\nn1: 10 0x1: a\n n1: 10 0x2: b\n  n0: 10 0x2: b\n";
    assert!(read(input).is_ok());
    let input = "#---\nsnapshot=0\n#---\nn1: 10 0x1: a\n n1: 10 0x2: b\n  n0: 10 0x1: a\n";
    assert_eq!(
        read(input).err(),
        Some(ReadError::Cycle(CycleDetected { caller: 0, callee: 1 }))
    );
}

#[test]
fn graph_sums_allocations_on_one_edge() {
    let mut g = CallGraph::new();
    g.add_edge(1, 2, described(100, "a"));
    g.add_edge(1, 2, described(50, "a"));
    assert_eq!(g.edge_weight(1, 2), Some(150));
    assert_eq!(g.neighbors(2, Direction::Incoming), vec![1]);
    assert_eq!(g.neighbors(1, Direction::Outgoing), vec![2]);
    assert_eq!(g.neighbors(1, Direction::Incoming), Vec::<usize>::new());
    assert_eq!(g.roots(), vec![1]);
    assert_eq!(g.edge_locations(1, 2).map(|l| l.len()), Some(2));
}

#[test]
fn locations_merge() {
    assert_eq!(merge_locations(&vec![]), None);
    assert_eq!(
        merge_locations(&vec![
            Location::Described("a".to_string()),
            Location::Described("b".to_string()),
            Location::Described("a".to_string()),
        ]),
        Some(Location::Described("a / b".to_string()))
    );
    assert_eq!(
        merge_locations(&vec![
            Location::Omitted(2, "0.01".to_string()),
            Location::Omitted(3, "0.01".to_string()),
        ]),
        Some(Location::Omitted(5, "0.01".to_string()))
    );
    assert_eq!(
        merge_locations(&vec![
            Location::Omitted(2, "0.01".to_string()),
            Location::Omitted(3, "0.02".to_string()),
        ]),
        None
    );
    assert_eq!(
        merge_locations(&vec![
            Location::Omitted(2, "0.01".to_string()),
            Location::Described("a".to_string()),
        ]),
        None
    );
}

#[test]
fn selection_clamps_at_the_bounds() {
    let mut l = NavigableSelection::new(vec![10, 20, 30]);
    assert_eq!(l.selected_index(), Some(0));
    l.select_last();
    l.select_nth_next(10);
    assert_eq!(l.selected_index(), Some(2));
    assert_eq!(l.selected_item(), Some(&30));
    l.select_nth_previous(1);
    assert_eq!(l.selected_index(), Some(1));
    l.select_nth_previous(10);
    assert_eq!(l.selected_index(), Some(0));
    l.select_next();
    assert_eq!(l.selected_index(), Some(1));
    l.select_previous();
    l.select_previous();
    assert_eq!(l.selected_index(), Some(0));
    l.select_nth_next(usize::MAX);
    assert_eq!(l.selected_index(), Some(2));
    l.select_first();
    assert_eq!(l.selected_index(), Some(0));
    assert_eq!(l.items(), &[10, 20, 30][..]);
}

#[test]
fn empty_selection_never_selects() {
    let mut l: NavigableSelection<u8> = NavigableSelection::new(vec![]);
    l.select_first();
    assert_eq!(l.selected_item(), None);
    l.select_last();
    assert_eq!(l.selected_item(), None);
    l.select_next();
    l.select_previous();
    l.select_nth_next(3);
    l.select_nth_previous(3);
    assert_eq!(l.selected_item(), None);
    assert_eq!(l.selected_index(), None);
}

fn sample_graph() -> CallGraph {
    let mut g = CallGraph::new();
    g.add_edge(0, 1, described(10, "a"));
    g.add_edge(0, 2, described(30, "b"));
    g.add_edge(3, 2, described(30, "c"));
    g.add_edge(1, 2, described(5, "d"));
    g
}

fn ids(list: &[CallStack]) -> Vec<(usize, usize, u64)> {
    list.iter().map(|s| (s.caller_id, s.callee_id, s.allocated_bytes)).collect()
}

#[test]
fn navigation_starts_at_the_roots() {
    let g = sample_graph();
    let c = CallGraphController::new(&g);
    let (callees, active) = c.callee_list();
    assert!(active);
    assert_eq!(ids(callees.items()), vec![(0, 2, 30), (3, 2, 30), (0, 1, 10)]);
    let (callers, active) = c.caller_list();
    assert!(!active);
    assert!(callers.items().is_empty());
    assert!(c.are_callees_selected());
}

#[test]
fn enter_then_leave_restores_the_view() {
    let g = sample_graph();
    let mut c = CallGraphController::new(&g);
    let before = (ids(c.callee_list().0.items()), c.callee_list().0.selected_index());
    c.enter_selected();
    assert_eq!(c.current_history(), &vec![2]);
    assert_eq!(ids(c.caller_list().0.items()), vec![(0, 2, 30), (3, 2, 30), (1, 2, 5)]);
    assert!(c.callee_list().0.items().is_empty());
    c.leave_current();
    assert!(c.current_history().is_empty());
    assert_eq!((ids(c.callee_list().0.items()), c.callee_list().0.selected_index()), before);

    c.select_callers();
    assert!(c.are_callers_selected());
    c.enter_selected();
    assert!(c.current_history().is_empty());
    c.select_callees();
    c.select_last();
    c.enter_selected();
    assert_eq!(c.current_history(), &vec![1]);
    c.select_callers();
    c.enter_selected();
    assert_eq!(c.current_history(), &vec![1, 0]);
    assert_eq!(ids(c.callee_list().0.items()), vec![(0, 2, 30), (0, 1, 10)]);
    c.leave_current();
    assert_eq!(ids(c.callee_list().0.items()), vec![(1, 2, 5)]);
    assert_eq!(ids(c.caller_list().0.items()), vec![(0, 1, 10)]);
    c.leave_current();
    c.leave_current();
    assert!(c.current_history().is_empty());
}

fn sample_tree() -> massif_collect::tree::CallerTree {
    let mut b = CallerTreeBuilder::new();
    b.add_root(0, 100);
    b.add_call(1, 0, 60).unwrap();
    b.add_call(3, 1, 60).unwrap();
    b.add_call(2, 0, 40).unwrap();
    b.add_root(9, 7);
    b.build()
}

fn rows(c: &CallerTreeController) -> Vec<(usize, usize, u64, usize)> {
    c.iter().iter().map(|r| (r.id, r.child_count, r.bytes, r.depth)).collect()
}

#[test]
fn tree_view_expands_and_folds() {
    let t = sample_tree();
    let mut c = CallerTreeController::new(&t);
    assert_eq!(rows(&c), vec![(0, 2, 100, 0), (9, 0, 7, 0)]);
    assert!(c.is_selected(0));
    c.toggle_selected();
    assert_eq!(rows(&c), vec![(0, 2, 100, 0), (1, 1, 60, 1), (2, 0, 40, 1), (9, 0, 7, 0)]);
    c.select_next(10);
    assert!(c.is_selected(1));
    c.toggle_selected();
    assert_eq!(
        rows(&c),
        vec![(0, 2, 100, 0), (1, 1, 60, 1), (3, 0, 60, 2), (2, 0, 40, 1), (9, 0, 7, 0)]
    );
    c.select_previous();
    c.toggle_selected();
    assert_eq!(rows(&c), vec![(0, 2, 100, 0), (9, 0, 7, 0)]);
    c.reset();
    assert_eq!(rows(&c), vec![(0, 2, 100, 0), (9, 0, 7, 0)]);
}

#[test]
fn tree_view_scrolls_by_pages() {
    let t = sample_tree();
    let mut c = CallerTreeController::new(&t);
    c.toggle_selected();
    c.select_nth_next(2, 2);
    assert!(c.is_selected(1));
    assert_eq!(rows(&c), vec![(1, 1, 60, 1), (2, 0, 40, 1), (9, 0, 7, 0)]);
    c.select_nth_next(10, 2);
    assert_eq!(rows(&c), vec![(2, 0, 40, 1), (9, 0, 7, 0)]);
    assert!(c.is_selected(1));
    c.select_nth_previous(10);
    assert!(c.is_selected(0));
    assert_eq!(rows(&c), vec![(0, 2, 100, 0), (1, 1, 60, 1), (2, 0, 40, 1), (9, 0, 7, 0)]);
}

#[test]
fn read_reports_parse_errors() {

    assert_eq!(
        read("desc: x\n#---\nsnapshot=0\n#---\nn0 1 f\n").err(),
        Some(ReadError::Parse(ParseError { line: 5, kind: ParseErrorKind::Malformed }))
    );
}

#[test]
fn it_parses_trees() {
    let tree = "\
        n2: 11592561 0x15266383: leafmost_allocation() (in liballoc.so)\n\
         n0: 11592452 0x4E241956: string_allocations() (in libstrings.so)\n\
         n0: 109 in 1 place, below massif's threshold (0.01%)\n\
        ";
    let triples = sample_triples(tree).unwrap();
    assert_eq!(
        triples,
        vec![
            Triple {
                caller: CallDescriptor::Inner(0x15266383),
                callee: None,
                allocation: described(11592561, "leafmost_allocation() (in liballoc.so)"),
            },
            Triple {
                caller: CallDescriptor::Inner(0x4E241956),
                callee: Some(CallDescriptor::Inner(0x15266383)),
                allocation: described(11592452, "string_allocations() (in libstrings.so)"),
            },
            Triple {
                caller: CallDescriptor::Root,
                callee: Some(CallDescriptor::Inner(0x15266383)),
                allocation: Allocation { bytes: 109, location: Location::Omitted(1, "0.01".to_string()) },
            },
        ]
    );
    let samples = massif_collect::massif::parse_samples(tree).unwrap();
    assert_eq!(samples.iter().map(|s| (s.nb_callers, s.bytes)).collect::<Vec<_>>(), vec![(2, 11592561), (0, 11592452), (0, 109)]);
}

#[test]
fn leaving_at_the_roots_changes_nothing() {
    let g = sample_graph();
    let mut c = CallGraphController::new(&g);
    c.select_last();
    c.leave_current();
    assert_eq!(c.callee_list().0.selected_index(), Some(2));
    assert!(c.current_history().is_empty());
}

#[test]
fn leaving_restores_a_moved_selection() {
    let g = sample_graph();
    let mut c = CallGraphController::new(&g);
    c.select_next();
    c.enter_selected();
    assert_eq!(c.current_history(), &vec![2]);
    c.leave_current();
    assert_eq!(c.callee_list().0.selected_index(), Some(1));
    c.move_towards_callers();
    assert!(c.are_callers_selected());
    c.move_towards_callees();
    c.move_towards_callees();
    assert_eq!(c.current_history(), &vec![2]);
}

#[test]
fn prefixed_items_come_after_their_head() {
    let mut it = massif_collect::iters::prefixed(1, std::collections::VecDeque::from(vec![2, 3]));
    assert_eq!((it.next(), it.next(), it.next(), it.next()), (Some(1), Some(2), Some(3), None));
    let mut it = massif_collect::iters::PrefixedIter::new(None, std::collections::VecDeque::from(vec![4]));
    assert_eq!((it.next(), it.next()), (Some(4), None));
}
