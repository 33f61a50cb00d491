use eprofiler_tui::flamegraph::{
    get_node, get_zoom_node, thread_rank, FlameGraph, FlameNode,
};
use eprofiler_tui::layout::{cursor_frame_rect, layout_frames};

fn owned(parts: &[&str]) -> Vec<String> {
    parts.iter().map(|p| p.to_string()).collect()
}

fn check_sums(node: &FlameNode) {
    let child_sum: i64 = node.children.iter().map(|c| c.total_value).sum();
    assert_eq!(node.total_value, node.self_value + child_sum);
    for c in &node.children {
        check_sums(c);
    }
}

#[test]
fn insert_builds_path() {
    let mut g = FlameGraph::new();
    g.add_stack(&owned(&["t1", "main", "work"]), 10);
    assert_eq!(g.root.total_value, 10);
    assert_eq!(g.root.children.len(), 1);
    let t = &g.root.children[0];
    assert_eq!(t.name, "t1");
    assert_eq!(t.total_value, 10);
    assert_eq!(t.self_value, 0);
    let m = &t.children[0];
    assert_eq!(m.name, "main");
    let w = &m.children[0];
    assert_eq!(w.name, "work");
    assert_eq!(w.total_value, 10);
    assert_eq!(w.self_value, 10);
}

#[test]
fn insert_coalesces_shared_prefix() {
    let mut g = FlameGraph::new();
    g.add_stack(&owned(&["t1", "main", "alpha"]), 3);
    g.add_stack(&owned(&["t1", "main", "beta"]), 4);
    assert_eq!(g.root.children.len(), 1);
    let t = &g.root.children[0];
    assert_eq!(t.total_value, 7);
    assert_eq!(t.children.len(), 1);
    let m = &t.children[0];
    assert_eq!(m.name, "main");
    assert_eq!(m.total_value, 7);
    assert_eq!(m.children.len(), 2);
    check_sums(&g.root);
}

#[test]
fn structural_invariant_after_mixed_operations() {
    let mut g = FlameGraph::new();
    g.add_stack(&owned(&["t1", "a"]), 5);
    g.add_stack(&owned(&["t1", "a", "b"]), 2);
    g.add_stack(&owned(&["t2", "c"]), 9);
    let mut h = FlameGraph::new();
    h.add_stack(&owned(&["t1", "a"]), 1);
    h.add_stack(&owned(&["t3"]), 4);
    g.root.merge(&h.root);
    g.root.sort_recursive();
    check_sums(&g.root);
    assert_eq!(g.root.total_value, 21);
}

fn totals_of(node: &FlameNode, prefix: &mut Vec<String>, out: &mut Vec<(Vec<String>, i64, i64)>) {
    out.push((prefix.clone(), node.total_value, node.self_value));
    for c in &node.children {
        prefix.push(c.name.clone());
        totals_of(c, prefix, out);
        prefix.pop();
    }
}

#[test]
fn merge_order_does_not_change_totals() {
    let mut a = FlameGraph::new();
    a.add_stack(&owned(&["t1", "x"]), 2);
    a.add_stack(&owned(&["t2", "y", "z"]), 3);
    let mut b = FlameGraph::new();
    b.add_stack(&owned(&["t1", "x", "w"]), 5);
    b.add_stack(&owned(&["t3"]), 1);

    let mut ab = FlameGraph::new();
    ab.root.merge(&a.root);
    ab.root.merge(&b.root);
    let mut ba = FlameGraph::new();
    ba.root.merge(&b.root);
    ba.root.merge(&a.root);

    let mut ab_list = Vec::new();
    totals_of(&ab.root, &mut Vec::new(), &mut ab_list);
    let mut ba_list = Vec::new();
    totals_of(&ba.root, &mut Vec::new(), &mut ba_list);
    ab_list.sort();
    ba_list.sort();
    assert_eq!(ab_list, ba_list);
}

fn shape(node: &FlameNode) -> Vec<String> {
    let mut out = vec![node.name.clone()];
    for c in &node.children {
        out.extend(shape(c));
    }
    out
}

#[test]
fn sort_is_idempotent() {
    let mut g = FlameGraph::new();
    g.add_stack(&owned(&["t1", "small"]), 1);
    g.add_stack(&owned(&["t2", "big"]), 10);
    g.add_stack(&owned(&["t3", "mid"]), 5);
    g.add_stack(&owned(&["t4"]), 5);
    g.root.sort_recursive();
    let once = shape(&g.root);
    g.root.sort_recursive();
    let twice = shape(&g.root);
    assert_eq!(once, twice);
    assert_eq!(g.root.children[0].name, "t2");
}

#[test]
fn sort_orders_by_descending_total_stable_for_ties() {
    let mut g = FlameGraph::new();
    g.add_stack(&owned(&["first", "a"]), 3);
    g.add_stack(&owned(&["second"]), 3);
    g.add_stack(&owned(&["third"]), 8);
    g.root.sort_recursive();
    let names: Vec<&str> = g.root.children.iter().map(|c| c.name.as_str()).collect();
    assert_eq!(names, vec!["third", "first", "second"]);
}

#[test]
fn max_depth_counts_levels() {
    let mut g = FlameGraph::new();
    assert_eq!(g.root.max_depth(), 0);
    g.add_stack(&owned(&["t1", "a", "b"]), 1);
    assert_eq!(g.root.max_depth(), 3);
}

#[test]
fn zoom_node_follows_names_and_skips_missing() {
    let mut g = FlameGraph::new();
    g.add_stack(&owned(&["t1", "main", "leaf"]), 2);
    let z = get_zoom_node(&g.root, &owned(&["t1", "main"]));
    assert_eq!(z.name, "main");
    // a name with no matching child is skipped in place: "absent" leaves the
    // walk at the root, where no "main" child exists either
    let z2 = get_zoom_node(&g.root, &owned(&["absent", "main"]));
    assert_eq!(z2.name, "all");
    let z3 = get_zoom_node(&g.root, &owned(&["absent", "t1"]));
    assert_eq!(z3.name, "t1");
}

#[test]
fn get_node_follows_indices_and_skips_out_of_range() {
    let mut g = FlameGraph::new();
    g.add_stack(&owned(&["t1", "main"]), 2);
    let n = get_node(&g.root, &[0, 0]);
    assert_eq!(n.name, "main");
    // an out-of-range index is skipped in place
    let n2 = get_node(&g.root, &[7, 0]);
    assert_eq!(n2.name, "t1");
}

#[test]
fn thread_rank_finds_position() {
    let mut g = FlameGraph::new();
    g.add_stack(&owned(&["alpha"]), 1);
    g.add_stack(&owned(&["beta"]), 1);
    assert_eq!(thread_rank(&g.root, "beta"), 1);
    assert_eq!(thread_rank(&g.root, "missing"), 0);
}

#[test]
fn layout_tiles_exactly() {
    let mut g = FlameGraph::new();
    g.add_stack(&owned(&["t1", "a"]), 3);
    g.add_stack(&owned(&["t2", "b"]), 1);
    g.root.sort_recursive();
    let width: u16 = 40;
    let frames = layout_frames(&g.root, width, None);
    assert!(!frames.is_empty());
    assert_eq!(frames[0].x, 0);
    assert_eq!(frames[0].width, width);
    assert_eq!(frames[0].depth, 0);
    for f in &frames {
        assert!(f.width >= 1);
        assert!(f.x + f.width <= width);
    }
    // rectangles of one depth never overlap, and depth 1 sums to the width
    let mut depth1: Vec<(u16, u16)> = frames
        .iter()
        .filter(|f| f.depth == 1)
        .map(|f| (f.x, f.width))
        .collect();
    depth1.sort();
    let mut edge: u16 = 0;
    let mut sum: u16 = 0;
    for (x, w) in depth1 {
        assert!(x >= edge);
        assert_eq!(x, edge); // children of the root tile without gaps
        edge = x + w;
        sum += w;
    }
    assert_eq!(sum, width);
}

#[test]
fn layout_palette_by_thread_and_forced() {
    let mut g = FlameGraph::new();
    g.add_stack(&owned(&["t1", "a"]), 1);
    g.add_stack(&owned(&["t2", "b"]), 1);
    let frames = layout_frames(&g.root, 80, None);
    let t2 = frames.iter().find(|f| f.name == "t2").unwrap();
    assert_eq!(t2.palette_index, 1);
    let b = frames.iter().find(|f| f.name == "b").unwrap();
    assert_eq!(b.palette_index, 1);
    let forced = layout_frames(&g.root, 80, Some(5));
    assert!(forced.iter().all(|f| f.palette_index == 5));
}

#[test]
fn layout_empty_without_weight() {
    let g = FlameGraph::new();
    let frames = layout_frames(&g.root, 40, None);
    assert!(frames.is_empty());
}

#[test]
fn layout_omits_zero_width_subtrees() {
    let mut g = FlameGraph::new();
    g.add_stack(&owned(&["big", "inner"]), 10000);
    g.add_stack(&owned(&["tiny", "inner2"]), 1);
    let frames = layout_frames(&g.root, 4, None);
    assert!(frames.iter().all(|f| f.name != "tiny"));
    assert!(frames.iter().all(|f| f.name != "inner2"));
}

#[test]
fn cursor_rect_positions_and_clamps() {
    let mut g = FlameGraph::new();
    g.add_stack(&owned(&["t1", "a"]), 1);
    g.add_stack(&owned(&["t2", "b"]), 1);
    let r = cursor_frame_rect(&g.root, &[1], 100, None).unwrap();
    assert_eq!(r.name, "t2");
    assert_eq!(r.depth, 1);
    assert_eq!(r.x, 50);
    assert_eq!(r.width, 50);
    assert_eq!(r.palette_index, 1);
    assert!(cursor_frame_rect(&g.root, &[2], 100, None).is_none());
    let empty = FlameGraph::new();
    assert!(cursor_frame_rect(&empty.root, &[], 100, None).is_none());
}

#[test]
fn cursor_rect_width_floors_at_one_column() {
    let mut g = FlameGraph::new();
    g.add_stack(&owned(&["big"]), 10000);
    g.add_stack(&owned(&["tiny"]), 1);
    let r = cursor_frame_rect(&g.root, &[1], 4, None).unwrap();
    assert_eq!(r.name, "tiny");
    assert_eq!(r.width, 1);
}
