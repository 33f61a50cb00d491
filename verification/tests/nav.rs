use eprofiler_tui::flamegraph::FlameGraph;
use eprofiler_tui::state::{KeyInput, State};

fn owned(parts: &[&str]) -> Vec<String> {
    parts.iter().map(|p| p.to_string()).collect()
}

fn seeded_state() -> State {
    let mut st = State::new("127.0.0.1:4317".to_string());
    let mut g = FlameGraph::new();
    g.add_stack(&owned(&["worker-1", "main", "do_work"]), 10);
    g.add_stack(&owned(&["worker-2", "idle"]), 4);
    g.add_stack(&owned(&["io-thread"]), 1);
    g.root.sort_recursive();
    st.merge_flamegraph(g, 3);
    st
}

#[test]
fn merge_updates_counters_and_tree() {
    let st = seeded_state();
    assert_eq!(st.profiles_received, 1);
    assert_eq!(st.samples_received, 3);
    assert_eq!(st.flamegraph.root.total_value, 15);
    // sorted by descending total
    assert_eq!(st.flamegraph.root.children[0].name, "worker-1");
    assert_eq!(st.flamegraph.root.children[1].name, "worker-2");
    assert_eq!(st.flamegraph.root.children[2].name, "io-thread");
}

#[test]
fn frozen_drops_incoming_merges() {
    let mut st = seeded_state();
    st.handle_key(KeyInput::Char('f'));
    assert!(st.frozen);
    let mut g = FlameGraph::new();
    g.add_stack(&owned(&["worker-1"]), 100);
    st.merge_flamegraph(g, 1);
    assert_eq!(st.flamegraph.root.total_value, 15);
    assert_eq!(st.profiles_received, 1);
    st.handle_key(KeyInput::Char(' '));
    assert!(!st.frozen);
}

#[test]
fn quit_key_stops_running() {
    let mut st = seeded_state();
    assert!(st.running);
    st.handle_key(KeyInput::Char('q'));
    assert!(!st.running);
}

#[test]
fn cursor_moves_descend_ascend_and_sideways() {
    let mut st = seeded_state();
    st.handle_key(KeyInput::Down);
    assert_eq!(st.cursor_path, vec![0]);
    st.handle_key(KeyInput::Right);
    assert_eq!(st.cursor_path, vec![1]);
    st.handle_key(KeyInput::Right);
    assert_eq!(st.cursor_path, vec![2]);
    // no sibling past the last
    st.handle_key(KeyInput::Right);
    assert_eq!(st.cursor_path, vec![2]);
    st.handle_key(KeyInput::Left);
    assert_eq!(st.cursor_path, vec![1]);
    st.handle_key(KeyInput::Up);
    assert_eq!(st.cursor_path, Vec::<usize>::new());
    // ascending at the root is a no-op
    st.handle_key(KeyInput::Up);
    assert_eq!(st.cursor_path, Vec::<usize>::new());
    // descending on a leaf is a no-op
    let mut st2 = seeded_state();
    st2.handle_key(KeyInput::Down);
    st2.handle_key(KeyInput::Right);
    st2.handle_key(KeyInput::Right);
    st2.handle_key(KeyInput::Down);
    assert_eq!(st2.cursor_path, vec![2]);
}

#[test]
fn zoom_in_twice_builds_zoom_path() {
    let mut st = seeded_state();
    st.handle_key(KeyInput::Down);
    st.handle_key(KeyInput::Enter);
    assert_eq!(st.zoom_path, vec!["worker-1"]);
    assert_eq!(st.cursor_path, Vec::<usize>::new());
    st.handle_key(KeyInput::Down);
    st.handle_key(KeyInput::Enter);
    assert_eq!(st.zoom_path, vec!["worker-1", "main"]);
    // the cursor rectangle is now computed against the "main" node as root
    st.reconcile(80, 24);
    assert_eq!(st.selected_name, "main");
    assert_eq!(st.selected_total, 10);
    assert_eq!(st.selected_depth, 0);
}

#[test]
fn zoom_out_pops_one_level() {
    let mut st = seeded_state();
    st.handle_key(KeyInput::Down);
    st.handle_key(KeyInput::Enter);
    st.handle_key(KeyInput::Esc);
    assert_eq!(st.zoom_path, Vec::<String>::new());
    // at the root, zoom-out is a no-op
    st.handle_key(KeyInput::Esc);
    assert_eq!(st.zoom_path, Vec::<String>::new());
}

#[test]
fn zoom_in_without_cursor_is_noop() {
    let mut st = seeded_state();
    st.handle_key(KeyInput::Enter);
    assert_eq!(st.zoom_path, Vec::<String>::new());
}

#[test]
fn reset_clears_tree_and_navigation() {
    let mut st = seeded_state();
    st.handle_key(KeyInput::Down);
    st.handle_key(KeyInput::Char('r'));
    assert_eq!(st.flamegraph.root.total_value, 0);
    assert_eq!(st.flamegraph.root.children.len(), 0);
    assert_eq!(st.profiles_received, 0);
    assert_eq!(st.samples_received, 0);
    assert_eq!(st.cursor_path, Vec::<usize>::new());
    assert_eq!(st.zoom_path, Vec::<String>::new());
}

#[test]
fn empty_query_matches_all_threads_in_order() {
    let mut st = seeded_state();
    st.handle_key(KeyInput::Char('/'));
    assert!(st.search_active);
    let names: Vec<(String, usize)> = st.search_matches.clone();
    assert_eq!(
        names,
        vec![
            ("worker-1".to_string(), 0),
            ("worker-2".to_string(), 1),
            ("io-thread".to_string(), 2)
        ]
    );
}

#[test]
fn query_filters_case_insensitively() {
    let mut st = seeded_state();
    st.handle_key(KeyInput::Char('/'));
    for c in ['W', 'O', 'R', 'K'] {
        st.handle_key(KeyInput::Char(c));
    }
    assert_eq!(st.search_input, "WORK");
    let names: Vec<String> = st.search_matches.iter().map(|m| m.0.clone()).collect();
    assert_eq!(names, vec!["worker-1", "worker-2"]);
    // backspace down to "wor" keeps both, an impossible query drops all
    st.handle_key(KeyInput::Backspace);
    assert_eq!(st.search_input, "WOR");
    assert_eq!(st.search_matches.len(), 2);
    st.handle_key(KeyInput::Char('x'));
    assert_eq!(st.search_matches.len(), 0);
}

#[test]
fn search_confirm_replaces_zoom() {
    let mut st = seeded_state();
    st.handle_key(KeyInput::Down);
    st.handle_key(KeyInput::Enter);
    assert_eq!(st.zoom_path, vec!["worker-1"]);
    st.handle_key(KeyInput::Char('/'));
    st.handle_key(KeyInput::Down);
    st.handle_key(KeyInput::Enter);
    assert!(!st.search_active);
    assert_eq!(st.zoom_path, vec!["worker-2"]);
    assert_eq!(st.cursor_path, Vec::<usize>::new());
}

#[test]
fn search_cancel_keeps_zoom() {
    let mut st = seeded_state();
    st.handle_key(KeyInput::Down);
    st.handle_key(KeyInput::Enter);
    st.handle_key(KeyInput::Char('/'));
    st.handle_key(KeyInput::Esc);
    assert!(!st.search_active);
    assert_eq!(st.search_input, "");
    assert_eq!(st.zoom_path, vec!["worker-1"]);
}

#[test]
fn search_cursor_stays_in_range() {
    let mut st = seeded_state();
    st.handle_key(KeyInput::Char('/'));
    st.handle_key(KeyInput::Up);
    assert_eq!(st.search_cursor, 0);
    st.handle_key(KeyInput::Down);
    st.handle_key(KeyInput::Down);
    assert_eq!(st.search_cursor, 2);
    st.handle_key(KeyInput::Down);
    assert_eq!(st.search_cursor, 2);
    st.handle_key(KeyInput::Up);
    assert_eq!(st.search_cursor, 1);
}

#[test]
fn keys_route_to_search_while_active() {
    let mut st = seeded_state();
    st.handle_key(KeyInput::Char('/'));
    // 'q' is query input while searching, not quit
    st.handle_key(KeyInput::Char('q'));
    assert!(st.running);
    assert_eq!(st.search_input, "q");
}

#[test]
fn reconcile_clamps_scroll_and_updates_selection() {
    let mut st = seeded_state();
    st.handle_key(KeyInput::Down);
    st.reconcile(80, 24);
    assert_eq!(st.selected_name, "worker-1");
    assert_eq!(st.selected_total, 10);
    assert_eq!(st.selected_depth, 1);
    assert_eq!(st.scroll_y, 0);
    // a viewport of one row follows the cursor down
    let mut st2 = seeded_state();
    st2.handle_key(KeyInput::Down);
    st2.handle_key(KeyInput::Down);
    st2.reconcile(80, 1);
    assert_eq!(st2.scroll_y, 2);
    // stale cursor indices leave the previous selection untouched
    let mut st3 = seeded_state();
    st3.handle_key(KeyInput::Down);
    st3.reconcile(80, 24);
    st3.cursor_path = vec![9];
    st3.reconcile(80, 24);
    assert_eq!(st3.selected_name, "worker-1");
}

#[test]
fn waiting_state_reconciles_without_data() {
    let mut st = State::new("0.0.0.0:4317".to_string());
    let frames = st.reconcile(80, 24);
    assert!(frames.is_empty());
    assert_eq!(st.scroll_y, 0);
    assert_eq!(st.selected_name, "");
}
