//! The interactive session over the aggregated tree: zoom, cursor, scroll
//! and search, driven by key input, plus the per-redraw reconciliation that
//! keeps cursor and scroll consistent with the current layout.
use crate::flamegraph::{
    get_node, get_zoom_node, lemma_zoom_node_wf, names_of, spec_get_node,
    spec_zoom_node, thread_rank, find_name, FlameGraph, FlameNode, NodeV,
};
use crate::flamegraph::lemma_merge_wf;
use crate::laws::lemma_sort_wf;
use crate::layout::{
    cursor_frame_rect, cursor_walk, layout_frames, opt_int, rect_views, spec_layout, FrameRect,
    RectV,
};
use crate::text::{lower_of, push_char, str_contains, to_lowercase};
use vstd::prelude::*;

verus! {

/// One key of input, already freed of any terminal encoding.
pub enum KeyInput {
    Char(char),
    Up,
    Down,
    Left,
    Right,
    Enter,
    Esc,
    Backspace,
    Other,
}

/// The navigation state of the session.
pub struct State {
    pub running: bool,
    pub listen_addr: String,
    pub frozen: bool,
    pub flamegraph: FlameGraph,
    pub profiles_received: u64,
    pub samples_received: u64,
    pub scroll_y: usize,
    pub cursor_path: Vec<usize>,
    pub zoom_path: Vec<String>,
    pub selected_name: String,
    pub selected_self: i64,
    pub selected_total: i64,
    pub selected_depth: usize,
    pub search_active: bool,
    pub search_input: String,
    pub search_matches: Vec<(String, usize)>,
    pub search_cursor: usize,
}

/// The model of the search match list: each matched top-level name with its
/// original sibling index.
pub open spec fn matches_view(s: Seq<(String, usize)>) -> Seq<(Seq<char>, int)> {
    s.map_values(|p: (String, usize)| (p.0@, p.1 as int))
}

/// The top-level children whose lowercased name contains the lowercased
/// query (every child when the query is empty), each with its original
/// sibling index.
pub open spec fn matches_from(cs: Seq<NodeV>, q: Seq<char>, idx: int) -> Seq<(Seq<char>, int)>
    decreases cs.len(),
{
    if cs.len() == 0 {
        Seq::empty()
    } else {
        let hit = q.len() == 0 || crate::text::contains_sub(lower_of(cs[0].name), q);
        (if hit {
            seq![(cs[0].name, idx)]
        } else {
            Seq::<(Seq<char>, int)>::empty()
        }) + matches_from(cs.drop_first(), q, idx + 1)
    }
}

/// The names along a cursor path, skipping indices that are out of range.
pub open spec fn spec_path_names(n: NodeV, path: Seq<usize>) -> Seq<Seq<char>>
    decreases path.len(),
{
    if path.len() == 0 {
        Seq::empty()
    } else {
        if (path[0] as int) < n.children.len() {
            seq![n.children[path[0] as int].name] + spec_path_names(
                n.children[path[0] as int],
                path.drop_first(),
            )
        } else {
            spec_path_names(n, path.drop_first())
        }
    }
}

/// `x` capped at the largest `u64`.
pub open spec fn cap_u64(x: int) -> int {
    if x > u64::MAX as int {
        u64::MAX as int
    } else {
        x
    }
}

/// The palette forced onto the layout: when zoomed, the original sibling
/// rank of the zoomed thread, so it keeps its colour identity.
pub open spec fn forced_pal(o: State) -> Option<int> {
    if o.zoom_path@.len() > 0 {
        let f = find_name(o.flamegraph.root@.children, o.zoom_path@[0]@);
        Some(
            if f >= 0 {
                f
            } else {
                0
            },
        )
    } else {
        None
    }
}

pub open spec fn max2(a: int, b: int) -> int {
    if a >= b {
        a
    } else {
        b
    }
}

/// The deepest row any rectangle of the layout occupies, 0 when empty.
pub open spec fn max_depth_rects(s: Seq<RectV>) -> int
    decreases s.len(),
{
    if s.len() == 0 {
        0
    } else {
        max2(s[0].depth, max_depth_rects(s.drop_first()))
    }
}

pub proof fn lemma_max_depth_rects_nonneg(s: Seq<RectV>)
    ensures
        max_depth_rects(s) >= 0,
    decreases s.len(),
{
    if s.len() > 0 {
        lemma_max_depth_rects_nonneg(s.drop_first());
    }
}

/// The scroll offset after the per-redraw clamps: the cursor's depth is
/// brought inside the viewport, then the scroll is capped so the viewport
/// never runs past the deepest row.
pub open spec fn clamped_scroll(base: int, cd: int, vh: int, maxd: int) -> int {
    let s1 = if vh > 0 && cd < base {
        cd
    } else {
        base
    };
    let s2 = if vh > 0 && cd - s1 >= vh {
        cd - vh + 1
    } else {
        s1
    };
    let vslack = if vh >= 1 {
        vh - 1
    } else {
        0
    };
    let ms = if maxd >= vslack {
        maxd - vslack
    } else {
        0
    };
    if s2 > ms {
        ms
    } else {
        s2
    }
}

pub open spec fn same_tree(o: State, n: State) -> bool {
    &&& n.flamegraph.root@ == o.flamegraph.root@
    &&& n.profiles_received == o.profiles_received
    &&& n.samples_received == o.samples_received
}

pub open spec fn same_flags(o: State, n: State) -> bool {
    &&& n.running == o.running
    &&& n.frozen == o.frozen
    &&& n.listen_addr@ == o.listen_addr@
}

pub open spec fn same_selected(o: State, n: State) -> bool {
    &&& n.selected_name@ == o.selected_name@
    &&& n.selected_self == o.selected_self
    &&& n.selected_total == o.selected_total
    &&& n.selected_depth == o.selected_depth
}

pub open spec fn same_search(o: State, n: State) -> bool {
    &&& n.search_active == o.search_active
    &&& n.search_input@ == o.search_input@
    &&& matches_view(n.search_matches@) == matches_view(o.search_matches@)
    &&& n.search_cursor == o.search_cursor
}

pub open spec fn same_nav(o: State, n: State) -> bool {
    &&& names_of(n.zoom_path@) == names_of(o.zoom_path@)
    &&& n.cursor_path@ == o.cursor_path@
    &&& n.scroll_y == o.scroll_y
}

impl State {
    /// The state is always kept over a well-formed tree.
    pub open spec fn inv(self) -> bool {
        self.flamegraph.root@.wf()
    }

    /// The subtree currently treated as the rendering root.
    pub open spec fn zoomed_root(self) -> NodeV {
        spec_zoom_node(self.flamegraph.root@, names_of(self.zoom_path@))
    }

    /// The node under the cursor, relative to the zoomed root.
    pub open spec fn cursor_node(self) -> NodeV {
        spec_get_node(self.zoomed_root(), self.cursor_path@)
    }
}

/// No transition fired: the state is unchanged.
pub open spec fn t_nop(o: State, n: State) -> bool {
    same_tree(o, n) && same_flags(o, n) && same_selected(o, n) && same_search(o, n) && same_nav(
        o,
        n,
    )
}

/// Quit: the session stops running.
pub open spec fn t_quit(o: State, n: State) -> bool {
    &&& n.running == false
    &&& n.frozen == o.frozen
    &&& n.listen_addr@ == o.listen_addr@
    &&& same_tree(o, n)
    &&& same_selected(o, n)
    &&& same_search(o, n)
    &&& same_nav(o, n)
}

/// Freeze toggle: incoming merges are dropped while set.
pub open spec fn t_freeze(o: State, n: State) -> bool {
    &&& n.frozen == !o.frozen
    &&& n.running == o.running
    &&& n.listen_addr@ == o.listen_addr@
    &&& same_tree(o, n)
    &&& same_selected(o, n)
    &&& same_search(o, n)
    &&& same_nav(o, n)
}

/// Descend: when the node under the cursor has children, the cursor moves
/// to its first child.
pub open spec fn t_descend(o: State, n: State) -> bool {
    &&& same_tree(o, n)
    &&& same_flags(o, n)
    &&& same_selected(o, n)
    &&& same_search(o, n)
    &&& names_of(n.zoom_path@) == names_of(o.zoom_path@)
    &&& n.scroll_y == o.scroll_y
    &&& n.cursor_path@ == if o.cursor_node().children.len() > 0 {
        o.cursor_path@.push(0usize)
    } else {
        o.cursor_path@
    }
}

/// Ascend: the cursor moves back to its parent.
pub open spec fn t_ascend(o: State, n: State) -> bool {
    &&& same_tree(o, n)
    &&& same_flags(o, n)
    &&& same_selected(o, n)
    &&& same_search(o, n)
    &&& names_of(n.zoom_path@) == names_of(o.zoom_path@)
    &&& n.scroll_y == o.scroll_y
    &&& n.cursor_path@ == if o.cursor_path@.len() > 0 {
        o.cursor_path@.drop_last()
    } else {
        o.cursor_path@
    }
}

/// Previous sibling: the cursor's last index goes down one, floored at 0.
pub open spec fn t_left(o: State, n: State) -> bool {
    &&& same_tree(o, n)
    &&& same_flags(o, n)
    &&& same_selected(o, n)
    &&& same_search(o, n)
    &&& names_of(n.zoom_path@) == names_of(o.zoom_path@)
    &&& n.scroll_y == o.scroll_y
    &&& n.cursor_path@ == if o.cursor_path@.len() > 0 {
        let last = o.cursor_path@.last();
        o.cursor_path@.update(
            o.cursor_path@.len() - 1,
            (if last > 0 {
                (last - 1) as usize
            } else {
                0usize
            }),
        )
    } else {
        o.cursor_path@
    }
}

/// Next sibling: the cursor's last index goes up one while a sibling exists.
pub open spec fn t_right(o: State, n: State) -> bool {
    &&& same_tree(o, n)
    &&& same_flags(o, n)
    &&& same_selected(o, n)
    &&& same_search(o, n)
    &&& names_of(n.zoom_path@) == names_of(o.zoom_path@)
    &&& n.scroll_y == o.scroll_y
    &&& n.cursor_path@ == if o.cursor_path@.len() > 0 {
        let last = o.cursor_path@.last();
        let parent = spec_get_node(o.zoomed_root(), o.cursor_path@.drop_last());
        if last + 1 < parent.children.len() {
            o.cursor_path@.update(o.cursor_path@.len() - 1, (last + 1) as usize)
        } else {
            o.cursor_path@
        }
    } else {
        o.cursor_path@
    }
}

/// Zoom in: the names along the cursor path are appended to the zoom path,
/// the cursor is cleared and the scroll reset; nothing happens with an
/// empty cursor.
pub open spec fn t_zoom_in(o: State, n: State) -> bool {
    &&& same_tree(o, n)
    &&& same_flags(o, n)
    &&& same_selected(o, n)
    &&& same_search(o, n)
    &&& if o.cursor_path@.len() == 0 {
        same_nav(o, n)
    } else {
        &&& names_of(n.zoom_path@) == names_of(o.zoom_path@) + spec_path_names(
            o.zoomed_root(),
            o.cursor_path@,
        )
        &&& n.cursor_path@.len() == 0
        &&& n.scroll_y == 0
    }
}

/// Zoom out: the last zoom name is removed, the cursor cleared and the
/// scroll reset; nothing happens when not zoomed.
pub open spec fn t_zoom_out(o: State, n: State) -> bool {
    &&& same_tree(o, n)
    &&& same_flags(o, n)
    &&& same_selected(o, n)
    &&& same_search(o, n)
    &&& if o.zoom_path@.len() == 0 {
        same_nav(o, n)
    } else {
        &&& names_of(n.zoom_path@) == names_of(o.zoom_path@).drop_last()
        &&& n.cursor_path@.len() == 0
        &&& n.scroll_y == 0
    }
}

/// Reset: the tree is replaced by an empty one, the counters zeroed and
/// the navigation cleared.
pub open spec fn t_reset(o: State, n: State) -> bool {
    &&& n.flamegraph.root@ == NodeV::empty("all"@)
    &&& n.profiles_received == 0
    &&& n.samples_received == 0
    &&& names_of(n.zoom_path@) == Seq::<Seq<char>>::empty()
    &&& n.cursor_path@ == Seq::<usize>::empty()
    &&& n.scroll_y == 0
    &&& same_flags(o, n)
    &&& same_selected(o, n)
    &&& same_search(o, n)
}

/// Enter search: search mode opens with an empty query, whose match list is
/// every top-level child of the absolute root in sibling order.
pub open spec fn t_open_search(o: State, n: State) -> bool {
    &&& same_tree(o, n)
    &&& same_flags(o, n)
    &&& same_selected(o, n)
    &&& same_nav(o, n)
    &&& n.search_active == true
    &&& n.search_input@ == Seq::<char>::empty()
    &&& n.search_cursor == 0
    &&& matches_view(n.search_matches@) == matches_from(
        o.flamegraph.root@.children,
        lower_of(Seq::<char>::empty()),
        0,
    )
}

/// Leave search without acting: the search session state is discarded.
pub open spec fn t_search_cancel(o: State, n: State) -> bool {
    &&& same_tree(o, n)
    &&& same_flags(o, n)
    &&& same_selected(o, n)
    &&& same_nav(o, n)
    &&& n.search_active == false
    &&& n.search_input@ == Seq::<char>::empty()
    &&& matches_view(n.search_matches@) == Seq::<(Seq<char>, int)>::empty()
    &&& n.search_cursor == 0
}

/// Confirm search: when a match is selected, the zoom path is replaced by
/// exactly that name, the cursor cleared and the scroll reset; search mode
/// closes either way.
pub open spec fn t_search_confirm(o: State, n: State) -> bool {
    &&& same_tree(o, n)
    &&& same_flags(o, n)
    &&& same_selected(o, n)
    &&& n.search_active == false
    &&& n.search_input@ == Seq::<char>::empty()
    &&& matches_view(n.search_matches@) == Seq::<(Seq<char>, int)>::empty()
    &&& n.search_cursor == 0
    &&& if o.search_cursor < o.search_matches@.len() {
        &&& names_of(n.zoom_path@) == seq![o.search_matches@[o.search_cursor as int].0@]
        &&& n.cursor_path@.len() == 0
        &&& n.scroll_y == 0
    } else {
        same_nav(o, n)
    }
}

/// One character typed into the query: the match list is recomputed and the
/// match cursor reset.
pub open spec fn t_search_char(o: State, n: State, c: char) -> bool {
    &&& same_tree(o, n)
    &&& same_flags(o, n)
    &&& same_selected(o, n)
    &&& same_nav(o, n)
    &&& n.search_active == true
    &&& n.search_input@ == o.search_input@.push(c)
    &&& n.search_cursor == 0
    &&& matches_view(n.search_matches@) == matches_from(
        o.flamegraph.root@.children,
        lower_of(o.search_input@.push(c)),
        0,
    )
}

/// Backspace in the query: the last character is removed, the match list
/// recomputed and the match cursor reset.
pub open spec fn t_search_backspace(o: State, n: State) -> bool {
    &&& same_tree(o, n)
    &&& same_flags(o, n)
    &&& same_selected(o, n)
    &&& same_nav(o, n)
    &&& n.search_active == true
    &&& n.search_input@ == if o.search_input@.len() > 0 {
        o.search_input@.drop_last()
    } else {
        o.search_input@
    }
    &&& n.search_cursor == 0
    &&& matches_view(n.search_matches@) == matches_from(
        o.flamegraph.root@.children,
        lower_of(n.search_input@),
        0,
    )
}

/// The match cursor moves up one, floored at 0.
pub open spec fn t_search_up(o: State, n: State) -> bool {
    &&& same_tree(o, n)
    &&& same_flags(o, n)
    &&& same_selected(o, n)
    &&& same_nav(o, n)
    &&& n.search_active == o.search_active
    &&& n.search_input@ == o.search_input@
    &&& matches_view(n.search_matches@) == matches_view(o.search_matches@)
    &&& n.search_cursor == if o.search_cursor > 0 {
        (o.search_cursor - 1) as usize
    } else {
        0usize
    }
}

/// The match cursor moves down one while a further match exists.
pub open spec fn t_search_down(o: State, n: State) -> bool {
    &&& same_tree(o, n)
    &&& same_flags(o, n)
    &&& same_selected(o, n)
    &&& same_nav(o, n)
    &&& n.search_active == o.search_active
    &&& n.search_input@ == o.search_input@
    &&& matches_view(n.search_matches@) == matches_view(o.search_matches@)
    &&& n.search_cursor == if o.search_matches@.len() > 0 && o.search_cursor + 1
        < o.search_matches@.len() {
        (o.search_cursor + 1) as usize
    } else {
        o.search_cursor
    }
}

/// What one key does while searching.
pub open spec fn search_dispatch(o: State, n: State, key: KeyInput) -> bool {
    match key {
        KeyInput::Esc => t_search_cancel(o, n),
        KeyInput::Enter => t_search_confirm(o, n),
        KeyInput::Backspace => t_search_backspace(o, n),
        KeyInput::Up => t_search_up(o, n),
        KeyInput::Down => t_search_down(o, n),
        KeyInput::Char(c) => t_search_char(o, n, c),
        _ => t_nop(o, n),
    }
}

/// What one key does while browsing.
pub open spec fn browse_dispatch(o: State, n: State, key: KeyInput) -> bool {
    match key {
        KeyInput::Char(c) => {
            if c == 'q' || c == 'Q' {
                t_quit(o, n)
            } else if c == 'f' || c == ' ' {
                t_freeze(o, n)
            } else if c == 'j' {
                t_descend(o, n)
            } else if c == 'k' {
                t_ascend(o, n)
            } else if c == 'h' {
                t_left(o, n)
            } else if c == 'l' {
                t_right(o, n)
            } else if c == 'r' {
                t_reset(o, n)
            } else if c == '/' {
                t_open_search(o, n)
            } else {
                t_nop(o, n)
            }
        },
        KeyInput::Down => t_descend(o, n),
        KeyInput::Up => t_ascend(o, n),
        KeyInput::Left => t_left(o, n),
        KeyInput::Right => t_right(o, n),
        KeyInput::Enter => t_zoom_in(o, n),
        KeyInput::Esc => t_zoom_out(o, n),
        KeyInput::Backspace => t_zoom_out(o, n),
        KeyInput::Other => t_nop(o, n),
    }
}

/// The names along a cursor path from `root`, skipping out-of-range indices.
pub fn collect_path_names(root: &FlameNode, index_path: &[usize]) -> (r: Vec<String>)
    ensures
        names_of(r@) == spec_path_names(root@, index_path@),
{
    let mut out: Vec<String> = Vec::new();
    let mut node: &FlameNode = root;
    let mut i: usize = 0;
    proof {
        assert(index_path@.skip(0) =~= index_path@);
        assert(names_of(out@) =~= Seq::<Seq<char>>::empty());
    }
    while i < index_path.len()
        invariant
            i <= index_path@.len(),
            spec_path_names(root@, index_path@) == names_of(out@) + spec_path_names(
                node@,
                index_path@.skip(i as int),
            ),
        decreases index_path@.len() - i,
    {
        proof {
            assert(index_path@.skip(i as int)[0] == index_path@[i as int]);
            assert(index_path@.skip(i as int).drop_first() =~= index_path@.skip(i as int + 1));
            crate::flamegraph::views_of_len(node.children@);
        }
        let idx = index_path[i];
        if idx < node.children.len() {
            proof {
                crate::flamegraph::views_of_index(node.children@, idx as int);
            }
            let ghost pre = names_of(out@);
            out.push(node.children[idx].name.clone());
            node = &node.children[idx];
            proof {
                assert(names_of(out@) =~= pre.push(node@.name));
                assert(pre.push(node@.name) + spec_path_names(
                    node@,
                    index_path@.skip(i as int + 1),
                ) =~= pre + (seq![node@.name] + spec_path_names(
                    node@,
                    index_path@.skip(i as int + 1),
                )));
            }
        }
        i = i + 1;
    }
    proof {
        assert(index_path@.skip(index_path@.len() as int) =~= Seq::<usize>::empty());
        assert(names_of(out@) + Seq::<Seq<char>>::empty() =~= names_of(out@));
    }
    out
}

impl State {
    /// The initial session: running, live, an empty tree, and everything
    /// else cleared.
    pub fn new(listen_addr: String) -> (r: State)
        ensures
            r.inv(),
            r.running == true,
            r.listen_addr@ == listen_addr@,
            r.frozen == false,
            r.flamegraph.root@ == NodeV::empty("all"@),
            r.profiles_received == 0,
            r.samples_received == 0,
            r.scroll_y == 0,
            r.cursor_path@ == Seq::<usize>::empty(),
            names_of(r.zoom_path@) == Seq::<Seq<char>>::empty(),
            r.selected_name@ == Seq::<char>::empty(),
            r.selected_self == 0,
            r.selected_total == 0,
            r.selected_depth == 0,
            r.search_active == false,
            r.search_input@ == Seq::<char>::empty(),
            matches_view(r.search_matches@) == Seq::<(Seq<char>, int)>::empty(),
            r.search_cursor == 0,
    {
        let r = State {
            running: true,
            listen_addr,
            frozen: false,
            flamegraph: FlameGraph::new(),
            profiles_received: 0,
            samples_received: 0,
            scroll_y: 0,
            cursor_path: Vec::new(),
            zoom_path: Vec::new(),
            selected_name: String::new(),
            selected_self: 0,
            selected_total: 0,
            selected_depth: 0,
            search_active: false,
            search_input: String::new(),
            search_matches: Vec::new(),
            search_cursor: 0,
        };
        proof {
            assert(names_of(r.zoom_path@) =~= Seq::<Seq<char>>::empty());
            assert(matches_view(r.search_matches@) =~= Seq::<(Seq<char>, int)>::empty());
        }
        r
    }

    /// Merges one decoded batch into the aggregate and re-sorts it, keeping
    /// the counters, unless frozen — then the batch is discarded whole.  A
    /// batch whose weight cannot be added without exceeding the tree's
    /// capacity is also discarded.
    pub fn merge_flamegraph(&mut self, new_fg: FlameGraph, samples: u64)
        requires
            old(self).inv(),
            new_fg.root@.wf(),
        ensures
            final(self).inv(),
            old(self).frozen ==> *final(self) == *old(self),
            !old(self).frozen && old(self).flamegraph.root@.total + new_fg.root@.total
                > i64::MAX as int ==> *final(self) == *old(self),
            !old(self).frozen && old(self).flamegraph.root@.total + new_fg.root@.total
                <= i64::MAX as int ==> {
                &&& final(self).flamegraph.root@ == crate::flamegraph::spec_sort(
                    crate::flamegraph::spec_merge(old(self).flamegraph.root@, new_fg.root@),
                )
                &&& final(self).profiles_received as int == cap_u64(
                    old(self).profiles_received + 1,
                )
                &&& final(self).samples_received as int == cap_u64(
                    old(self).samples_received + samples,
                )
                &&& same_flags(*old(self), *final(self))
                &&& same_selected(*old(self), *final(self))
                &&& same_search(*old(self), *final(self))
                &&& same_nav(*old(self), *final(self))
            },
    {
        if self.frozen {
            return ;
        }
        proof {
            crate::flamegraph::lemma_wf_total_nonneg(new_fg.root@);
            crate::flamegraph::lemma_wf_total_nonneg(self.flamegraph.root@);
        }
        if self.flamegraph.root.total_value > i64::MAX - new_fg.root.total_value {
            return ;
        }
        self.flamegraph.root.merge(&new_fg.root);
        proof {
            lemma_merge_wf(old(self).flamegraph.root@, new_fg.root@);
            lemma_sort_wf(self.flamegraph.root@);
        }
        self.flamegraph.root.sort_recursive();
        if self.profiles_received < u64::MAX {
            self.profiles_received = self.profiles_received + 1;
        }
        if self.samples_received > u64::MAX - samples {
            self.samples_received = u64::MAX;
        } else {
            self.samples_received = self.samples_received + samples;
        }
    }

    /// Routes one key to the search or the browsing transitions, per §4.4's
    /// two modes.
    pub fn handle_key(&mut self, key: KeyInput)
        requires
            old(self).inv(),
        ensures
            final(self).inv(),
            old(self).search_active ==> search_dispatch(*old(self), *final(self), key),
            !old(self).search_active ==> browse_dispatch(*old(self), *final(self), key),
    {
        if self.search_active {
            self.handle_search_key(key);
            return ;
        }
        match key {
            KeyInput::Char(c) => {
                if c == 'q' || c == 'Q' {
                    self.running = false;
                } else if c == 'f' || c == ' ' {
                    self.frozen = !self.frozen;
                } else if c == 'j' {
                    self.move_down_depth();
                } else if c == 'k' {
                    self.move_up_depth();
                } else if c == 'h' {
                    self.move_left();
                } else if c == 'l' {
                    self.move_right();
                } else if c == 'r' {
                    self.reset();
                } else if c == '/' {
                    self.open_search();
                }
            },
            KeyInput::Down => self.move_down_depth(),
            KeyInput::Up => self.move_up_depth(),
            KeyInput::Left => self.move_left(),
            KeyInput::Right => self.move_right(),
            KeyInput::Enter => self.zoom_in(),
            KeyInput::Esc => self.zoom_out(),
            KeyInput::Backspace => self.zoom_out(),
            KeyInput::Other => {
            },
        }
    }

    fn move_down_depth(&mut self)
        requires
            old(self).inv(),
        ensures
            final(self).inv(),
            t_descend(*old(self), *final(self)),
    {
        let zr = get_zoom_node(&self.flamegraph.root, self.zoom_path.as_slice());
        let node = get_node(zr, self.cursor_path.as_slice());
        let has_children = node.children.len() > 0;
        proof {
            crate::flamegraph::views_of_len(node.children@);
        }
        if has_children {
            self.cursor_path.push(0);
        }
    }

    fn move_up_depth(&mut self)
        requires
            old(self).inv(),
        ensures
            final(self).inv(),
            t_ascend(*old(self), *final(self)),
    {
        let n = self.cursor_path.len();
        if n > 0 {
            self.cursor_path.pop();
            proof {
                assert(self.cursor_path@ =~= old(self).cursor_path@.drop_last());
            }
        }
    }

    fn move_left(&mut self)
        requires
            old(self).inv(),
        ensures
            final(self).inv(),
            t_left(*old(self), *final(self)),
    {
        let n = self.cursor_path.len();
        if n > 0 {
            let last = self.cursor_path[n - 1];
            let dec: usize = if last > 0 {
                last - 1
            } else {
                0
            };
            self.cursor_path.set(n - 1, dec);
        }
    }

    fn move_right(&mut self)
        requires
            old(self).inv(),
        ensures
            final(self).inv(),
            t_right(*old(self), *final(self)),
    {
        let n = self.cursor_path.len();
        if n == 0 {
            return ;
        }
        let num_siblings: usize = {
            let zr = get_zoom_node(&self.flamegraph.root, self.zoom_path.as_slice());
            let parent = get_node(zr, &self.cursor_path.as_slice()[0..n - 1]);
            proof {
                assert(self.cursor_path@.subrange(0, n as int - 1) =~= self.cursor_path@.drop_last());
                crate::flamegraph::views_of_len(parent.children@);
            }
            parent.children.len()
        };
        let last = self.cursor_path[n - 1];
        if num_siblings > 0 && last < num_siblings - 1 {
            self.cursor_path.set(n - 1, last + 1);
        }
    }

    fn zoom_in(&mut self)
        requires
            old(self).inv(),
        ensures
            final(self).inv(),
            t_zoom_in(*old(self), *final(self)),
    {
        if self.cursor_path.len() == 0 {
            return ;
        }
        let new_names = {
            let zr = get_zoom_node(&self.flamegraph.root, self.zoom_path.as_slice());
            collect_path_names(zr, self.cursor_path.as_slice())
        };
        let ghost pre = names_of(self.zoom_path@);
        let mut k: usize = 0;
        let nn = new_names.len();
        proof {
            assert(names_of(new_names@).subrange(0, 0) =~= Seq::<Seq<char>>::empty());
            assert(pre + names_of(new_names@).subrange(0, 0) =~= pre);
        }
        while k < nn
            invariant
                k <= nn,
                nn == new_names@.len(),
                names_of(self.zoom_path@) == pre + names_of(new_names@).subrange(0, k as int),
                same_tree(*old(self), *self),
                same_flags(*old(self), *self),
                same_selected(*old(self), *self),
                same_search(*old(self), *self),
                self.cursor_path@ == old(self).cursor_path@,
                self.scroll_y == old(self).scroll_y,
                self.flamegraph.root@ == old(self).flamegraph.root@,
            decreases nn - k,
        {
            let ghost zp = names_of(self.zoom_path@);
            self.zoom_path.push(new_names[k].clone());
            proof {
                assert(names_of(self.zoom_path@) =~= zp.push(new_names@[k as int]@));
                assert(names_of(new_names@)[k as int] == new_names@[k as int]@);
                assert(zp.push(new_names@[k as int]@) =~= pre + names_of(new_names@).subrange(
                    0,
                    k as int + 1,
                ));
            }
            k = k + 1;
        }
        proof {
            assert(names_of(new_names@).subrange(0, nn as int) =~= names_of(new_names@));
        }
        self.cursor_path.clear();
        self.scroll_y = 0;
    }

    fn zoom_out(&mut self)
        requires
            old(self).inv(),
        ensures
            final(self).inv(),
            t_zoom_out(*old(self), *final(self)),
    {
        if self.zoom_path.len() > 0 {
            self.zoom_path.pop();
            self.cursor_path.clear();
            self.scroll_y = 0;
            proof {
                assert(names_of(self.zoom_path@) =~= names_of(old(self).zoom_path@).drop_last());
            }
        }
    }

    fn reset(&mut self)
        requires
            old(self).inv(),
        ensures
            final(self).inv(),
            t_reset(*old(self), *final(self)),
    {
        self.flamegraph = FlameGraph::new();
        self.profiles_received = 0;
        self.samples_received = 0;
        self.zoom_path.clear();
        self.cursor_path.clear();
        self.scroll_y = 0;
        proof {
            assert(names_of(self.zoom_path@) =~= Seq::<Seq<char>>::empty());
        }
    }

    fn open_search(&mut self)
        requires
            old(self).inv(),
        ensures
            final(self).inv(),
            t_open_search(*old(self), *final(self)),
    {
        self.search_active = true;
        self.search_input = String::new();
        self.search_cursor = 0;
        self.update_search_matches();
    }

    fn close_search(&mut self)
        requires
            old(self).inv(),
        ensures
            final(self).inv(),
            same_tree(*old(self), *final(self)),
            same_flags(*old(self), *final(self)),
            same_selected(*old(self), *final(self)),
            same_nav(*old(self), *final(self)),
            final(self).search_active == false,
            final(self).search_input@ == Seq::<char>::empty(),
            matches_view(final(self).search_matches@) == Seq::<(Seq<char>, int)>::empty(),
            final(self).search_cursor == 0,
    {
        self.search_active = false;
        self.search_input = String::new();
        self.search_matches = Vec::new();
        self.search_cursor = 0;
        proof {
            assert(matches_view(self.search_matches@) =~= Seq::<(Seq<char>, int)>::empty());
        }
    }

    fn handle_search_key(&mut self, key: KeyInput)
        requires
            old(self).inv(),
            old(self).search_active,
        ensures
            final(self).inv(),
            search_dispatch(*old(self), *final(self), key),
    {
        match key {
            KeyInput::Esc => {
                self.close_search();
            },
            KeyInput::Enter => {
                self.confirm_search();
            },
            KeyInput::Backspace => {
                let n = self.search_input.as_str().unicode_len();
                if n > 0 {
                    let shorter = self.search_input.as_str().substring_char(0, n - 1).to_owned();
                    self.search_input = shorter;
                    proof {
                        assert(self.search_input@ =~= old(self).search_input@.drop_last());
                    }
                }
                self.search_cursor = 0;
                self.update_search_matches();
            },
            KeyInput::Up => {
                if self.search_cursor > 0 {
                    self.search_cursor = self.search_cursor - 1;
                }
            },
            KeyInput::Down => {
                if self.search_matches.len() > 0 && self.search_cursor < self.search_matches.len()
                    - 1 {
                    self.search_cursor = self.search_cursor + 1;
                }
            },
            KeyInput::Char(c) => {
                push_char(&mut self.search_input, c);
                self.search_cursor = 0;
                self.update_search_matches();
            },
            _ => {
            },
        }
    }

    /// Recomputes the match list: every top-level child of the absolute
    /// root whose lowercased name contains the lowercased query, in
    /// original sibling order, or every child for an empty query.
    fn update_search_matches(&mut self)
        requires
            old(self).inv(),
        ensures
            final(self).inv(),
            same_tree(*old(self), *final(self)),
            same_flags(*old(self), *final(self)),
            same_selected(*old(self), *final(self)),
            same_nav(*old(self), *final(self)),
            final(self).search_active == old(self).search_active,
            final(self).search_input@ == old(self).search_input@,
            final(self).search_cursor == old(self).search_cursor,
            matches_view(final(self).search_matches@) == matches_from(
                old(self).flamegraph.root@.children,
                lower_of(old(self).search_input@),
                0,
            ),
    {
        let query = to_lowercase(self.search_input.as_str());
        let qempty = query.as_str().is_empty();
        let mut found: Vec<(String, usize)> = Vec::new();
        let n = self.flamegraph.root.children.len();
        let ghost cs = self.flamegraph.root@.children;
        let mut i: usize = 0;
        proof {
            crate::flamegraph::views_of_len(self.flamegraph.root.children@);
            assert(cs.skip(0) =~= cs);
            assert(matches_view(found@) =~= Seq::<(Seq<char>, int)>::empty());
        }
        while i < n
            invariant
                i <= n,
                n == cs.len(),
                cs == self.flamegraph.root@.children,
                query@ == lower_of(self.search_input@),
                qempty == (query@.len() == 0),
                matches_from(cs, query@, 0) == matches_view(found@) + matches_from(
                    cs.skip(i as int),
                    query@,
                    i as int,
                ),
            decreases n - i,
        {
            proof {
                assert(cs.skip(i as int)[0] == cs[i as int]);
                assert(cs.skip(i as int).drop_first() =~= cs.skip(i as int + 1));
                crate::flamegraph::views_of_len(self.flamegraph.root.children@);
                crate::flamegraph::views_of_index(self.flamegraph.root.children@, i as int);
            }
            let child = &self.flamegraph.root.children[i];
            let lname = to_lowercase(child.name.as_str());
            let hit = if qempty {
                true
            } else {
                str_contains(lname.as_str(), query.as_str())
            };
            if hit {
                let ghost pre = matches_view(found@);
                found.push((child.name.clone(), i));
                proof {
                    assert(matches_view(found@) =~= pre.push((cs[i as int].name, i as int)));
                    assert(pre.push((cs[i as int].name, i as int)) =~= pre + (seq![
                        (cs[i as int].name, i as int),
                    ] + Seq::<(Seq<char>, int)>::empty()));
                    assert(seq![(cs[i as int].name, i as int)] + Seq::<(Seq<char>, int)>::empty()
                        =~= seq![(cs[i as int].name, i as int)]);
                }
            }
            i = i + 1;
        }
        proof {
            assert(cs.skip(n as int) =~= Seq::<NodeV>::empty());
            assert(matches_view(found@) + Seq::<(Seq<char>, int)>::empty() =~= matches_view(
                found@,
            ));
        }
        self.search_matches = found;
    }

    /// The layout of the zoomed subtree for the coming redraw, together
    /// with the mandatory reconciliation: the scroll is clamped so that the
    /// cursor's depth stays inside the viewport and never runs past the
    /// deepest row, and the selection summary is refreshed from the cursor
    /// rectangle — or left as it was when the cursor's indices have gone
    /// stale, which a later clamp resolves.
    #[verifier::rlimit(80)]
    pub fn reconcile(&mut self, area_width: u16, viewport_height: usize) -> (frames: Vec<FrameRect>)
        requires
            old(self).inv(),
        ensures
            final(self).inv(),
            same_tree(*old(self), *final(self)),
            same_flags(*old(self), *final(self)),
            same_search(*old(self), *final(self)),
            names_of(final(self).zoom_path@) == names_of(old(self).zoom_path@),
            final(self).cursor_path@ == old(self).cursor_path@,
            old(self).zoomed_root().total <= 0 ==> frames@.len() == 0,
            old(self).zoomed_root().total > 0 ==> rect_views(frames@) == spec_layout(
                old(self).zoomed_root(),
                0,
                0,
                forced_pal(*old(self)),
                area_width as int,
                old(self).zoomed_root().total,
            ),
            final(self).scroll_y as int == clamped_scroll(
                old(self).scroll_y as int,
                old(self).cursor_path@.len() as int,
                viewport_height as int,
                max_depth_rects(rect_views(frames@)),
            ),
            ({
                let zr = old(self).zoomed_root();
                let cw = cursor_walk(zr, old(self).cursor_path@, 0);
                if zr.total > 0 && cw is Some {
                    let node = cw->Some_0.0;
                    &&& final(self).selected_name@ == node.name
                    &&& final(self).selected_self == node.self_val
                    &&& final(self).selected_total == node.total
                    &&& final(self).selected_depth == old(self).cursor_path@.len()
                } else {
                    same_selected(*old(self), *final(self))
                }
            }),
    {
        let ghost o = *old(self);
        let zr = get_zoom_node(&self.flamegraph.root, self.zoom_path.as_slice());
        proof {
            lemma_zoom_node_wf(self.flamegraph.root@, names_of(self.zoom_path@));
        }
        let forced: Option<usize> = if self.zoom_path.len() > 0 {
            Some(thread_rank(&self.flamegraph.root, self.zoom_path[0].as_str()))
        } else {
            None
        };
        proof {
            if self.zoom_path@.len() > 0 {
                assert(names_of(self.zoom_path@)[0] == self.zoom_path@[0]@);
            }
            assert(opt_int(forced) == forced_pal(o));
        }
        let frames = layout_frames(zr, area_width, forced);
        let cursor_rect = cursor_frame_rect(
            zr,
            self.cursor_path.as_slice(),
            area_width,
            forced,
        );
        let mut maxd: usize = 0;
        let nf = frames.len();
        let mut i: usize = 0;
        let ghost rvs = rect_views(frames@);
        proof {
            assert(rvs.skip(0) =~= rvs);
        }
        while i < nf
            invariant
                i <= nf,
                nf == rvs.len(),
                rvs == rect_views(frames@),
                max2(maxd as int, max_depth_rects(rvs.skip(i as int))) == max_depth_rects(rvs),
            decreases nf - i,
        {
            proof {
                assert(rvs.skip(i as int)[0] == rvs[i as int]);
                assert(rvs.skip(i as int).drop_first() =~= rvs.skip(i as int + 1));
                assert(rvs[i as int] == frames@[i as int]@);
                lemma_max_depth_rects_nonneg(rvs.skip(i as int + 1));
            }
            let d = frames[i].depth;
            if d > maxd {
                maxd = d;
            }
            i = i + 1;
        }
        proof {
            assert(rvs.skip(nf as int) =~= Seq::<RectV>::empty());
            lemma_max_depth_rects_nonneg(rvs);
        }
        let cd = self.cursor_path.len();
        if viewport_height > 0 {
            if cd < self.scroll_y {
                self.scroll_y = cd;
            }
            if cd - self.scroll_y >= viewport_height {
                self.scroll_y = cd - viewport_height + 1;
            }
        }
        let vslack: usize = if viewport_height >= 1 {
            viewport_height - 1
        } else {
            0
        };
        let max_scroll: usize = if maxd >= vslack {
            maxd - vslack
        } else {
            0
        };
        if self.scroll_y > max_scroll {
            self.scroll_y = max_scroll;
        }
        match cursor_rect {
            Some(cr) => {
                self.selected_name = cr.name;
                self.selected_self = cr.self_value;
                self.selected_total = cr.total_value;
                self.selected_depth = cr.depth;
            },
            None => {
            },
        }
        frames
    }

    fn confirm_search(&mut self)
        requires
            old(self).inv(),
        ensures
            final(self).inv(),
            t_search_confirm(*old(self), *final(self)),
    {
        if self.search_cursor < self.search_matches.len() {
            let name = self.search_matches[self.search_cursor].0.clone();
            self.zoom_path.clear();
            self.zoom_path.push(name);
            self.cursor_path.clear();
            self.scroll_y = 0;
            proof {
                assert(names_of(self.zoom_path@) =~= seq![
                    old(self).search_matches@[old(self).search_cursor as int].0@,
                ]);
            }
        }
        self.close_search();
    }
}

} // verus!