//! Lays a subtree of the flame graph out as proportional-width rectangles.
//!
//! Horizontal positions are exact: a node spanning the weight interval
//! `[a, a + total)` of a root with weight `t` on a screen of width `w` gets
//! the columns from `pos_of(a, w, t)` to `pos_of(a + total, w, t)`, where
//! `pos_of` rounds `a * w / t` half up.  Siblings therefore tile without
//! gaps or overlaps, and a rectangle that rounds to width zero is omitted
//! together with its whole subtree.
use crate::flamegraph::{
    all_wf, cap_usize, lemma_max_depth_nonneg, lemma_max_depths_elem, lemma_max_depths_nonneg,
    lemma_sum_push, lemma_sum_wf_nonneg, lemma_wf_total_nonneg, max_depths, spec_max_depth,
    sum_totals, views_of_index, views_of_len, FlameNode, NodeV,
};
use vstd::arithmetic::div_mod::{
    lemma_basic_div, lemma_div_is_ordered, lemma_fundamental_div_mod_converse,
};
use vstd::prelude::*;

verus! {

/// One rectangle of the rendered flame graph, in screen columns.
pub struct FrameRect {
    pub x: u16,
    pub width: u16,
    pub depth: usize,
    pub name: String,
    pub self_value: i64,
    pub total_value: i64,
    pub palette_index: usize,
}

/// Mathematical model of one rectangle.
#[verifier::ext_equal]
pub ghost struct RectV {
    pub x: int,
    pub width: int,
    pub depth: int,
    pub name: Seq<char>,
    pub self_val: int,
    pub total: int,
    pub palette: int,
}

impl View for FrameRect {
    type V = RectV;

    open spec fn view(&self) -> RectV {
        RectV {
            x: self.x as int,
            width: self.width as int,
            depth: self.depth as int,
            name: self.name@,
            self_val: self.self_value as int,
            total: self.total_value as int,
            palette: self.palette_index as int,
        }
    }
}

/// The models of a list of rectangles.
pub open spec fn rect_views(s: Seq<FrameRect>) -> Seq<RectV> {
    s.map_values(|r: FrameRect| r@)
}

/// Screen column of weight offset `v` in a root of weight `t` drawn `w`
/// columns wide: `v * w / t` rounded half up.
pub open spec fn pos_of(v: int, w: int, t: int) -> int {
    (2 * v * w + t) / (2 * t)
}

pub proof fn lemma_pos_zero(w: int, t: int)
    requires
        t >= 1,
        w >= 0,
    ensures
        pos_of(0, w, t) == 0,
{
    assert(2 * 0 * w + t == t) by (nonlinear_arith);
    lemma_basic_div(t, 2 * t);
}

pub proof fn lemma_pos_full(w: int, t: int)
    requires
        t >= 1,
        w >= 0,
    ensures
        pos_of(t, w, t) == w,
{
    assert(2 * t * w + t == w * (2 * t) + t) by (nonlinear_arith);
    lemma_fundamental_div_mod_converse(2 * t * w + t, 2 * t, w, t);
}

pub proof fn lemma_pos_mono(v1: int, v2: int, w: int, t: int)
    requires
        t >= 1,
        w >= 0,
        v1 <= v2,
    ensures
        pos_of(v1, w, t) <= pos_of(v2, w, t),
{
    assert(2 * v1 * w <= 2 * v2 * w) by (nonlinear_arith)
        requires
            v1 <= v2,
            w >= 0,
    ;
    lemma_div_is_ordered(2 * v1 * w + t, 2 * v2 * w + t, 2 * t);
}

/// For weight offsets between 0 and the root weight, the column is between
/// 0 and the width.
pub proof fn lemma_pos_range(v: int, w: int, t: int)
    requires
        t >= 1,
        w >= 0,
        0 <= v <= t,
    ensures
        0 <= pos_of(v, w, t) <= w,
{
    lemma_pos_zero(w, t);
    lemma_pos_full(w, t);
    lemma_pos_mono(0, v, w, t);
    lemma_pos_mono(v, t, w, t);
}

/// Exact integer computation of `pos_of`.
fn pos_calc(v: i64, w: u16, t: i64) -> (r: u16)
    requires
        1 <= t,
        0 <= v <= t,
    ensures
        r as int == pos_of(v as int, w as int, t as int),
        r <= w,
{
    proof {
        lemma_pos_range(v as int, w as int, t as int);
        assert(0 <= 2 * (v as int) * (w as int) && 2 * (v as int) * (w as int) <= 2 * (
        i64::MAX as int) * (u16::MAX as int)) by (nonlinear_arith)
            requires
                0 <= v <= i64::MAX as int,
                0 <= w <= u16::MAX as int,
        ;
    }
    let num: i128 = 2 * (v as i128) * (w as i128) + (t as i128);
    let den: i128 = 2 * (t as i128);
    let q: i128 = num / den;
    q as u16
}

/// Palette index of a forced palette, 0 when none is forced.
pub open spec fn pal_val(p: Option<int>) -> int {
    match p {
        Some(q) => q,
        None => 0,
    }
}

/// The palette handed to child number `idx`: at the top level of an
/// unforced layout each top-level child gets its own sibling index,
/// everywhere else the palette is inherited.
pub open spec fn child_pal(p: Option<int>, depth: int, idx: int) -> int {
    if depth == 0 && p is None {
        idx
    } else {
        pal_val(p)
    }
}

pub open spec fn opt_int(p: Option<usize>) -> Option<int> {
    match p {
        Some(q) => Some(q as int),
        None => None,
    }
}

/// The rectangles of the subtree at `n`, whose weights span `[a, a + total)`
/// of a root of weight `t`, drawn `w` columns wide: the node's own rectangle
/// (omitted, with the whole subtree, when it rounds to width zero) followed
/// by the rectangles of the children, left to right.
pub open spec fn spec_layout(n: NodeV, a: int, depth: int, pal: Option<int>, w: int, t: int) -> Seq<
    RectV,
>
    decreases n, 0int,
{
    let x0 = pos_of(a, w, t);
    let x1 = pos_of(a + n.total, w, t);
    if x1 - x0 == 0 {
        Seq::empty()
    } else {
        seq![
            RectV {
                x: x0,
                width: x1 - x0,
                depth,
                name: n.name,
                self_val: n.self_val,
                total: n.total,
                palette: pal_val(pal),
            },
        ] + spec_layout_children(n.children, a, depth, pal, 0, w, t)
    }
}

pub open spec fn spec_layout_children(
    cs: Seq<NodeV>,
    a: int,
    depth: int,
    pal: Option<int>,
    idx: int,
    w: int,
    t: int,
) -> Seq<RectV>
    decreases cs, 1int,
{
    if cs.len() == 0 {
        Seq::empty()
    } else {
        spec_layout(cs[0], a, cap_usize(depth + 1), Some(child_pal(pal, depth, idx)), w, t)
            + spec_layout_children(cs.drop_first(), a + cs[0].total, depth, pal, idx + 1, w, t)
    }
}

pub proof fn lemma_layout_children_snoc(
    cs: Seq<NodeV>,
    c: NodeV,
    a: int,
    depth: int,
    pal: Option<int>,
    idx: int,
    w: int,
    t: int,
)
    ensures
        spec_layout_children(cs.push(c), a, depth, pal, idx, w, t) =~= spec_layout_children(
            cs,
            a,
            depth,
            pal,
            idx,
            w,
            t,
        ) + spec_layout(
            c,
            a + sum_totals(cs),
            cap_usize(depth + 1),
            Some(child_pal(pal, depth, idx + cs.len())),
            w,
            t,
        ),
    decreases cs.len(),
{
    if cs.len() == 0 {
        assert(cs.push(c)[0] == c);
        assert(cs.push(c).drop_first() =~= Seq::<NodeV>::empty());
        let lay = spec_layout(c, a, cap_usize(depth + 1), Some(child_pal(pal, depth, idx)), w, t);
        assert(spec_layout_children(cs.push(c), a, depth, pal, idx, w, t) == lay
            + spec_layout_children(Seq::<NodeV>::empty(), a + c.total, depth, pal, idx + 1, w, t));
        assert(lay + Seq::<RectV>::empty() =~= lay);
        assert(Seq::<RectV>::empty() + lay =~= lay);
    } else {
        assert(cs.push(c)[0] == cs[0]);
        assert(cs.push(c).drop_first() =~= cs.drop_first().push(c));
        lemma_layout_children_snoc(cs.drop_first(), c, a + cs[0].total, depth, pal, idx + 1, w, t);
        let a0 = spec_layout(cs[0], a, cap_usize(depth + 1), Some(child_pal(pal, depth, idx)), w, t);
        let b = spec_layout_children(cs.drop_first(), a + cs[0].total, depth, pal, idx + 1, w, t);
        let lc = spec_layout(
            c,
            a + cs[0].total + sum_totals(cs.drop_first()),
            cap_usize(depth + 1),
            Some(child_pal(pal, depth, idx + 1 + cs.drop_first().len())),
            w,
            t,
        );
        assert(idx + 1 + cs.drop_first().len() == idx + cs.len());
        assert(a + cs[0].total + sum_totals(cs.drop_first()) == a + sum_totals(cs));
        assert(a0 + (b + lc) =~= (a0 + b) + lc);
    }
}

/// Builds the rectangles of the subtree at `node` into `frames`.
#[verifier::loop_isolation(false)]
#[verifier::rlimit(60)]
fn layout_recursive(
    node: &FlameNode,
    a: i64,
    depth: usize,
    w: u16,
    t: i64,
    palette: Option<usize>,
    frames: &mut Vec<FrameRect>,
)
    requires
        node@.wf(),
        1 <= t,
        0 <= a,
        a + node@.total <= t,
    ensures
        rect_views(final(frames)@) == rect_views(old(frames)@) + spec_layout(
            node@,
            a as int,
            depth as int,
            opt_int(palette),
            w as int,
            t as int,
        ),
    decreases *node,
{
    proof {
        lemma_wf_total_nonneg(node@);
    }
    let x0 = pos_calc(a, w, t);
    let x1 = pos_calc(a + node.total_value, w, t);
    proof {
        lemma_pos_mono(a as int, a as int + node@.total, w as int, t as int);
    }
    if x1 - x0 == 0 {
        proof {
            assert(rect_views(frames@) =~= rect_views(frames@) + spec_layout(
                node@,
                a as int,
                depth as int,
                opt_int(palette),
                w as int,
                t as int,
            ));
        }
        return ;
    }
    let palette_index: usize = match palette {
        Some(p) => p,
        None => 0,
    };
    let own = FrameRect {
        x: x0,
        width: x1 - x0,
        depth,
        name: node.name.clone(),
        self_value: node.self_value,
        total_value: node.total_value,
        palette_index,
    };
    let ghost own_v = own@;
    let ghost base = rect_views(frames@);
    frames.push(own);
    proof {
        assert(rect_views(frames@) =~= base + seq![own_v]);
        assert(node@.children.subrange(0, 0) =~= Seq::<NodeV>::empty());
        assert(rect_views(frames@) =~= base + seq![own_v] + spec_layout_children(
            node@.children.subrange(0, 0),
            a as int,
            depth as int,
            opt_int(palette),
            0,
            w as int,
            t as int,
        ));
        lemma_sum_wf_nonneg(node@.children);
        views_of_len(node.children@);
        assert(node@.children.subrange(0, node@.children.len() as int) =~= node@.children);
    }
    let n = node.children.len();
    let mut i: usize = 0;
    let mut child_a: i64 = a;
    while i < n
        invariant
            i <= n,
            n == node.children@.len(),
            node@.wf(),
            1 <= t,
            0 <= a,
            a + node@.total <= t,
            child_a as int == a + sum_totals(node@.children.subrange(0, i as int)),
            a <= child_a,
            child_a as int + sum_totals(node@.children.subrange(i as int, n as int)) == a
                + sum_totals(node@.children),
            rect_views(frames@) == base + seq![own_v] + spec_layout_children(
                node@.children.subrange(0, i as int),
                a as int,
                depth as int,
                opt_int(palette),
                0,
                w as int,
                t as int,
            ),
        decreases n - i,
    {
        let ghost cs = node@.children;
        proof {
            views_of_len(node.children@);
            views_of_index(node.children@, i as int);
            assert(decreases_to!(*node => node.children@[i as int]));
            assert(cs.subrange(i as int, cs.len() as int)[0] == cs[i as int]);
            assert(cs.subrange(i as int, cs.len() as int).drop_first() =~= cs.subrange(
                i as int + 1,
                cs.len() as int,
            ));
            assert(cs[i as int].wf());
            lemma_wf_total_nonneg(cs[i as int]);
            assert forall|k: int|
                0 <= k < cs.subrange(i as int + 1, cs.len() as int).len() implies (#[trigger] cs.subrange(
                i as int + 1,
                cs.len() as int,
            )[k]).wf() by {
                assert(cs.subrange(i as int + 1, cs.len() as int)[k] == cs[i as int + 1 + k]);
            }
            lemma_sum_wf_nonneg(cs.subrange(i as int + 1, cs.len() as int));
            assert(child_a + cs[i as int].total <= t);
        }
        let child_palette: Option<usize> = if depth == 0 && palette.is_none() {
            Some(i)
        } else {
            Some(palette_index)
        };
        let d1: usize = if depth == usize::MAX {
            depth
        } else {
            depth + 1
        };
        let ghost pre = rect_views(frames@);
        layout_recursive(&node.children[i], child_a, d1, w, t, child_palette, frames);
        proof {
            assert(opt_int(child_palette) == Some(
                child_pal(opt_int(palette), depth as int, i as int),
            ));
            assert(d1 as int == cap_usize(depth as int + 1));
            lemma_layout_children_snoc(
                cs.subrange(0, i as int),
                cs[i as int],
                a as int,
                depth as int,
                opt_int(palette),
                0,
                w as int,
                t as int,
            );
            assert(cs.subrange(0, i as int).push(cs[i as int]) =~= cs.subrange(0, i as int + 1));
            assert(rect_views(frames@) =~= base + seq![own_v] + spec_layout_children(
                cs.subrange(0, i as int + 1),
                a as int,
                depth as int,
                opt_int(palette),
                0,
                w as int,
                t as int,
            ));
            lemma_sum_push(cs.subrange(0, i as int), cs[i as int]);
        }
        child_a = child_a + node.children[i].total_value;
        i = i + 1;
    }
    proof {
        assert(node@.children.subrange(0, n as int) =~= node@.children);
        assert(rect_views(frames@) =~= base + spec_layout(
            node@,
            a as int,
            depth as int,
            opt_int(palette),
            w as int,
            t as int,
        ));
    }
}

/// Lays the subtree at `node` out over `area_width` columns.  Returns no
/// rectangles when the subtree carries no weight; otherwise the rectangles
/// of `spec_layout` from offset 0 and depth 0.  A forced palette colours
/// the whole layout; without one each top-level child is coloured by its
/// sibling index.
pub fn layout_frames(node: &FlameNode, area_width: u16, forced_palette: Option<usize>) -> (frames:
    Vec<FrameRect>)
    requires
        node@.wf(),
    ensures
        node@.total <= 0 ==> frames@.len() == 0,
        node@.total > 0 ==> rect_views(frames@) == spec_layout(
            node@,
            0,
            0,
            opt_int(forced_palette),
            area_width as int,
            node@.total,
        ),
{
    if node.total_value <= 0 {
        return Vec::new();
    }
    let mut frames: Vec<FrameRect> = Vec::new();
    layout_recursive(node, 0, 0, area_width, node.total_value, forced_palette, &mut frames);
    proof {
        assert(rect_views(Seq::<FrameRect>::empty()) =~= Seq::<RectV>::empty());
        assert(rect_views(frames@) =~= spec_layout(
            node@,
            0,
            0,
            opt_int(forced_palette),
            area_width as int,
            node@.total,
        ));
    }
    frames
}

/// Every rectangle of a subtree layout is at least one column wide and lies
/// within the columns of the subtree's own weight interval, at this depth
/// or deeper.
pub proof fn lemma_layout_bounds(n: NodeV, a: int, depth: int, pal: Option<int>, w: int, t: int)
    requires
        n.wf(),
        1 <= t,
        0 <= a,
        a + n.total <= t,
        0 <= w,
        0 <= depth <= usize::MAX as int,
    ensures
        forall|k: int|
            0 <= k < spec_layout(n, a, depth, pal, w, t).len() ==> {
                let r = #[trigger] spec_layout(n, a, depth, pal, w, t)[k];
                &&& r.width >= 1
                &&& pos_of(a, w, t) <= r.x
                &&& r.x + r.width <= pos_of(a + n.total, w, t)
                &&& r.depth >= depth
            },
    decreases n, 0int,
{
    let lay = spec_layout(n, a, depth, pal, w, t);
    lemma_wf_total_nonneg(n);
    lemma_pos_mono(a, a + n.total, w, t);
    if lay.len() > 0 {
        let cls = spec_layout_children(n.children, a, depth, pal, 0, w, t);
        lemma_sum_wf_nonneg(n.children);
        lemma_pos_mono(a + sum_totals(n.children), a + n.total, w, t);
        lemma_layout_children_bounds(n.children, a, depth, pal, 0, w, t);
        assert forall|k: int| 0 <= k < lay.len() implies {
            let r = #[trigger] lay[k];
            &&& r.width >= 1
            &&& pos_of(a, w, t) <= r.x
            &&& r.x + r.width <= pos_of(a + n.total, w, t)
            &&& r.depth >= depth
        } by {
            if k > 0 {
                assert(lay[k] == cls[k - 1]);
                assert(cap_usize(depth + 1) >= depth);
            }
        }
    }
}

pub proof fn lemma_layout_children_bounds(
    cs: Seq<NodeV>,
    a: int,
    depth: int,
    pal: Option<int>,
    idx: int,
    w: int,
    t: int,
)
    requires
        all_wf(cs),
        1 <= t,
        0 <= a,
        a + sum_totals(cs) <= t,
        0 <= w,
        0 <= depth <= usize::MAX as int,
    ensures
        forall|k: int|
            0 <= k < spec_layout_children(cs, a, depth, pal, idx, w, t).len() ==> {
                let r = #[trigger] spec_layout_children(cs, a, depth, pal, idx, w, t)[k];
                &&& r.width >= 1
                &&& pos_of(a, w, t) <= r.x
                &&& r.x + r.width <= pos_of(a + sum_totals(cs), w, t)
                &&& r.depth >= cap_usize(depth + 1)
            },
    decreases cs, 1int,
{
    if cs.len() > 0 {
        let a0 = spec_layout(cs[0], a, cap_usize(depth + 1), Some(child_pal(pal, depth, idx)), w, t);
        let rest = spec_layout_children(cs.drop_first(), a + cs[0].total, depth, pal, idx + 1, w, t);
        assert(cs[0].wf());
        lemma_wf_total_nonneg(cs[0]);
        assert(all_wf(cs.drop_first())) by {
            assert forall|i: int|
                0 <= i < cs.drop_first().len() implies (#[trigger] cs.drop_first()[i]).wf() by {
                assert(cs.drop_first()[i] == cs[i + 1]);
            }
        }
        lemma_sum_wf_nonneg(cs.drop_first());
        lemma_layout_bounds(cs[0], a, cap_usize(depth + 1), Some(child_pal(pal, depth, idx)), w, t);
        lemma_layout_children_bounds(cs.drop_first(), a + cs[0].total, depth, pal, idx + 1, w, t);
        lemma_pos_mono(a, a + cs[0].total, w, t);
        lemma_pos_mono(a + cs[0].total, a + sum_totals(cs), w, t);
        lemma_pos_mono(a + cs[0].total + sum_totals(cs.drop_first()), a + sum_totals(cs), w, t);
        assert forall|k: int|
            0 <= k < spec_layout_children(cs, a, depth, pal, idx, w, t).len() implies {
            let r = #[trigger] spec_layout_children(cs, a, depth, pal, idx, w, t)[k];
            &&& r.width >= 1
            &&& pos_of(a, w, t) <= r.x
            &&& r.x + r.width <= pos_of(a + sum_totals(cs), w, t)
            &&& r.depth >= cap_usize(depth + 1)
        } by {
            if k < a0.len() {
                assert(spec_layout_children(cs, a, depth, pal, idx, w, t)[k] == a0[k]);
            } else {
                assert(spec_layout_children(cs, a, depth, pal, idx, w, t)[k] == rest[k - a0.len()]);
            }
        }
    }
}

/// Rectangles of one layout that share a depth never overlap: listed left
/// to right, each ends at or before the next begins.
pub proof fn lemma_layout_disjoint(n: NodeV, a: int, depth: int, pal: Option<int>, w: int, t: int)
    requires
        n.wf(),
        1 <= t,
        0 <= a,
        a + n.total <= t,
        0 <= w,
        0 <= depth,
        depth + spec_max_depth(n) <= usize::MAX as int,
    ensures
        forall|k1: int, k2: int|
            0 <= k1 < k2 < spec_layout(n, a, depth, pal, w, t).len() && (#[trigger] spec_layout(
                n,
                a,
                depth,
                pal,
                w,
                t,
            )[k1]).depth == (#[trigger] spec_layout(n, a, depth, pal, w, t)[k2]).depth ==> spec_layout(
                n,
                a,
                depth,
                pal,
                w,
                t,
            )[k1].x + spec_layout(n, a, depth, pal, w, t)[k1].width <= spec_layout(
                n,
                a,
                depth,
                pal,
                w,
                t,
            )[k2].x,
    decreases n, 0int,
{
    let lay = spec_layout(n, a, depth, pal, w, t);
    lemma_wf_total_nonneg(n);
    if lay.len() > 0 && n.children.len() > 0 {
        let cls = spec_layout_children(n.children, a, depth, pal, 0, w, t);
        lemma_sum_wf_nonneg(n.children);
        lemma_pos_mono(a + sum_totals(n.children), a + n.total, w, t);
        lemma_max_depths_nonneg(n.children);
        lemma_layout_children_bounds(n.children, a, depth, pal, 0, w, t);
        lemma_layout_children_disjoint(n.children, a, depth, pal, 0, w, t);
        assert(cap_usize(depth + 1) == depth + 1);
        assert forall|k1: int, k2: int|
            0 <= k1 < k2 < lay.len() && (#[trigger] lay[k1]).depth == (
        #[trigger] lay[k2]).depth implies lay[k1].x + lay[k1].width <= lay[k2].x by {
            if k1 == 0 {
                assert(lay[k2] == cls[k2 - 1]);
                assert(lay[k2].depth >= depth + 1);
            } else {
                assert(lay[k1] == cls[k1 - 1]);
                assert(lay[k2] == cls[k2 - 1]);
            }
        }
    }
}

pub proof fn lemma_layout_children_disjoint(
    cs: Seq<NodeV>,
    a: int,
    depth: int,
    pal: Option<int>,
    idx: int,
    w: int,
    t: int,
)
    requires
        all_wf(cs),
        1 <= t,
        0 <= a,
        a + sum_totals(cs) <= t,
        0 <= w,
        0 <= depth,
        depth + 1 + max_depths(cs) <= usize::MAX as int,
    ensures
        forall|k1: int, k2: int|
            0 <= k1 < k2 < spec_layout_children(cs, a, depth, pal, idx, w, t).len() && (
            #[trigger] spec_layout_children(cs, a, depth, pal, idx, w, t)[k1]).depth == (
            #[trigger] spec_layout_children(cs, a, depth, pal, idx, w, t)[k2]).depth
                ==> spec_layout_children(cs, a, depth, pal, idx, w, t)[k1].x + spec_layout_children(
                cs,
                a,
                depth,
                pal,
                idx,
                w,
                t,
            )[k1].width <= spec_layout_children(cs, a, depth, pal, idx, w, t)[k2].x,
    decreases cs, 1int,
{
    if cs.len() > 0 {
        let a0 = spec_layout(cs[0], a, cap_usize(depth + 1), Some(child_pal(pal, depth, idx)), w, t);
        let rest = spec_layout_children(cs.drop_first(), a + cs[0].total, depth, pal, idx + 1, w, t);
        assert(cs[0].wf());
        lemma_wf_total_nonneg(cs[0]);
        assert(all_wf(cs.drop_first())) by {
            assert forall|i: int|
                0 <= i < cs.drop_first().len() implies (#[trigger] cs.drop_first()[i]).wf() by {
                assert(cs.drop_first()[i] == cs[i + 1]);
            }
        }
        lemma_sum_wf_nonneg(cs.drop_first());
        lemma_max_depths_elem(cs, 0);
        lemma_max_depth_nonneg(cs[0]);
        assert(max_depths(cs.drop_first()) <= max_depths(cs)) by {
            lemma_max_depths_drop_first(cs);
        }
        assert(cap_usize(depth + 1) == depth + 1);
        lemma_layout_bounds(cs[0], a, depth + 1, Some(child_pal(pal, depth, idx)), w, t);
        lemma_layout_disjoint(cs[0], a, depth + 1, Some(child_pal(pal, depth, idx)), w, t);
        lemma_layout_children_bounds(cs.drop_first(), a + cs[0].total, depth, pal, idx + 1, w, t);
        lemma_layout_children_disjoint(cs.drop_first(), a + cs[0].total, depth, pal, idx + 1, w, t);
        let whole = spec_layout_children(cs, a, depth, pal, idx, w, t);
        assert forall|k1: int, k2: int|
            0 <= k1 < k2 < whole.len() && (#[trigger] whole[k1]).depth == (
        #[trigger] whole[k2]).depth implies whole[k1].x + whole[k1].width <= whole[k2].x by {
            if k2 < a0.len() {
                assert(whole[k1] == a0[k1] && whole[k2] == a0[k2]);
            } else if k1 >= a0.len() {
                assert(whole[k1] == rest[k1 - a0.len()] && whole[k2] == rest[k2 - a0.len()]);
            } else {
                assert(whole[k1] == a0[k1] && whole[k2] == rest[k2 - a0.len()]);
                assert(whole[k1].x + whole[k1].width <= pos_of(a + cs[0].total, w, t));
                assert(pos_of(a + cs[0].total, w, t) <= whole[k2].x);
            }
        }
    }
}

/// Dropping the first element cannot raise the height of a sibling list.
pub proof fn lemma_max_depths_drop_first(s: Seq<NodeV>)
    requires
        s.len() > 0,
    ensures
        max_depths(s.drop_first()) <= max_depths(s),
{
    lemma_max_depth_nonneg(s[0]);
    lemma_max_depths_nonneg(s.drop_first());
}

/// The layout of a weighted subtree tiles the screen: every rectangle is at
/// least one column wide and fits in the `w` columns, rectangles of one
/// depth never overlap, and the layout opens with the subtree's own
/// rectangle spanning exactly the full width — so the widths at the top
/// level sum to exactly `w`.
pub proof fn lemma_layout_tiling(n: NodeV, pal: Option<int>, w: int)
    requires
        n.wf(),
        n.total >= 1,
        0 <= w,
        spec_max_depth(n) <= usize::MAX as int,
    ensures
        forall|k: int|
            0 <= k < spec_layout(n, 0, 0, pal, w, n.total).len() ==> {
                let r = #[trigger] spec_layout(n, 0, 0, pal, w, n.total)[k];
                &&& r.width >= 1
                &&& 0 <= r.x
                &&& r.x + r.width <= w
            },
        forall|k1: int, k2: int|
            0 <= k1 < k2 < spec_layout(n, 0, 0, pal, w, n.total).len() && (#[trigger] spec_layout(
                n,
                0,
                0,
                pal,
                w,
                n.total,
            )[k1]).depth == (#[trigger] spec_layout(n, 0, 0, pal, w, n.total)[k2]).depth
                ==> spec_layout(n, 0, 0, pal, w, n.total)[k1].x + spec_layout(
                n,
                0,
                0,
                pal,
                w,
                n.total,
            )[k1].width <= spec_layout(n, 0, 0, pal, w, n.total)[k2].x,
        w > 0 ==> spec_layout(n, 0, 0, pal, w, n.total).len() > 0 && spec_layout(
            n,
            0,
            0,
            pal,
            w,
            n.total,
        )[0].x == 0 && spec_layout(n, 0, 0, pal, w, n.total)[0].width == w && spec_layout(
            n,
            0,
            0,
            pal,
            w,
            n.total,
        )[0].depth == 0,
{
    lemma_pos_zero(w, n.total);
    lemma_pos_full(w, n.total);
    lemma_layout_bounds(n, 0, 0, pal, w, n.total);
    lemma_layout_disjoint(n, 0, 0, pal, w, n.total);
}

/// The node and weight offset that a cursor path of sibling indices
/// selects, or nothing when an index is out of range for its level.
pub open spec fn cursor_walk(n: NodeV, path: Seq<usize>, a: int) -> Option<(NodeV, int)>
    decreases path.len(),
{
    if path.len() == 0 {
        Some((n, a))
    } else {
        let idx = path[0] as int;
        if idx < n.children.len() {
            cursor_walk(
                n.children[idx],
                path.drop_first(),
                a + sum_totals(n.children.subrange(0, idx)),
            )
        } else {
            None
        }
    }
}

/// Palette of the cursor rectangle: the forced palette when one is given,
/// else the cursor's top-level sibling index (0 at the root itself).
pub open spec fn cursor_pal(path: Seq<usize>, forced: Option<int>) -> int {
    match forced {
        Some(p) => p,
        None => if path.len() > 0 {
            path[0] as int
        } else {
            0
        },
    }
}

/// The single rectangle of the node under the cursor: `None` when the
/// zoomed subtree carries no weight or an index of the path is out of range
/// for the current tree shape (the caller then clamps the path); otherwise
/// the rectangle at the cursor's weight offset, at least one column wide.
#[verifier::loop_isolation(false)]
#[verifier::rlimit(80)]
pub fn cursor_frame_rect(
    zoom_root: &FlameNode,
    cursor_path: &[usize],
    area_width: u16,
    forced_palette: Option<usize>,
) -> (r: Option<FrameRect>)
    requires
        zoom_root@.wf(),
    ensures
        match r {
            Some(fr) => {
                &&& zoom_root@.total > 0
                &&& cursor_walk(zoom_root@, cursor_path@, 0) is Some
                &&& {
                    let (node, a) = cursor_walk(zoom_root@, cursor_path@, 0)->Some_0;
                    let wv = pos_of(node.total, area_width as int, zoom_root@.total);
                    fr@ == (RectV {
                        x: pos_of(a, area_width as int, zoom_root@.total),
                        width: if wv >= 1 {
                            wv
                        } else {
                            1
                        },
                        depth: cursor_path@.len() as int,
                        name: node.name,
                        self_val: node.self_val,
                        total: node.total,
                        palette: cursor_pal(cursor_path@, opt_int(forced_palette)),
                    })
                }
            },
            None => zoom_root@.total <= 0 || cursor_walk(zoom_root@, cursor_path@, 0) is None,
        },
{
    if zoom_root.total_value <= 0 {
        return None;
    }
    let t = zoom_root.total_value;
    let mut node: &FlameNode = zoom_root;
    let mut a: i64 = 0;
    let mut step: usize = 0;
    proof {
        assert(cursor_path@.skip(0) =~= cursor_path@);
    }
    while step < cursor_path.len()
        invariant
            step <= cursor_path@.len(),
            node@.wf(),
            0 <= a,
            a + node@.total <= t,
            t == zoom_root@.total,
            cursor_walk(zoom_root@, cursor_path@, 0) == cursor_walk(
                node@,
                cursor_path@.skip(step as int),
                a as int,
            ),
        decreases cursor_path@.len() - step,
    {
        proof {
            assert(cursor_path@.skip(step as int)[0] == cursor_path@[step as int]);
            assert(cursor_path@.skip(step as int).drop_first() =~= cursor_path@.skip(
                step as int + 1,
            ));
            views_of_len(node.children@);
        }
        let idx = cursor_path[step];
        if idx >= node.children.len() {
            return None;
        }
        let ghost cs = node@.children;
        let ghost a0 = a as int;
        proof {
            lemma_wf_total_nonneg(node@);
            lemma_sum_wf_nonneg(cs);
            assert(cs.subrange(0, 0) =~= Seq::<NodeV>::empty());
            assert(cs.subrange(0, cs.len() as int) =~= cs);
        }
        let mut j: usize = 0;
        while j < idx
            invariant
                j <= idx,
                a as int == a0 + sum_totals(cs.subrange(0, j as int)),
                a0 <= a as int,
                a as int + sum_totals(cs.subrange(j as int, cs.len() as int)) + node@.self_val
                    == a0 + node@.total,
            decreases idx - j,
        {
            proof {
                views_of_index(node.children@, j as int);
                assert(cs.subrange(j as int, cs.len() as int)[0] == cs[j as int]);
                assert(cs.subrange(j as int, cs.len() as int).drop_first() =~= cs.subrange(
                    j as int + 1,
                    cs.len() as int,
                ));
                assert(cs[j as int].wf());
                lemma_wf_total_nonneg(cs[j as int]);
                assert forall|k: int|
                    0 <= k < cs.subrange(j as int + 1, cs.len() as int).len() implies (#[trigger] cs.subrange(
                    j as int + 1,
                    cs.len() as int,
                )[k]).wf() by {
                    assert(cs.subrange(j as int + 1, cs.len() as int)[k] == cs[j as int + 1 + k]);
                }
                lemma_sum_wf_nonneg(cs.subrange(j as int + 1, cs.len() as int));
                assert(cs.subrange(0, j as int).push(cs[j as int]) =~= cs.subrange(
                    0,
                    j as int + 1,
                ));
                lemma_sum_push(cs.subrange(0, j as int), cs[j as int]);
            }
            a = a + node.children[j].total_value;
            j = j + 1;
        }
        proof {
            views_of_index(node.children@, idx as int);
            assert(cs[idx as int].wf());
            lemma_wf_total_nonneg(cs[idx as int]);
            assert(cs.subrange(idx as int, cs.len() as int)[0] == cs[idx as int]);
            assert(cs.subrange(idx as int, cs.len() as int).drop_first() =~= cs.subrange(
                idx as int + 1,
                cs.len() as int,
            ));
            assert forall|k: int|
                0 <= k < cs.subrange(idx as int + 1, cs.len() as int).len() implies (#[trigger] cs.subrange(
                idx as int + 1,
                cs.len() as int,
            )[k]).wf() by {
                assert(cs.subrange(idx as int + 1, cs.len() as int)[k] == cs[idx as int + 1 + k]);
            }
            lemma_sum_wf_nonneg(cs.subrange(idx as int + 1, cs.len() as int));
            assert(a as int + cs[idx as int].total <= t);
        }
        node = &node.children[idx];
        step = step + 1;
    }
    proof {
        assert(cursor_path@.skip(cursor_path@.len() as int) =~= Seq::<usize>::empty());
        lemma_wf_total_nonneg(node@);
        lemma_sum_wf_nonneg(node@.children);
    }
    let x = pos_calc(a, area_width, t);
    let wv = pos_calc(node.total_value, area_width, t);
    let width: u16 = if wv == 0 {
        1
    } else {
        wv
    };
    let palette_index: usize = match forced_palette {
        Some(p) => p,
        None => {
            if cursor_path.len() > 0 {
                cursor_path[0]
            } else {
                0
            }
        },
    };
    let fr = FrameRect {
        x,
        width,
        depth: cursor_path.len(),
        name: node.name.clone(),
        self_value: node.self_value,
        total_value: node.total_value,
        palette_index,
    };
    proof {
        let (nv, av) = cursor_walk(zoom_root@, cursor_path@, 0)->Some_0;
        assert(nv == node@ && av == a as int);
        assert(fr@ =~= (RectV {
            x: pos_of(a as int, area_width as int, zoom_root@.total),
            width: if pos_of(nv.total, area_width as int, zoom_root@.total) >= 1 {
                pos_of(nv.total, area_width as int, zoom_root@.total)
            } else {
                1
            },
            depth: cursor_path@.len() as int,
            name: nv.name,
            self_val: nv.self_val,
            total: nv.total,
            palette: cursor_pal(cursor_path@, opt_int(forced_palette)),
        }));
    }
    Some(fr)
}

} // verus!
