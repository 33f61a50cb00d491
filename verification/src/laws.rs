//! The general properties of the aggregated call tree, stated and proved
//! over the model: the structural invariant of every reachable tree, the
//! additivity of insert and merge on per-path weights (from which order
//! independence of merging follows), and the idempotence of the recursive
//! sort.
use crate::flamegraph::{
    all_wf, distinct_names, find_name, insert_desc, lemma_find_name, lemma_sum_push,
    lemma_sum_update, map_sort, merge_children, merge_one, sort_desc, sorted_desc, spec_add_stack,
    spec_merge, spec_sort, sum_totals, NodeV,
};
use vstd::prelude::*;

verus! {

/// `p` is a prefix of `s`.
pub open spec fn is_prefix(p: Seq<Seq<char>>, s: Seq<Seq<char>>) -> bool {
    p.len() <= s.len() && p == s.subrange(0, p.len() as int)
}

/// Some node of the sibling list carries this name.
pub open spec fn has_name(s: Seq<NodeV>, nm: Seq<char>) -> bool {
    exists|i: int| 0 <= i < s.len() && (#[trigger] s[i]).name == nm
}

/// Updating an element without changing its name leaves every name lookup
/// unchanged.
pub proof fn lemma_find_name_update(cs: Seq<NodeV>, i: int, x: NodeV, nm: Seq<char>)
    requires
        0 <= i < cs.len(),
        x.name == cs[i].name,
    ensures
        find_name(cs.update(i, x), nm) == find_name(cs, nm),
    decreases cs.len(),
{
    if cs.len() > 0 {
        if i == 0 {
            assert(cs.update(0, x)[0] == x);
            assert(cs.update(0, x).drop_first() =~= cs.drop_first());
        } else {
            assert(cs.update(i, x)[0] == cs[0]);
            assert(cs.update(i, x).drop_first() =~= cs.drop_first().update(i - 1, x));
            lemma_find_name_update(cs.drop_first(), i - 1, x, nm);
        }
    }
}

/// What a name lookup finds in a list with one node appended.
pub proof fn lemma_find_name_push(cs: Seq<NodeV>, x: NodeV, nm: Seq<char>)
    ensures
        find_name(cs, nm) >= 0 ==> find_name(cs.push(x), nm) == find_name(cs, nm),
        find_name(cs, nm) == -1 && x.name == nm ==> find_name(cs.push(x), nm) == cs.len(),
        find_name(cs, nm) == -1 && x.name != nm ==> find_name(cs.push(x), nm) == -1,
    decreases cs.len(),
{
    if cs.len() == 0 {
        assert(cs.push(x)[0] == x);
        assert(cs.push(x).drop_first() =~= Seq::<NodeV>::empty());
        assert(find_name(Seq::<NodeV>::empty(), nm) == -1);
    } else {
        assert(cs.push(x)[0] == cs[0]);
        assert(cs.push(x).drop_first() =~= cs.drop_first().push(x));
        lemma_find_name_push(cs.drop_first(), x, nm);
        if cs[0].name != nm {
            assert(find_name(cs, nm) == {
                let r = find_name(cs.drop_first(), nm);
                if r < 0 {
                    -1
                } else {
                    r + 1
                }
            });
            assert(find_name(cs.push(x), nm) == {
                let r = find_name(cs.drop_first().push(x), nm);
                if r < 0 {
                    -1
                } else {
                    r + 1
                }
            });
        }
    }
}

/// Inserting a stack preserves well-formedness: this is the structural
/// invariant `total == self + sum of child totals` together with sibling
/// name distinctness, for every tree reachable by inserts.
pub proof fn lemma_add_stack_wf(n: NodeV, stack: Seq<Seq<char>>, v: int)
    requires
        n.wf(),
        v >= 0,
    ensures
        spec_add_stack(n, stack, v).wf(),
        spec_add_stack(n, stack, v).name == n.name,
        spec_add_stack(n, stack, v).total == n.total + v,
    decreases stack.len(),
{
    let r = spec_add_stack(n, stack, v);
    if stack.len() == 0 {
    } else {
        let i = find_name(n.children, stack[0]);
        lemma_find_name(n.children, stack[0]);
        if i >= 0 {
            assert(n.children[i].wf());
            lemma_add_stack_wf(n.children[i], stack.drop_first(), v);
            let x = spec_add_stack(n.children[i], stack.drop_first(), v);
            lemma_sum_update(n.children, i, x);
            assert(all_wf(r.children)) by {
                assert forall|j: int| 0 <= j < r.children.len() implies (
                #[trigger] r.children[j]).wf() by {
                    if j != i {
                        assert(r.children[j] == n.children[j]);
                    }
                }
            }
            assert(distinct_names(r.children)) by {
                assert forall|a: int, b: int|
                    0 <= a < b < r.children.len() implies (#[trigger] r.children[a]).name != (
                #[trigger] r.children[b]).name by {
                    assert(r.children[a].name == n.children[a].name);
                    assert(r.children[b].name == n.children[b].name);
                }
            }
        } else {
            let fresh = NodeV::empty(stack[0]);
            assert(fresh.wf());
            lemma_add_stack_wf(fresh, stack.drop_first(), v);
            let x = spec_add_stack(fresh, stack.drop_first(), v);
            lemma_sum_push(n.children, x);
            assert(all_wf(r.children)) by {
                assert forall|j: int| 0 <= j < r.children.len() implies (
                #[trigger] r.children[j]).wf() by {
                    if j < n.children.len() {
                        assert(r.children[j] == n.children[j]);
                    }
                }
            }
            assert(distinct_names(r.children)) by {
                assert forall|a: int, b: int|
                    0 <= a < b < r.children.len() implies (#[trigger] r.children[a]).name != (
                #[trigger] r.children[b]).name by {
                    if b < n.children.len() {
                        assert(r.children[a] == n.children[a]);
                        assert(r.children[b] == n.children[b]);
                    } else {
                        assert(r.children[a] == n.children[a]);
                        assert(r.children[b] == x);
                    }
                }
            }
        }
    }
}

/// Inserting one stack adds its weight to exactly the nodes on the stack's
/// path: the inclusive weight of a path grows by `v` when the path is a
/// prefix of the stack, the exclusive weight only at the stack itself, and
/// no other node changes.  In particular two stacks sharing a name prefix
/// augment one shared node path rather than creating duplicate siblings.
pub proof fn lemma_add_stack_totals(n: NodeV, stack: Seq<Seq<char>>, v: int, p: Seq<Seq<char>>)
    ensures
        spec_add_stack(n, stack, v).stotal(p) == n.stotal(p) + if is_prefix(p, stack) {
            v
        } else {
            0
        },
        spec_add_stack(n, stack, v).sself(p) == n.sself(p) + if p == stack {
            v
        } else {
            0
        },
    decreases stack.len(),
{
    let r = spec_add_stack(n, stack, v);
    if stack.len() == 0 {
        if p.len() == 0 {
            assert(p =~= stack);
            assert(is_prefix(p, stack)) by {
                assert(p =~= stack.subrange(0, 0));
            }
        } else {
            assert(p != stack);
            assert(!is_prefix(p, stack));
        }
    } else {
        let i = find_name(n.children, stack[0]);
        lemma_find_name(n.children, stack[0]);
        if p.len() == 0 {
            assert(is_prefix(p, stack)) by {
                assert(p =~= stack.subrange(0, 0));
            }
            assert(p != stack);
        } else {
            // Both the path and the stack descend one level.
            let p1 = p.drop_first();
            let s1 = stack.drop_first();
            assert(p == stack <==> p[0] == stack[0] && p1 == s1) by {
                if p[0] == stack[0] && p1 == s1 {
                    assert(p1.len() == p.len() - 1);
                    assert(s1.len() == stack.len() - 1);
                    assert(p1.len() == s1.len());
                    assert(p.len() == stack.len());
                    assert forall|k: int| 0 <= k < p.len() implies p[k] == stack[k] by {
                        if k > 0 {
                            assert(p1[k - 1] == p[k]);
                            assert(s1[k - 1] == stack[k]);
                            assert(p1[k - 1] == s1[k - 1]);
                        }
                    }
                    assert(p =~= stack);
                }
                if p == stack {
                    assert(p1 =~= s1);
                }
            }
            assert(is_prefix(p, stack) <==> p[0] == stack[0] && is_prefix(p1, s1)) by {
                if p[0] == stack[0] && is_prefix(p1, s1) {
                    assert(p =~= stack.subrange(0, p.len() as int)) by {
                        assert forall|k: int| 0 <= k < p.len() implies p[k] == stack.subrange(
                            0,
                            p.len() as int,
                        )[k] by {
                            if k > 0 {
                                assert(p1[k - 1] == s1.subrange(0, p1.len() as int)[k - 1]);
                            }
                        }
                    }
                }
                if is_prefix(p, stack) {
                    assert(p[0] == stack.subrange(0, p.len() as int)[0]);
                    assert(p1 =~= s1.subrange(0, p1.len() as int)) by {
                        assert forall|k: int| 0 <= k < p1.len() implies p1[k] == s1.subrange(
                            0,
                            p1.len() as int,
                        )[k] by {
                            assert(p[k + 1] == stack.subrange(0, p.len() as int)[k + 1]);
                        }
                    }
                }
            }
            if i >= 0 {
                let x = spec_add_stack(n.children[i], s1, v);
                assert(x.name == n.children[i].name) by {
                    lemma_add_stack_name(n.children[i], s1, v);
                }
                lemma_find_name_update(n.children, i, x, p[0]);
                let j = find_name(n.children, p[0]);
                lemma_find_name(n.children, p[0]);
                if p[0] == stack[0] {
                    assert(j == i);
                    lemma_add_stack_totals(n.children[i], s1, v, p1);
                } else {
                    if j >= 0 {
                        assert(j != i);
                        assert(r.children[j] == n.children[j]);
                    }
                }
            } else {
                let fresh = NodeV::empty(stack[0]);
                let x = spec_add_stack(fresh, s1, v);
                assert(x.name == stack[0]) by {
                    lemma_add_stack_name(fresh, s1, v);
                }
                lemma_find_name_push(n.children, x, p[0]);
                let j = find_name(n.children, p[0]);
                lemma_find_name(n.children, p[0]);
                if p[0] == stack[0] {
                    assert(j == -1);
                    assert(find_name(r.children, p[0]) == n.children.len());
                    assert(r.children[n.children.len() as int] == x);
                    lemma_add_stack_totals(fresh, s1, v, p1);
                    assert(fresh.stotal(p1) == 0 && fresh.sself(p1) == 0) by {
                        lemma_empty_totals(fresh, p1);
                    }
                } else {
                    if j >= 0 {
                        assert(r.children[j] == n.children[j]);
                    }
                }
            }
        }
    }
}

/// Insert coalescing: two stacks that share a name prefix augment one
/// shared node path.  Every node on the shared prefix carries the sum of
/// both weights, and sibling names stay distinct, so no duplicate sibling
/// is ever created for the shared names.
pub proof fn lemma_insert_coalesces(
    n: NodeV,
    s1: Seq<Seq<char>>,
    s2: Seq<Seq<char>>,
    v1: int,
    v2: int,
    p: Seq<Seq<char>>,
)
    requires
        n.wf(),
        v1 >= 0,
        v2 >= 0,
        is_prefix(p, s1),
        is_prefix(p, s2),
    ensures
        spec_add_stack(spec_add_stack(n, s1, v1), s2, v2).stotal(p) == n.stotal(p) + v1 + v2,
        spec_add_stack(spec_add_stack(n, s1, v1), s2, v2).wf(),
{
    lemma_add_stack_totals(n, s1, v1, p);
    lemma_add_stack_totals(spec_add_stack(n, s1, v1), s2, v2, p);
    lemma_add_stack_wf(n, s1, v1);
    lemma_add_stack_wf(spec_add_stack(n, s1, v1), s2, v2);
}

/// Inserting never changes a node's name.
pub proof fn lemma_add_stack_name(n: NodeV, stack: Seq<Seq<char>>, v: int)
    ensures
        spec_add_stack(n, stack, v).name == n.name,
{
}

/// Weight that a non-empty path finds inside a sibling list.
pub open spec fn list_stotal(cs: Seq<NodeV>, p: Seq<Seq<char>>) -> int {
    let i = find_name(cs, p[0]);
    if i >= 0 {
        cs[i].stotal(p.drop_first())
    } else {
        0
    }
}

/// Exclusive weight that a non-empty path finds inside a sibling list.
pub open spec fn list_sself(cs: Seq<NodeV>, p: Seq<Seq<char>>) -> int {
    let i = find_name(cs, p[0]);
    if i >= 0 {
        cs[i].sself(p.drop_first())
    } else {
        0
    }
}

/// Merging adds the per-path weights of the two trees, at every path.
/// With `lemma_merge_commutes` below this is the order independence of
/// merging: only the sums of the batches reach any node.
pub proof fn lemma_merge_totals(a: NodeV, b: NodeV, p: Seq<Seq<char>>)
    requires
        b.wf(),
    ensures
        spec_merge(a, b).stotal(p) == a.stotal(p) + b.stotal(p),
        spec_merge(a, b).sself(p) == a.sself(p) + b.sself(p),
    decreases b, 0int,
{
    if p.len() > 0 {
        lemma_merge_children_totals(a.children, b.children, p);
    }
}

pub proof fn lemma_merge_children_totals(cs: Seq<NodeV>, os: Seq<NodeV>, p: Seq<Seq<char>>)
    requires
        all_wf(os),
        distinct_names(os),
        p.len() > 0,
    ensures
        list_stotal(merge_children(cs, os), p) == list_stotal(cs, p) + list_stotal(os, p),
        list_sself(merge_children(cs, os), p) == list_sself(cs, p) + list_sself(os, p),
    decreases os, 1int,
{
    if os.len() == 0 {
        assert(find_name(os, p[0]) == -1);
    } else {
        lemma_merge_one_totals(cs, os[0], p);
        let os1 = os.drop_first();
        assert(all_wf(os1)) by {
            assert forall|i: int| 0 <= i < os1.len() implies (#[trigger] os1[i]).wf() by {
                assert(os1[i] == os[i + 1]);
            }
        }
        assert(distinct_names(os1)) by {
            assert forall|x: int, y: int|
                0 <= x < y < os1.len() implies (#[trigger] os1[x]).name != (
            #[trigger] os1[y]).name by {
                assert(os1[x] == os[x + 1]);
                assert(os1[y] == os[y + 1]);
            }
        }
        lemma_merge_children_totals(merge_one(cs, os[0]), os1, p);
        lemma_find_name(os1, p[0]);
        if os[0].name == p[0] {
            assert(find_name(os, p[0]) == 0);
            let r1 = find_name(os1, p[0]);
            if r1 >= 0 {
                assert(os1[r1] == os[r1 + 1]);
                assert(false);
            }
        } else {
            let r1 = find_name(os1, p[0]);
            if r1 >= 0 {
                assert(find_name(os, p[0]) == r1 + 1);
                assert(os[r1 + 1] == os1[r1]);
            } else {
                assert(find_name(os, p[0]) == -1);
            }
        }
    }
}

pub proof fn lemma_merge_one_totals(cs: Seq<NodeV>, o: NodeV, p: Seq<Seq<char>>)
    requires
        o.wf(),
        p.len() > 0,
    ensures
        list_stotal(merge_one(cs, o), p) == list_stotal(cs, p) + if o.name == p[0] {
            o.stotal(p.drop_first())
        } else {
            0
        },
        list_sself(merge_one(cs, o), p) == list_sself(cs, p) + if o.name == p[0] {
            o.sself(p.drop_first())
        } else {
            0
        },
    decreases o, 2int,
{
    let i = find_name(cs, o.name);
    lemma_find_name(cs, o.name);
    lemma_find_name(cs, p[0]);
    if i >= 0 {
        let m = spec_merge(cs[i], o);
        assert(m.name == cs[i].name);
        lemma_find_name_update(cs, i, m, p[0]);
        let j = find_name(cs, p[0]);
        if o.name == p[0] {
            assert(j == i);
            lemma_merge_totals(cs[i], o, p.drop_first());
            assert(cs.update(i, m)[i] == m);
        } else {
            if j >= 0 {
                assert(cs[j].name == p[0]);
                assert(j != i);
                assert(cs.update(i, m)[j] == cs[j]);
            }
        }
    } else {
        lemma_find_name_push(cs, o, p[0]);
        let j = find_name(cs, p[0]);
        if o.name == p[0] {
            assert(j == -1);
            assert(find_name(cs.push(o), p[0]) == cs.len());
            assert(cs.push(o)[cs.len() as int] == o);
        } else {
            if j >= 0 {
                assert(cs.push(o)[j] == cs[j]);
            }
        }
    }
}

/// Merging batch `a` and then batch `b` into a tree gives every path the
/// same inclusive and exclusive weight as merging `b` and then `a`.
pub proof fn lemma_merge_commutes(e: NodeV, a: NodeV, b: NodeV, p: Seq<Seq<char>>)
    requires
        a.wf(),
        b.wf(),
    ensures
        spec_merge(spec_merge(e, a), b).stotal(p) == spec_merge(spec_merge(e, b), a).stotal(p),
        spec_merge(spec_merge(e, a), b).sself(p) == spec_merge(spec_merge(e, b), a).sself(p),
{
    lemma_merge_totals(spec_merge(e, a), b, p);
    lemma_merge_totals(e, a, p);
    lemma_merge_totals(spec_merge(e, b), a, p);
    lemma_merge_totals(e, b, p);
}

pub proof fn lemma_map_sort_index(s: Seq<NodeV>)
    ensures
        map_sort(s).len() == s.len(),
        forall|i: int| 0 <= i < s.len() ==> #[trigger] map_sort(s)[i] == spec_sort(s[i]),
    decreases s.len(),
{
    if s.len() > 0 {
        lemma_map_sort_index(s.drop_last());
        assert forall|i: int| 0 <= i < s.len() implies #[trigger] map_sort(s)[i] == spec_sort(
            s[i],
        ) by {
            if i < s.len() - 1 {
                assert(map_sort(s)[i] == map_sort(s.drop_last())[i]);
                assert(s.drop_last()[i] == s[i]);
            }
        }
    }
}

pub proof fn lemma_insert_desc_len(s: Seq<NodeV>, x: NodeV)
    ensures
        insert_desc(s, x).len() == s.len() + 1,
    decreases s.len(),
{
    if s.len() > 0 && s.last().total < x.total {
        lemma_insert_desc_len(s.drop_last(), x);
    }
}

/// Inserting keeps any lower bound on the weights.
pub proof fn lemma_insert_desc_ge(s: Seq<NodeV>, x: NodeV, c: int)
    requires
        forall|j: int| 0 <= j < s.len() ==> (#[trigger] s[j]).total >= c,
        x.total >= c,
    ensures
        forall|k: int|
            0 <= k < insert_desc(s, x).len() ==> (#[trigger] insert_desc(s, x)[k]).total >= c,
    decreases s.len(),
{
    lemma_insert_desc_len(s, x);
    if s.len() == 0 {
        assert(insert_desc(s, x)[0] == x);
    } else if s.last().total >= x.total {
        assert forall|k: int|
            0 <= k < insert_desc(s, x).len() implies (#[trigger] insert_desc(s, x)[k]).total
            >= c by {
            if k < s.len() {
                assert(insert_desc(s, x)[k] == s[k]);
            } else {
                assert(insert_desc(s, x)[k] == x);
            }
        }
    } else {
        assert forall|j: int|
            0 <= j < s.drop_last().len() implies (#[trigger] s.drop_last()[j]).total >= c by {
            assert(s.drop_last()[j] == s[j]);
        }
        lemma_insert_desc_ge(s.drop_last(), x, c);
        lemma_insert_desc_len(s.drop_last(), x);
        let inner = insert_desc(s.drop_last(), x);
        assert forall|k: int|
            0 <= k < insert_desc(s, x).len() implies (#[trigger] insert_desc(s, x)[k]).total
            >= c by {
            if k < inner.len() {
                assert(insert_desc(s, x)[k] == inner[k]);
            } else {
                assert(insert_desc(s, x)[k] == s.last());
            }
        }
    }
}

/// Inserting into a sorted sequence keeps it sorted.
pub proof fn lemma_insert_desc_sorted(s: Seq<NodeV>, x: NodeV)
    requires
        sorted_desc(s),
    ensures
        sorted_desc(insert_desc(s, x)),
    decreases s.len(),
{
    lemma_insert_desc_len(s, x);
    if s.len() == 0 {
    } else if s.last().total >= x.total {
        let r = s.push(x);
        assert forall|i: int, j: int|
            0 <= i < j < r.len() implies (#[trigger] r[i]).total >= (#[trigger] r[j]).total by {
            if j < s.len() {
                assert(r[i] == s[i] && r[j] == s[j]);
            } else {
                assert(r[j] == x);
                assert(r[i] == s[i]);
                if i < s.len() - 1 {
                    assert(s[i].total >= s[s.len() - 1].total);
                }
            }
        }
    } else {
        assert(sorted_desc(s.drop_last())) by {
            assert forall|i: int, j: int|
                0 <= i < j < s.drop_last().len() implies (#[trigger] s.drop_last()[i]).total >= (
            #[trigger] s.drop_last()[j]).total by {
                assert(s.drop_last()[i] == s[i] && s.drop_last()[j] == s[j]);
            }
        }
        lemma_insert_desc_sorted(s.drop_last(), x);
        assert forall|j: int|
            0 <= j < s.drop_last().len() implies (#[trigger] s.drop_last()[j]).total >= s.last().total by {
            assert(s.drop_last()[j] == s[j]);
            assert(s[j].total >= s[s.len() - 1].total);
        }
        lemma_insert_desc_ge(s.drop_last(), x, s.last().total);
        lemma_insert_desc_len(s.drop_last(), x);
        let inner = insert_desc(s.drop_last(), x);
        let r = inner.push(s.last());
        assert forall|i: int, j: int|
            0 <= i < j < r.len() implies (#[trigger] r[i]).total >= (#[trigger] r[j]).total by {
            if j < inner.len() {
                assert(r[i] == inner[i] && r[j] == inner[j]);
            } else {
                assert(r[j] == s.last());
                assert(r[i] == inner[i]);
            }
        }
    }
}

/// Every element of an insertion came from the sequence or is the inserted one.
pub proof fn lemma_insert_desc_elems(s: Seq<NodeV>, x: NodeV)
    ensures
        forall|k: int|
            0 <= k < insert_desc(s, x).len() ==> s.contains(#[trigger] insert_desc(s, x)[k])
                || insert_desc(s, x)[k] == x,
    decreases s.len(),
{
    lemma_insert_desc_len(s, x);
    if s.len() == 0 {
        assert(insert_desc(s, x)[0] == x);
    } else if s.last().total >= x.total {
        assert forall|k: int|
            0 <= k < insert_desc(s, x).len() implies s.contains(#[trigger] insert_desc(s, x)[k])
            || insert_desc(s, x)[k] == x by {
            if k < s.len() {
                assert(insert_desc(s, x)[k] == s[k]);
            } else {
                assert(insert_desc(s, x)[k] == x);
            }
        }
    } else {
        lemma_insert_desc_elems(s.drop_last(), x);
        lemma_insert_desc_len(s.drop_last(), x);
        let inner = insert_desc(s.drop_last(), x);
        assert forall|k: int|
            0 <= k < insert_desc(s, x).len() implies s.contains(#[trigger] insert_desc(s, x)[k])
            || insert_desc(s, x)[k] == x by {
            if k < inner.len() {
                assert(insert_desc(s, x)[k] == inner[k]);
                if s.drop_last().contains(inner[k]) {
                    let j = choose|j: int|
                        0 <= j < s.drop_last().len() && s.drop_last()[j] == inner[k];
                    assert(s[j] == inner[k]);
                }
            } else {
                assert(insert_desc(s, x)[k] == s.last());
                assert(s[s.len() - 1] == s.last());
            }
        }
    }
}

/// The sort returns a sorted sequence of the same length whose elements all
/// come from the input.
pub proof fn lemma_sort_desc_sorted(s: Seq<NodeV>)
    ensures
        sorted_desc(sort_desc(s)),
        sort_desc(s).len() == s.len(),
        forall|k: int| 0 <= k < sort_desc(s).len() ==> s.contains(#[trigger] sort_desc(s)[k]),
    decreases s.len(),
{
    if s.len() > 0 {
        lemma_sort_desc_sorted(s.drop_last());
        let sd = sort_desc(s.drop_last());
        lemma_insert_desc_sorted(sd, s.last());
        lemma_insert_desc_len(sd, s.last());
        lemma_insert_desc_elems(sd, s.last());
        assert forall|k: int|
            0 <= k < sort_desc(s).len() implies s.contains(#[trigger] sort_desc(s)[k]) by {
            if sd.contains(sort_desc(s)[k]) {
                let j = choose|j: int| 0 <= j < sd.len() && sd[j] == sort_desc(s)[k];
                assert(s.drop_last().contains(sd[j]));
                let m = choose|m: int|
                    0 <= m < s.drop_last().len() && s.drop_last()[m] == sd[j];
                assert(s[m] == sort_desc(s)[k]);
            } else {
                assert(sort_desc(s)[k] == s.last());
                assert(s[s.len() - 1] == s.last());
            }
        }
    }
}

/// Sorting an already sorted sequence changes nothing.
pub proof fn lemma_sort_desc_fixed(s: Seq<NodeV>)
    requires
        sorted_desc(s),
    ensures
        sort_desc(s) == s,
    decreases s.len(),
{
    if s.len() > 0 {
        assert(sorted_desc(s.drop_last())) by {
            assert forall|i: int, j: int|
                0 <= i < j < s.drop_last().len() implies (#[trigger] s.drop_last()[i]).total >= (
            #[trigger] s.drop_last()[j]).total by {
                assert(s.drop_last()[i] == s[i] && s.drop_last()[j] == s[j]);
            }
        }
        lemma_sort_desc_fixed(s.drop_last());
        if s.len() == 1 {
            assert(insert_desc(s.drop_last(), s.last()) =~= s);
        } else {
            assert(s.drop_last().last() == s[s.len() - 2]);
            assert(s[s.len() - 2].total >= s[s.len() - 1].total);
            assert(s.drop_last().push(s.last()) =~= s);
        }
    }
}

/// Sorting twice gives the same tree as sorting once: ordering children by
/// weight is idempotent at every level.
pub proof fn lemma_sort_idempotent(n: NodeV)
    ensures
        spec_sort(spec_sort(n)) == spec_sort(n),
    decreases n,
{
    let ms = map_sort(n.children);
    let sc = sort_desc(ms);
    lemma_map_sort_index(n.children);
    lemma_sort_desc_sorted(ms);
    assert(map_sort(sc) =~= sc) by {
        lemma_map_sort_index(sc);
        assert forall|k: int| 0 <= k < sc.len() implies #[trigger] map_sort(sc)[k] == sc[k] by {
            assert(ms.contains(sc[k]));
            let j = choose|j: int| 0 <= j < ms.len() && ms[j] == sc[k];
            assert(ms[j] == spec_sort(n.children[j]));
            lemma_sort_idempotent(n.children[j]);
            assert(map_sort(sc)[k] == spec_sort(sc[k]));
        }
    }
    lemma_sort_desc_fixed(sc);
    assert(spec_sort(spec_sort(n)) =~= spec_sort(n));
}

pub proof fn lemma_insert_desc_sum(s: Seq<NodeV>, x: NodeV)
    ensures
        sum_totals(insert_desc(s, x)) == sum_totals(s) + x.total,
    decreases s.len(),
{
    if s.len() == 0 {
        lemma_sum_push(Seq::<NodeV>::empty(), x);
        assert(insert_desc(s, x) =~= Seq::<NodeV>::empty().push(x));
    } else if s.last().total >= x.total {
        lemma_sum_push(s, x);
    } else {
        lemma_insert_desc_sum(s.drop_last(), x);
        lemma_sum_push(insert_desc(s.drop_last(), x), s.last());
        lemma_sum_push(s.drop_last(), s.last());
        assert(s.drop_last().push(s.last()) =~= s);
    }
}

pub proof fn lemma_sort_desc_sum(s: Seq<NodeV>)
    ensures
        sum_totals(sort_desc(s)) == sum_totals(s),
    decreases s.len(),
{
    if s.len() > 0 {
        lemma_sort_desc_sum(s.drop_last());
        lemma_insert_desc_sum(sort_desc(s.drop_last()), s.last());
        lemma_sum_push(s.drop_last(), s.last());
        assert(s.drop_last().push(s.last()) =~= s);
    }
}

pub proof fn lemma_map_sort_sum(s: Seq<NodeV>)
    ensures
        sum_totals(map_sort(s)) == sum_totals(s),
    decreases s.len(),
{
    if s.len() > 0 {
        lemma_map_sort_sum(s.drop_last());
        lemma_sum_push(map_sort(s.drop_last()), spec_sort(s.last()));
        lemma_sum_push(s.drop_last(), s.last());
        assert(s.drop_last().push(s.last()) =~= s);
    }
}

/// Distinctness of names survives an insertion of a fresh name, and the set
/// of names only grows by the inserted one.
pub proof fn lemma_insert_desc_names(s: Seq<NodeV>, x: NodeV)
    requires
        distinct_names(s),
        !has_name(s, x.name),
    ensures
        distinct_names(insert_desc(s, x)),
        forall|nm: Seq<char>|
            #[trigger] has_name(insert_desc(s, x), nm) <==> has_name(s, nm) || x.name == nm,
    decreases s.len(),
{
    lemma_insert_desc_len(s, x);
    if s.len() == 0 {
        assert(insert_desc(s, x)[0] == x);
        assert forall|nm: Seq<char>| #[trigger]
            has_name(insert_desc(s, x), nm) <==> has_name(s, nm) || x.name == nm by {
            if x.name == nm {
                assert(insert_desc(s, x)[0].name == nm);
            }
        }
    } else if s.last().total >= x.total {
        let r = s.push(x);
        assert forall|a: int, b: int|
            0 <= a < b < r.len() implies (#[trigger] r[a]).name != (#[trigger] r[b]).name by {
            if b < s.len() {
                assert(r[a] == s[a] && r[b] == s[b]);
            } else {
                assert(r[b] == x && r[a] == s[a]);
                if s[a].name == x.name {
                    assert(has_name(s, x.name));
                }
            }
        }
        assert forall|nm: Seq<char>| #[trigger]
            has_name(r, nm) <==> has_name(s, nm) || x.name == nm by {
            if has_name(r, nm) {
                let i = choose|i: int| 0 <= i < r.len() && r[i].name == nm;
                if i < s.len() {
                    assert(s[i] == r[i]);
                } else {
                    assert(r[i] == x);
                }
            }
            if has_name(s, nm) {
                let i = choose|i: int| 0 <= i < s.len() && s[i].name == nm;
                assert(r[i].name == nm);
            }
            if x.name == nm {
                assert(r[s.len() as int].name == nm);
            }
        }
    } else {
        assert(distinct_names(s.drop_last())) by {
            assert forall|a: int, b: int|
                0 <= a < b < s.drop_last().len() implies (#[trigger] s.drop_last()[a]).name != (
            #[trigger] s.drop_last()[b]).name by {
                assert(s.drop_last()[a] == s[a] && s.drop_last()[b] == s[b]);
            }
        }
        assert(!has_name(s.drop_last(), x.name)) by {
            if has_name(s.drop_last(), x.name) {
                let i = choose|i: int|
                    0 <= i < s.drop_last().len() && s.drop_last()[i].name == x.name;
                assert(s[i].name == x.name);
                assert(has_name(s, x.name));
            }
        }
        lemma_insert_desc_names(s.drop_last(), x);
        lemma_insert_desc_len(s.drop_last(), x);
        let inner = insert_desc(s.drop_last(), x);
        let r = inner.push(s.last());
        assert(!has_name(inner, s.last().name)) by {
            if has_name(s.drop_last(), s.last().name) {
                let i = choose|i: int|
                    0 <= i < s.drop_last().len() && s.drop_last()[i].name == s.last().name;
                assert(s[i].name == s[s.len() - 1].name);
            }
            if x.name == s.last().name {
                assert(s[s.len() - 1].name == x.name);
                assert(has_name(s, x.name));
            }
        }
        assert forall|a: int, b: int|
            0 <= a < b < r.len() implies (#[trigger] r[a]).name != (#[trigger] r[b]).name by {
            if b < inner.len() {
                assert(r[a] == inner[a] && r[b] == inner[b]);
            } else {
                assert(r[b] == s.last() && r[a] == inner[a]);
                if inner[a].name == s.last().name {
                    assert(has_name(inner, s.last().name));
                }
            }
        }
        assert forall|nm: Seq<char>| #[trigger]
            has_name(r, nm) <==> has_name(s, nm) || x.name == nm by {
            if has_name(r, nm) {
                let i = choose|i: int| 0 <= i < r.len() && r[i].name == nm;
                if i < inner.len() {
                    assert(has_name(inner, nm));
                    if has_name(s.drop_last(), nm) {
                        let j = choose|j: int|
                            0 <= j < s.drop_last().len() && s.drop_last()[j].name == nm;
                        assert(s[j].name == nm);
                    }
                } else {
                    assert(r[i] == s.last());
                    assert(s[s.len() - 1].name == nm);
                }
            }
            if has_name(s, nm) {
                let i = choose|i: int| 0 <= i < s.len() && s[i].name == nm;
                if i < s.len() - 1 {
                    assert(s.drop_last()[i].name == nm);
                    assert(has_name(s.drop_last(), nm));
                    assert(has_name(inner, nm));
                    let j = choose|j: int| 0 <= j < inner.len() && inner[j].name == nm;
                    assert(r[j].name == nm);
                } else {
                    assert(r[r.len() - 1].name == nm);
                }
            }
            if x.name == nm {
                assert(has_name(inner, nm));
                let j = choose|j: int| 0 <= j < inner.len() && inner[j].name == nm;
                assert(r[j].name == nm);
            }
        }
    }
}

pub proof fn lemma_sort_desc_names(s: Seq<NodeV>)
    requires
        distinct_names(s),
    ensures
        distinct_names(sort_desc(s)),
    decreases s.len(),
{
    if s.len() > 0 {
        assert(distinct_names(s.drop_last())) by {
            assert forall|a: int, b: int|
                0 <= a < b < s.drop_last().len() implies (#[trigger] s.drop_last()[a]).name != (
            #[trigger] s.drop_last()[b]).name by {
                assert(s.drop_last()[a] == s[a] && s.drop_last()[b] == s[b]);
            }
        }
        lemma_sort_desc_names(s.drop_last());
        lemma_sort_desc_has_names(s.drop_last());
        assert(!has_name(sort_desc(s.drop_last()), s.last().name)) by {
            if has_name(s.drop_last(), s.last().name) {
                let i = choose|i: int|
                    0 <= i < s.drop_last().len() && s.drop_last()[i].name == s.last().name;
                assert(s[i].name == s[s.len() - 1].name);
            }
        }
        lemma_insert_desc_names(sort_desc(s.drop_last()), s.last());
    }
}

/// The sort keeps exactly the names it was given.
pub proof fn lemma_sort_desc_has_names(s: Seq<NodeV>)
    requires
        distinct_names(s),
    ensures
        forall|nm: Seq<char>| #[trigger] has_name(sort_desc(s), nm) <==> has_name(s, nm),
    decreases s.len(),
{
    if s.len() == 0 {
        assert forall|nm: Seq<char>| #[trigger]
            has_name(sort_desc(s), nm) <==> has_name(s, nm) by {
            if has_name(sort_desc(s), nm) {
                let i = choose|i: int| 0 <= i < sort_desc(s).len() && sort_desc(s)[i].name == nm;
            }
        }
    } else {
        assert(distinct_names(s.drop_last())) by {
            assert forall|a: int, b: int|
                0 <= a < b < s.drop_last().len() implies (#[trigger] s.drop_last()[a]).name != (
            #[trigger] s.drop_last()[b]).name by {
                assert(s.drop_last()[a] == s[a] && s.drop_last()[b] == s[b]);
            }
        }
        lemma_sort_desc_names(s.drop_last());
        lemma_sort_desc_has_names(s.drop_last());
        assert(!has_name(sort_desc(s.drop_last()), s.last().name)) by {
            if has_name(s.drop_last(), s.last().name) {
                let i = choose|i: int|
                    0 <= i < s.drop_last().len() && s.drop_last()[i].name == s.last().name;
                assert(s[i].name == s[s.len() - 1].name);
            }
        }
        lemma_insert_desc_names(sort_desc(s.drop_last()), s.last());
        assert forall|nm: Seq<char>| #[trigger]
            has_name(sort_desc(s), nm) <==> has_name(s, nm) by {
            if has_name(s, nm) {
                let i = choose|i: int| 0 <= i < s.len() && s[i].name == nm;
                if i < s.len() - 1 {
                    assert(s.drop_last()[i].name == nm);
                    assert(has_name(s.drop_last(), nm));
                }
            }
            if has_name(s.drop_last(), nm) {
                let i = choose|i: int|
                    0 <= i < s.drop_last().len() && s.drop_last()[i].name == nm;
                assert(s[i].name == nm);
            }
        }
    }
}

/// Sorting preserves well-formedness and every weight: only the order of
/// siblings changes.
pub proof fn lemma_sort_wf(n: NodeV)
    requires
        n.wf(),
    ensures
        spec_sort(n).wf(),
        spec_sort(n).total == n.total,
        spec_sort(n).self_val == n.self_val,
        spec_sort(n).name == n.name,
    decreases n,
{
    let ms = map_sort(n.children);
    let sc = sort_desc(ms);
    lemma_map_sort_index(n.children);
    lemma_sort_desc_sorted(ms);
    lemma_map_sort_sum(n.children);
    lemma_sort_desc_sum(ms);
    assert(all_wf(sc)) by {
        assert forall|k: int| 0 <= k < sc.len() implies (#[trigger] sc[k]).wf() by {
            assert(ms.contains(sc[k]));
            let j = choose|j: int| 0 <= j < ms.len() && ms[j] == sc[k];
            assert(ms[j] == spec_sort(n.children[j]));
            assert(n.children[j].wf());
            lemma_sort_wf(n.children[j]);
        }
    }
    assert(distinct_names(sc)) by {
        assert(distinct_names(ms)) by {
            assert forall|a: int, b: int|
                0 <= a < b < ms.len() implies (#[trigger] ms[a]).name != (#[trigger] ms[b]).name by {
                assert(ms[a] == spec_sort(n.children[a]));
                assert(ms[b] == spec_sort(n.children[b]));
            }
        }
        lemma_sort_desc_names(ms);
    }
}

/// A zero-weight node with no children weighs nothing along any path.
pub proof fn lemma_empty_totals(n: NodeV, p: Seq<Seq<char>>)
    requires
        n.total == 0,
        n.self_val == 0,
        n.children.len() == 0,
    ensures
        n.stotal(p) == 0,
        n.sself(p) == 0,
{
    if p.len() > 0 {
        lemma_find_name(n.children, p[0]);
    }
}

} // verus!
