use crate::text::str_eq;
use vstd::prelude::*;

verus! {

broadcast use vstd::std_specs::vec::axiom_vec_index_decreases;

/// Mathematical model of one node of the aggregated call tree: the node's
/// display name, its inclusive and exclusive weights, and its ordered children.
#[verifier::ext_equal]
pub ghost struct NodeV {
    pub name: Seq<char>,
    pub total: int,
    pub self_val: int,
    pub children: Seq<NodeV>,
}

/// Sum of the inclusive weights of a sequence of model nodes.
pub open spec fn sum_totals(s: Seq<NodeV>) -> int
    decreases s.len(),
{
    if s.len() == 0 {
        0
    } else {
        s[0].total + sum_totals(s.drop_first())
    }
}

/// Index of the first node in `s` whose name is `name`, or -1 if none has it.
pub open spec fn find_name(s: Seq<NodeV>, name: Seq<char>) -> int
    decreases s.len(),
{
    if s.len() == 0 {
        -1
    } else if s[0].name == name {
        0
    } else {
        let r = find_name(s.drop_first(), name);
        if r < 0 {
            -1
        } else {
            r + 1
        }
    }
}

/// The names of a sequence of owned display strings.
pub open spec fn names_of(s: Seq<String>) -> Seq<Seq<char>> {
    s.map_values(|x: String| x@)
}

/// No two nodes of a sibling list share a name.
pub open spec fn distinct_names(s: Seq<NodeV>) -> bool {
    forall|i: int, j: int|
        0 <= i < j < s.len() ==> (#[trigger] s[i]).name != (#[trigger] s[j]).name
}

/// Every node of a sibling list is well-formed.
pub open spec fn all_wf(s: Seq<NodeV>) -> bool
    decreases s, 1int,
{
    forall|i: int| 0 <= i < s.len() ==> (#[trigger] s[i]).wf()
}

impl NodeV {
    /// Well-formedness of the model tree: weights are non-negative, the
    /// inclusive weight of a node is its exclusive weight plus the inclusive
    /// weights of its children, and sibling names are distinct.
    pub open spec fn wf(self) -> bool
        decreases self, 0int,
    {
        &&& 0 <= self.self_val
        &&& self.total == self.self_val + sum_totals(self.children)
        &&& distinct_names(self.children)
        &&& all_wf(self.children)
    }

    /// The empty node a fresh tree starts from.
    pub open spec fn empty(name: Seq<char>) -> NodeV {
        NodeV { name, total: 0, self_val: 0, children: Seq::empty() }
    }

    /// Inclusive weight of the node reached from `self` by following the
    /// names in `path`; 0 if no such node exists.
    pub open spec fn stotal(self, path: Seq<Seq<char>>) -> int
        decreases path.len(),
    {
        if path.len() == 0 {
            self.total
        } else {
            let i = find_name(self.children, path[0]);
            if i >= 0 {
                self.children[i].stotal(path.drop_first())
            } else {
                0
            }
        }
    }

    /// Exclusive weight of the node reached from `self` by following the
    /// names in `path`; 0 if no such node exists.
    pub open spec fn sself(self, path: Seq<Seq<char>>) -> int
        decreases path.len(),
    {
        if path.len() == 0 {
            self.self_val
        } else {
            let i = find_name(self.children, path[0]);
            if i >= 0 {
                self.children[i].sself(path.drop_first())
            } else {
                0
            }
        }
    }
}

/// Model of inserting one weighted stack: every node along the named path
/// gains `v` on its inclusive weight, missing nodes are created, and the
/// terminal node also gains `v` on its exclusive weight.
pub open spec fn spec_add_stack(n: NodeV, stack: Seq<Seq<char>>, v: int) -> NodeV
    decreases stack.len(),
{
    if stack.len() == 0 {
        NodeV { name: n.name, total: n.total + v, self_val: n.self_val + v, children: n.children }
    } else {
        let i = find_name(n.children, stack[0]);
        if i >= 0 {
            NodeV {
                name: n.name,
                total: n.total + v,
                self_val: n.self_val,
                children: n.children.update(
                    i,
                    spec_add_stack(n.children[i], stack.drop_first(), v),
                ),
            }
        } else {
            NodeV {
                name: n.name,
                total: n.total + v,
                self_val: n.self_val,
                children: n.children.push(
                    spec_add_stack(NodeV::empty(stack[0]), stack.drop_first(), v),
                ),
            }
        }
    }
}

/// Model of merging tree `b` into tree `a`: weights are added at the root,
/// and each child of `b` is merged into the like-named child of `a`, or
/// appended when `a` has no child of that name.
pub open spec fn spec_merge(a: NodeV, b: NodeV) -> NodeV
    decreases b, 0int,
{
    NodeV {
        name: a.name,
        total: a.total + b.total,
        self_val: a.self_val + b.self_val,
        children: merge_children(a.children, b.children),
    }
}

/// Fold of `merge_one` over the incoming children, in order.
pub open spec fn merge_children(cs: Seq<NodeV>, os: Seq<NodeV>) -> Seq<NodeV>
    decreases os, 1int,
{
    if os.len() == 0 {
        cs
    } else {
        merge_children(merge_one(cs, os[0]), os.drop_first())
    }
}

/// Merge one incoming child into a sibling list.
pub open spec fn merge_one(cs: Seq<NodeV>, o: NodeV) -> Seq<NodeV>
    decreases o, 2int,
{
    let i = find_name(cs, o.name);
    if i >= 0 {
        cs.update(i, spec_merge(cs[i], o))
    } else {
        cs.push(o)
    }
}

/// Insert `x` into a sequence sorted by non-increasing inclusive weight,
/// after every element whose weight is at least `x`'s (so ties keep their
/// existing order).
pub open spec fn insert_desc(s: Seq<NodeV>, x: NodeV) -> Seq<NodeV>
    decreases s.len(),
{
    if s.len() == 0 {
        seq![x]
    } else if s.last().total >= x.total {
        s.push(x)
    } else {
        insert_desc(s.drop_last(), x).push(s.last())
    }
}

/// Stable insertion sort by non-increasing inclusive weight.
pub open spec fn sort_desc(s: Seq<NodeV>) -> Seq<NodeV>
    decreases s.len(),
{
    if s.len() == 0 {
        Seq::empty()
    } else {
        insert_desc(sort_desc(s.drop_last()), s.last())
    }
}

/// Model of the recursive sort: sort every subtree, then order the
/// (already internally sorted) children by non-increasing inclusive weight.
pub open spec fn spec_sort(n: NodeV) -> NodeV
    decreases n, 0int,
{
    NodeV {
        name: n.name,
        total: n.total,
        self_val: n.self_val,
        children: sort_desc(map_sort(n.children)),
    }
}

/// `spec_sort` applied to every element of a sequence.
pub open spec fn map_sort(s: Seq<NodeV>) -> Seq<NodeV>
    decreases s, 1int,
{
    if s.len() == 0 {
        Seq::empty()
    } else {
        map_sort(s.drop_last()).push(spec_sort(s.last()))
    }
}

/// A sequence of model nodes ordered by non-increasing inclusive weight.
pub open spec fn sorted_desc(s: Seq<NodeV>) -> bool {
    forall|i: int, j: int| 0 <= i < j < s.len() ==> (#[trigger] s[i]).total >= (#[trigger] s[j]).total
}

/// One node of the aggregated call tree.  `total_value` counts every stack
/// that passes through the node, `self_value` only those that end exactly
/// here; among siblings, names are coalesced on insert (see `add_stack`).
#[derive(Debug)]
pub struct FlameNode {
    pub name: String,
    pub total_value: i64,
    pub self_value: i64,
    pub children: Vec<FlameNode>,
}

impl FlameNode {
    pub open spec fn view_impl(self) -> NodeV
        decreases self,
    {
        NodeV {
            name: self.name@,
            total: self.total_value as int,
            self_val: self.self_value as int,
            children: views_of(self.children@),
        }
    }
}

pub open spec fn views_of(s: Seq<FlameNode>) -> Seq<NodeV>
    decreases s,
{
    if s.len() == 0 {
        Seq::empty()
    } else {
        views_of(s.drop_last()).push(s.last().view_impl())
    }
}

impl View for FlameNode {
    type V = NodeV;

    open spec fn view(&self) -> NodeV {
        self.view_impl()
    }
}

pub broadcast proof fn views_of_len(s: Seq<FlameNode>)
    ensures
        (#[trigger] views_of(s)).len() == s.len(),
    decreases s,
{
    if s.len() > 0 {
        views_of_len(s.drop_last());
    }
}

pub broadcast proof fn views_of_index(s: Seq<FlameNode>, i: int)
    requires
        0 <= i < s.len(),
    ensures
        #[trigger] views_of(s)[i] == s[i]@,
    decreases s,
{
    views_of_len(s.drop_last());
    if i < s.len() - 1 {
        views_of_index(s.drop_last(), i);
    }
}

/// Every weight in a well-formed sibling list is non-negative, so the sum is.
pub proof fn lemma_sum_wf_nonneg(s: Seq<NodeV>)
    requires
        all_wf(s),
    ensures
        sum_totals(s) >= 0,
    decreases s, 1int,
{
    if s.len() > 0 {
        lemma_wf_total_nonneg(s[0]);
        assert(all_wf(s.drop_first())) by {
            assert forall|i: int| 0 <= i < s.drop_first().len() implies (#[trigger] s.drop_first()[i]).wf() by {
                assert(s.drop_first()[i] == s[i + 1]);
            }
        }
        lemma_sum_wf_nonneg(s.drop_first());
    }
}

/// A well-formed node has non-negative weights.
pub proof fn lemma_wf_total_nonneg(n: NodeV)
    requires
        n.wf(),
    ensures
        n.total >= 0,
        n.self_val >= 0,
        sum_totals(n.children) >= 0,
    decreases n, 0int,
{
    lemma_sum_wf_nonneg(n.children);
}

/// Each element of a sibling list with non-negative weights is bounded by the sum.
pub proof fn lemma_sum_elem_le(s: Seq<NodeV>, k: int)
    requires
        forall|i: int| 0 <= i < s.len() ==> (#[trigger] s[i]).total >= 0,
        0 <= k < s.len(),
    ensures
        s[k].total <= sum_totals(s),
    decreases s.len(),
{
    lemma_sum_nonneg(s);
    if k > 0 {
        lemma_sum_elem_le(s.drop_first(), k - 1);
    } else {
        lemma_sum_nonneg(s.drop_first());
    }
}

pub proof fn lemma_sum_nonneg(s: Seq<NodeV>)
    requires
        forall|i: int| 0 <= i < s.len() ==> (#[trigger] s[i]).total >= 0,
    ensures
        sum_totals(s) >= 0,
    decreases s.len(),
{
    if s.len() > 0 {
        lemma_sum_nonneg(s.drop_first());
    }
}

/// In a well-formed node, every child's inclusive weight is at most the parent's.
pub proof fn lemma_child_total_le(n: NodeV, i: int)
    requires
        n.wf(),
        0 <= i < n.children.len(),
    ensures
        0 <= n.children[i].total,
        n.children[i].total <= sum_totals(n.children),
        n.children[i].total <= n.total,
{
    assert forall|j: int| 0 <= j < n.children.len() implies (#[trigger] n.children[j]).total
        >= 0 by {
        lemma_wf_total_nonneg(n.children[j]);
    }
    lemma_sum_elem_le(n.children, i);
}

/// What `find_name` returns: -1 exactly when no element has the name, else
/// the first index that does.
pub proof fn lemma_find_name(s: Seq<NodeV>, nm: Seq<char>)
    ensures
        find_name(s, nm) == -1 ==> forall|i: int| 0 <= i < s.len() ==> (#[trigger] s[i]).name != nm,
        find_name(s, nm) != -1 ==> {
            let r = find_name(s, nm);
            &&& 0 <= r < s.len()
            &&& s[r].name == nm
            &&& forall|j: int| 0 <= j < r ==> (#[trigger] s[j]).name != nm
        },
    decreases s.len(),
{
    if s.len() > 0 {
        lemma_find_name(s.drop_first(), nm);
        if s[0].name != nm {
            let r0 = find_name(s.drop_first(), nm);
            if r0 == -1 {
                assert forall|i: int| 0 <= i < s.len() implies (#[trigger] s[i]).name != nm by {
                    if i > 0 {
                        assert(s.drop_first()[i - 1] == s[i]);
                    }
                }
            } else {
                assert(s.drop_first()[r0] == s[r0 + 1]);
                assert forall|j: int| 0 <= j < r0 + 1 implies (#[trigger] s[j]).name != nm by {
                    if j > 0 {
                        assert(s.drop_first()[j - 1] == s[j]);
                    }
                }
            }
        }
    }
}

impl FlameNode {
    /// A fresh node with the given name and zero weight.
    pub fn new(name: String) -> (r: FlameNode)
        ensures
            r@ == NodeV::empty(name@),
    {
        let r = FlameNode { name, total_value: 0, self_value: 0, children: Vec::new() };
        proof {
            assert(r@ =~= NodeV::empty(r.name@));
        }
        r
    }

    /// Inserts one stack of weight `value`, coalescing by name at each level:
    /// every node along the path gains `value` on `total_value`, a missing
    /// node is created, and the terminal node also gains `value` on
    /// `self_value`.
    pub fn add_stack(&mut self, stack: &[String], value: i64)
        requires
            old(self)@.wf(),
            0 <= value,
            old(self).total_value + value <= i64::MAX,
        ensures
            final(self)@ == spec_add_stack(old(self)@, names_of(stack@), value as int),
    {
        proof {
            assert(names_of(stack@).skip(0) =~= names_of(stack@));
        }
        self.add_stack_from(stack, 0, value);
    }

    fn add_stack_from(&mut self, stack: &[String], from: usize, value: i64)
        requires
            old(self)@.wf(),
            0 <= value,
            from <= stack@.len(),
            old(self).total_value + value <= i64::MAX,
        ensures
            final(self)@ == spec_add_stack(
                old(self)@,
                names_of(stack@).skip(from as int),
                value as int,
            ),
        decreases stack@.len() - from,
    {
        broadcast use views_of_len, views_of_index;

        proof {
            lemma_wf_total_nonneg(old(self)@);
        }
        self.total_value = self.total_value + value;
        if from >= stack.len() {
            self.self_value = self.self_value + value;
            proof {
                lemma_sum_wf_nonneg(old(self)@.children);
                assert(final(self)@ =~= spec_add_stack(
                    old(self)@,
                    names_of(stack@).skip(from as int),
                    value as int,
                ));
            }
            return ;
        }
        let ghost names = names_of(stack@).skip(from as int);
        proof {
            assert(names[0] == stack@[from as int]@);
            assert(names.drop_first() =~= names_of(stack@).skip(from as int + 1));
        }
        let pos = find_child(&self.children, &stack[from]);
        match pos {
            Some(i) => {
                proof {
                    lemma_child_total_le(old(self)@, i as int);
                    assert(old(self)@.children[i as int].wf());
                    assert(old(self)@.children[i as int] == old(self).children@[i as int]@);
                }
                self.children[i].add_stack_from(stack, from + 1, value);
                proof {
                    let oldn = old(self)@;
                    let iint = i as int;
                    assert(self.children@[iint]@ == spec_add_stack(
                        oldn.children[iint],
                        names.drop_first(),
                        value as int,
                    ));
                    assert(views_of(self.children@) =~= views_of(old(self).children@).update(
                        iint,
                        self.children@[iint]@,
                    ));
                    assert(find_name(oldn.children, names[0]) == iint);
                    assert(final(self)@ =~= spec_add_stack(oldn, names, value as int));
                }
            },
            None => {
                let node = FlameNode::new(stack[from].clone());
                proof {
                    assert(node@ == NodeV::empty(names[0]));
                }
                self.children.push(node);
                let last = self.children.len() - 1;
                self.children[last].add_stack_from(stack, from + 1, value);
                proof {
                    let oldn = old(self)@;
                    let li = last as int;
                    assert(self.children@[li]@ == spec_add_stack(
                        NodeV::empty(names[0]),
                        names.drop_first(),
                        value as int,
                    ));
                    assert(views_of(self.children@) =~= views_of(old(self).children@).push(
                        self.children@[li]@,
                    ));
                    assert(find_name(oldn.children, names[0]) == -1);
                    assert(final(self)@ =~= spec_add_stack(oldn, names, value as int));
                }
            },
        }
    }
}

/// Position of the first child whose name equals `name`, if any.
fn find_child(children: &Vec<FlameNode>, name: &String) -> (r: Option<usize>)
    ensures
        match r {
            Some(i) => i < children@.len() && find_name(views_of(children@), name@) == i as int,
            None => find_name(views_of(children@), name@) == -1,
        },
{
    broadcast use views_of_len, views_of_index;

    let n = children.len();
    let mut i: usize = 0;
    while i < n
        invariant
            i <= n,
            n == children@.len(),
            forall|j: int| 0 <= j < i ==> (#[trigger] views_of(children@)[j]).name != name@,
        decreases n - i,
    {
        let eq = children[i].name == *name;
        proof {
            views_of_len(children@);
            views_of_index(children@, i as int);
            assert(views_of(children@)[i as int] == children@[i as int]@);
        }
        if eq {
            proof {
                lemma_find_name(views_of(children@), name@);
            }
            return Some(i);
        }
        i = i + 1;
    }
    proof {
        lemma_find_name(views_of(children@), name@);
    }
    None
}

pub proof fn lemma_views_update(s: Seq<FlameNode>, i: int, x: FlameNode)
    requires
        0 <= i < s.len(),
    ensures
        views_of(s.update(i, x)) =~= views_of(s).update(i, x@),
{
    views_of_len(s);
    views_of_len(s.update(i, x));
    assert forall|k: int| 0 <= k < s.len() implies views_of(s.update(i, x))[k] == views_of(
        s,
    ).update(i, x@)[k] by {
        views_of_index(s.update(i, x), k);
        views_of_index(s, k);
    }
}

pub proof fn lemma_views_push(s: Seq<FlameNode>, x: FlameNode)
    ensures
        views_of(s.push(x)) =~= views_of(s).push(x@),
{
    assert(s.push(x).drop_last() =~= s);
    assert(s.push(x).last() == x);
}

pub proof fn lemma_sum_update(s: Seq<NodeV>, i: int, x: NodeV)
    requires
        0 <= i < s.len(),
    ensures
        sum_totals(s.update(i, x)) == sum_totals(s) - s[i].total + x.total,
    decreases s.len(),
{
    if i == 0 {
        assert(s.update(0, x)[0] == x);
        assert(s.update(0, x).drop_first() =~= s.drop_first());
    } else {
        assert(s.update(i, x)[0] == s[0]);
        assert(s.update(i, x).drop_first() =~= s.drop_first().update(i - 1, x));
        lemma_sum_update(s.drop_first(), i - 1, x);
    }
}

pub proof fn lemma_sum_push(s: Seq<NodeV>, x: NodeV)
    ensures
        sum_totals(s.push(x)) == sum_totals(s) + x.total,
    decreases s.len(),
{
    if s.len() == 0 {
        assert(s.push(x)[0] == x);
        assert(s.push(x).drop_first() =~= Seq::<NodeV>::empty());
        assert(sum_totals(s.push(x)) == x.total + sum_totals(Seq::<NodeV>::empty()));
        assert(sum_totals(Seq::<NodeV>::empty()) == 0);
    } else {
        assert(s.push(x)[0] == s[0]);
        assert(s.push(x).drop_first() =~= s.drop_first().push(x));
        lemma_sum_push(s.drop_first(), x);
        assert(sum_totals(s.push(x)) == s[0].total + sum_totals(s.drop_first().push(x)));
        assert(sum_totals(s) == s[0].total + sum_totals(s.drop_first()));
    }
}

/// The sum over a prefix of a non-negative sibling list is at most the whole sum.
pub proof fn lemma_sum_prefix_le(s: Seq<NodeV>, k: int)
    requires
        forall|i: int| 0 <= i < s.len() ==> (#[trigger] s[i]).total >= 0,
        0 <= k <= s.len(),
    ensures
        sum_totals(s.subrange(0, k)) <= sum_totals(s),
        sum_totals(s.subrange(0, k)) >= 0,
    decreases s.len() - k,
{
    if k == s.len() {
        assert(s.subrange(0, k) =~= s);
        lemma_sum_nonneg(s);
    } else {
        assert(s.subrange(0, k + 1) =~= s.subrange(0, k).push(s[k]));
        lemma_sum_push(s.subrange(0, k), s[k]);
        lemma_sum_prefix_le(s, k + 1);
        assert forall|i: int|
            0 <= i < s.subrange(0, k).len() implies (#[trigger] s.subrange(0, k)[i]).total
            >= 0 by {
            assert(s.subrange(0, k)[i] == s[i]);
        }
        lemma_sum_nonneg(s.subrange(0, k));
    }
}

/// Merging a well-formed tree into a well-formed tree yields a well-formed
/// tree: the sibling-sum invariant and sibling-name distinctness are
/// preserved by `merge`.
pub proof fn lemma_merge_wf(a: NodeV, b: NodeV)
    requires
        a.wf(),
        b.wf(),
    ensures
        spec_merge(a, b).wf(),
    decreases b, 0int,
{
    lemma_merge_children_props(a.children, b.children);
}

pub proof fn lemma_merge_children_props(cs: Seq<NodeV>, os: Seq<NodeV>)
    requires
        all_wf(cs),
        distinct_names(cs),
        all_wf(os),
    ensures
        all_wf(merge_children(cs, os)),
        distinct_names(merge_children(cs, os)),
        sum_totals(merge_children(cs, os)) == sum_totals(cs) + sum_totals(os),
    decreases os, 1int,
{
    if os.len() > 0 {
        lemma_merge_one_props(cs, os[0]);
        assert(all_wf(os.drop_first())) by {
            assert forall|i: int|
                0 <= i < os.drop_first().len() implies (#[trigger] os.drop_first()[i]).wf() by {
                assert(os.drop_first()[i] == os[i + 1]);
            }
        }
        lemma_merge_children_props(merge_one(cs, os[0]), os.drop_first());
    }
}

pub proof fn lemma_merge_one_props(cs: Seq<NodeV>, o: NodeV)
    requires
        all_wf(cs),
        distinct_names(cs),
        o.wf(),
    ensures
        all_wf(merge_one(cs, o)),
        distinct_names(merge_one(cs, o)),
        sum_totals(merge_one(cs, o)) == sum_totals(cs) + o.total,
        merge_one(cs, o).len() >= cs.len(),
        forall|j: int| 0 <= j < cs.len() ==> (#[trigger] merge_one(cs, o)[j]).name == cs[j].name,
    decreases o, 2int,
{
    let i = find_name(cs, o.name);
    lemma_find_name(cs, o.name);
    if i >= 0 {
        lemma_merge_wf(cs[i], o);
        lemma_sum_update(cs, i, spec_merge(cs[i], o));
        lemma_wf_total_nonneg(o);
        let r = merge_one(cs, o);
        assert forall|j: int| 0 <= j < cs.len() implies (#[trigger] r[j]).name == cs[j].name by {
            assert(r == cs.update(i, spec_merge(cs[i], o)));
        }
        assert(all_wf(r)) by {
            assert forall|j: int| 0 <= j < r.len() implies (#[trigger] r[j]).wf() by {
                if j != i {
                    assert(r[j] == cs[j]);
                }
            }
        }
    } else {
        lemma_sum_push(cs, o);
        let r = cs.push(o);
        assert(all_wf(r)) by {
            assert forall|j: int| 0 <= j < r.len() implies (#[trigger] r[j]).wf() by {
                if j < cs.len() {
                    assert(r[j] == cs[j]);
                }
            }
        }
        assert(distinct_names(r)) by {
            assert forall|x: int, y: int|
                0 <= x < y < r.len() implies (#[trigger] r[x]).name != (#[trigger] r[y]).name by {
                if y < cs.len() {
                    assert(r[x] == cs[x] && r[y] == cs[y]);
                } else {
                    assert(r[x] == cs[x] && r[y] == o);
                }
            }
        }
    }
}

pub proof fn lemma_merge_children_snoc(cs: Seq<NodeV>, os: Seq<NodeV>, x: NodeV)
    ensures
        merge_children(cs, os.push(x)) == merge_one(merge_children(cs, os), x),
    decreases os.len(),
{
    if os.len() == 0 {
        assert(os.push(x)[0] == x);
        assert(os.push(x).drop_first() =~= Seq::<NodeV>::empty());
        assert(merge_children(cs, os.push(x)) == merge_children(
            merge_one(cs, x),
            os.push(x).drop_first(),
        ));
        assert(merge_children(merge_one(cs, x), Seq::<NodeV>::empty()) == merge_one(cs, x));
        assert(merge_children(cs, os) == cs);
    } else {
        assert(os.push(x)[0] == os[0]);
        assert(os.push(x).drop_first() =~= os.drop_first().push(x));
        lemma_merge_children_snoc(merge_one(cs, os[0]), os.drop_first(), x);
        assert(merge_children(cs, os.push(x)) == merge_children(
            merge_one(cs, os[0]),
            os.drop_first().push(x),
        ));
        assert(merge_children(cs, os) == merge_children(merge_one(cs, os[0]), os.drop_first()));
    }
}

impl Clone for FlameNode {
    /// A deep copy whose model tree equals the original's.
    fn clone(&self) -> (r: FlameNode)
        ensures
            r@ == self@,
        decreases *self,
    {
        let mut kids: Vec<FlameNode> = Vec::new();
        let n = self.children.len();
        let mut i: usize = 0;
        while i < n
            invariant
                i <= n,
                n == self.children@.len(),
                kids@.len() == i,
                views_of(kids@) =~= views_of(self.children@).subrange(0, i as int),
            decreases n - i,
        {
            proof {
                assert(decreases_to!(*self => self.children@[i as int]));
            }
            let ghost kids0 = kids@;
            let c = self.children[i].clone();
            kids.push(c);
            proof {
                lemma_views_push(kids0, c);
                views_of_len(self.children@);
                views_of_index(self.children@, i as int);
                assert(views_of(kids@) =~= views_of(self.children@).subrange(0, i as int + 1));
            }
            i = i + 1;
        }
        let r = FlameNode {
            name: self.name.clone(),
            total_value: self.total_value,
            self_value: self.self_value,
            children: kids,
        };
        proof {
            views_of_len(self.children@);
            assert(views_of(self.children@).subrange(0, n as int) =~= views_of(self.children@));
            assert(r@ =~= self@);
        }
        r
    }
}

pub proof fn lemma_views_insert(s: Seq<FlameNode>, i: int, x: FlameNode)
    requires
        0 <= i <= s.len(),
    ensures
        views_of(s.insert(i, x)) =~= views_of(s).insert(i, x@),
{
    views_of_len(s);
    views_of_len(s.insert(i, x));
    assert forall|k: int| 0 <= k < s.len() + 1 implies views_of(s.insert(i, x))[k] == views_of(
        s,
    ).insert(i, x@)[k] by {
        views_of_index(s.insert(i, x), k);
        if k < i {
            views_of_index(s, k);
            assert(s.insert(i, x)[k] == s[k]);
        } else if k == i {
            assert(s.insert(i, x)[k] == x);
        } else {
            views_of_index(s, k - 1);
            assert(s.insert(i, x)[k] == s[k - 1]);
        }
    }
}

/// Where the scan of the insertion sort stops is where `insert_desc` puts
/// the element.
pub proof fn lemma_insert_desc_at(s: Seq<NodeV>, x: NodeV, p: int)
    requires
        0 <= p <= s.len(),
        forall|j: int| p <= j < s.len() ==> (#[trigger] s[j]).total < x.total,
        p > 0 ==> s[p - 1].total >= x.total,
    ensures
        insert_desc(s, x) == s.insert(p, x),
    decreases s.len(),
{
    if s.len() == 0 {
        assert(insert_desc(s, x) =~= s.insert(0, x));
    } else if s.last().total >= x.total {
        assert(p == s.len());
        assert(insert_desc(s, x) =~= s.insert(p, x));
    } else {
        assert(p <= s.len() - 1);
        assert forall|j: int|
            p <= j < s.drop_last().len() implies (#[trigger] s.drop_last()[j]).total < x.total by {
            assert(s.drop_last()[j] == s[j]);
        }
        if p > 0 {
            assert(s.drop_last()[p - 1] == s[p - 1]);
        }
        lemma_insert_desc_at(s.drop_last(), x, p);
        assert(insert_desc(s, x) == s.drop_last().insert(p, x).push(s.last()));
        assert(s.drop_last().insert(p, x).push(s.last()) =~= s.insert(p, x));
    }
}

/// Inserts `x` into a vector sorted by non-increasing `total_value`, after
/// every element whose weight is at least `x`'s.
fn insert_sorted(result: &mut Vec<FlameNode>, x: FlameNode)
    ensures
        views_of(final(result)@) == insert_desc(views_of(old(result)@), x@),
{
    broadcast use views_of_len, views_of_index;

    let mut pos: usize = result.len();
    while pos > 0 && result[pos - 1].total_value < x.total_value
        invariant
            pos <= result@.len(),
            forall|j: int|
                pos <= j < result@.len() ==> (#[trigger] views_of(result@)[j]).total < x@.total,
        decreases pos,
    {
        proof {
            views_of_len(result@);
            views_of_index(result@, pos - 1);
        }
        pos = pos - 1;
    }
    proof {
        views_of_len(result@);
        if pos > 0 {
            views_of_index(result@, pos as int - 1);
        }
        lemma_insert_desc_at(views_of(result@), x@, pos as int);
    }
    let ghost pre = result@;
    result.insert(pos, x);
    proof {
        lemma_views_insert(pre, pos as int, x);
    }
}

/// Builds a copy of the subtree with every level ordered by non-increasing
/// inclusive weight (stable for ties).
fn sorted_copy(node: &FlameNode) -> (r: FlameNode)
    ensures
        r@ == spec_sort(node@),
    decreases *node,
{
    let mut result: Vec<FlameNode> = Vec::new();
    let n = node.children.len();
    let mut i: usize = 0;
    proof {
        assert(views_of(node.children@).subrange(0, 0) =~= Seq::<NodeV>::empty());
    }
    while i < n
        invariant
            i <= n,
            n == node.children@.len(),
            views_of(result@) == sort_desc(
                map_sort(views_of(node.children@).subrange(0, i as int)),
            ),
        decreases n - i,
    {
        proof {
            assert(decreases_to!(*node => node.children@[i as int]));
        }
        let cs = sorted_copy(&node.children[i]);
        insert_sorted(&mut result, cs);
        proof {
            views_of_len(node.children@);
            views_of_index(node.children@, i as int);
            let v = views_of(node.children@);
            let pref = v.subrange(0, i as int);
            assert(v.subrange(0, i as int + 1) =~= pref.push(v[i as int]));
            assert(map_sort(pref.push(v[i as int])) == map_sort(pref).push(
                spec_sort(v[i as int]),
            )) by {
                assert(pref.push(v[i as int]).drop_last() =~= pref);
            }
            assert(sort_desc(map_sort(pref).push(spec_sort(v[i as int]))) == insert_desc(
                sort_desc(map_sort(pref)),
                spec_sort(v[i as int]),
            )) by {
                assert(map_sort(pref).push(spec_sort(v[i as int])).drop_last() =~= map_sort(pref));
            }
        }
        i = i + 1;
    }
    let r = FlameNode {
        name: node.name.clone(),
        total_value: node.total_value,
        self_value: node.self_value,
        children: result,
    };
    proof {
        views_of_len(node.children@);
        assert(views_of(node.children@).subrange(0, n as int) =~= views_of(node.children@));
        assert(r@ =~= spec_sort(node@));
    }
    r
}

impl FlameNode {
    /// Orders the children of every node in the subtree by non-increasing
    /// `total_value`, stable for ties, depth first.
    pub fn sort_recursive(&mut self)
        ensures
            final(self)@ == spec_sort(old(self)@),
    {
        let sorted = sorted_copy(self);
        *self = sorted;
    }
}

impl FlameNode {
    /// Merges another tree into this one: weights are added at matching
    /// nodes (matched by name within the same parent), matching children are
    /// merged recursively, and children only present in `other` are
    /// deep-copied in.
    pub fn merge(&mut self, other: &FlameNode)
        requires
            old(self)@.wf(),
            other@.wf(),
            old(self).total_value + other.total_value <= i64::MAX,
        ensures
            final(self)@ == spec_merge(old(self)@, other@),
        decreases *other,
    {
        proof {
            lemma_wf_total_nonneg(old(self)@);
            lemma_wf_total_nonneg(other@);
            lemma_sum_wf_nonneg(old(self)@.children);
            lemma_sum_wf_nonneg(other@.children);
        }
        self.total_value = self.total_value + other.total_value;
        self.self_value = self.self_value + other.self_value;
        let n = other.children.len();
        proof {
            views_of_len(other.children@);
            assert(views_of(self.children@) == merge_children(
                old(self)@.children,
                other@.children.subrange(0, 0),
            )) by {
                assert(other@.children.subrange(0, 0) =~= Seq::<NodeV>::empty());
            }
        }
        let mut i: usize = 0;
        while i < n
            invariant
                i <= n,
                n == other.children@.len(),
                n == other@.children.len(),
                old(self)@.wf(),
                other@.wf(),
                old(self)@.total + other@.total <= i64::MAX,
                self.name == old(self).name,
                self.total_value == old(self)@.total + other@.total,
                self.self_value == old(self)@.self_val + other@.self_val,
                views_of(self.children@) == merge_children(
                    old(self)@.children,
                    other@.children.subrange(0, i as int),
                ),
            decreases n - i,
        {
            let ghost acs = old(self)@.children;
            let ghost bcs = other@.children;
            let ghost cur = views_of(self.children@);
            proof {
                views_of_len(other.children@);
                views_of_index(other.children@, i as int);
                assert(all_wf(bcs.subrange(0, i as int))) by {
                    assert forall|k: int|
                        0 <= k < i implies (#[trigger] bcs.subrange(0, i as int)[k]).wf() by {
                        assert(bcs.subrange(0, i as int)[k] == bcs[k]);
                    }
                }
                lemma_merge_children_props(acs, bcs.subrange(0, i as int));
                assert(bcs[i as int].wf());
                lemma_wf_total_nonneg(bcs[i as int]);
            }
            let oc = &other.children[i];
            let pos = find_child(&self.children, &oc.name);
            proof {
                // Bound the weights for the recursive merge: the sum of the
                // current children plus the still-unmerged child stays below
                // the combined totals.
                assert forall|k: int| 0 <= k < cur.len() implies (#[trigger] cur[k]).total >= 0 by {
                    lemma_wf_total_nonneg(cur[k]);
                }
                assert forall|k: int| 0 <= k < bcs.len() implies (#[trigger] bcs[k]).total >= 0 by {
                    lemma_wf_total_nonneg(bcs[k]);
                }
                lemma_sum_prefix_le(bcs, i as int);
                assert(bcs.subrange(0, i as int + 1) =~= bcs.subrange(0, i as int).push(
                    bcs[i as int],
                ));
                lemma_sum_push(bcs.subrange(0, i as int), bcs[i as int]);
                lemma_sum_prefix_le(bcs, i as int + 1);
                assert(sum_totals(cur) + bcs[i as int].total <= old(self)@.total + other@.total);
            }
            match pos {
                Some(p) => {
                    proof {
                        views_of_len(self.children@);
                        lemma_sum_elem_le(cur, p as int);
                        views_of_index(self.children@, p as int);
                        assert(cur[p as int].wf());
                    }
                    let ghost pre = self.children@;
                    self.children[p].merge(oc);
                    proof {
                        lemma_views_update(pre, p as int, self.children@[p as int]);
                        assert(views_of(self.children@) =~= cur.update(
                            p as int,
                            spec_merge(cur[p as int], bcs[i as int]),
                        ));
                        assert(views_of(self.children@) == merge_one(cur, bcs[i as int]));
                    }
                },
                None => {
                    let ghost pre = self.children@;
                    let copy = oc.clone();
                    self.children.push(copy);
                    proof {
                        lemma_views_push(pre, copy);
                        assert(views_of(self.children@) =~= cur.push(bcs[i as int]));
                        assert(views_of(self.children@) == merge_one(cur, bcs[i as int]));
                    }
                },
            }
            proof {
                lemma_merge_children_snoc(acs, bcs.subrange(0, i as int), bcs[i as int]);
                assert(bcs.subrange(0, i as int).push(bcs[i as int]) =~= bcs.subrange(
                    0,
                    i as int + 1,
                ));
            }
            i = i + 1;
        }
        proof {
            views_of_len(other.children@);
            assert(other@.children.subrange(0, n as int) =~= other@.children);
            assert(final(self)@ =~= spec_merge(old(self)@, other@));
        }
    }
}

/// `x` capped at the largest `usize`.
pub open spec fn cap_usize(x: int) -> int {
    if x > usize::MAX as int {
        usize::MAX as int
    } else {
        x
    }
}

/// Height of the model tree: 0 for a leaf, one more than the deepest child
/// otherwise.
pub open spec fn spec_max_depth(n: NodeV) -> int
    decreases n, 0int,
{
    if n.children.len() == 0 {
        0
    } else {
        1 + max_depths(n.children)
    }
}

/// Largest height of any node in the sequence, 0 when empty.
pub open spec fn max_depths(s: Seq<NodeV>) -> int
    decreases s, 1int,
{
    if s.len() == 0 {
        0
    } else {
        let d = spec_max_depth(s[0]);
        let m = max_depths(s.drop_first());
        if d >= m {
            d
        } else {
            m
        }
    }
}

pub proof fn lemma_max_depths_snoc(s: Seq<NodeV>, x: NodeV)
    ensures
        max_depths(s.push(x)) == if spec_max_depth(x) >= max_depths(s) {
            spec_max_depth(x)
        } else {
            max_depths(s)
        },
    decreases s.len(),
{
    if s.len() == 0 {
        assert(s.push(x)[0] == x);
        assert(s.push(x).drop_first() =~= Seq::<NodeV>::empty());
        assert(max_depths(Seq::<NodeV>::empty()) == 0);
        assert(max_depths(s.push(x)) == if spec_max_depth(x) >= 0 {
            spec_max_depth(x)
        } else {
            0
        });
    } else {
        assert(s.push(x)[0] == s[0]);
        assert(s.push(x).drop_first() =~= s.drop_first().push(x));
        lemma_max_depths_snoc(s.drop_first(), x);
        assert(max_depths(s.push(x)) == {
            let d = spec_max_depth(s[0]);
            let m = max_depths(s.drop_first().push(x));
            if d >= m {
                d
            } else {
                m
            }
        });
        assert(max_depths(s) == {
            let d = spec_max_depth(s[0]);
            let m = max_depths(s.drop_first());
            if d >= m {
                d
            } else {
                m
            }
        });
    }
}

pub proof fn lemma_max_depths_nonneg(s: Seq<NodeV>)
    ensures
        max_depths(s) >= 0,
    decreases s, 1int,
{
    if s.len() > 0 {
        lemma_max_depth_nonneg(s[0]);
        lemma_max_depths_nonneg(s.drop_first());
    }
}

/// The height of a sibling list bounds each element's height.
pub proof fn lemma_max_depths_elem(s: Seq<NodeV>, i: int)
    requires
        0 <= i < s.len(),
    ensures
        max_depths(s) >= spec_max_depth(s[i]),
    decreases s.len(),
{
    if i == 0 {
        lemma_max_depths_nonneg(s.drop_first());
    } else {
        lemma_max_depths_elem(s.drop_first(), i - 1);
        assert(s.drop_first()[i - 1] == s[i]);
        lemma_max_depth_nonneg(s[0]);
    }
}

pub proof fn lemma_max_depth_nonneg(n: NodeV)
    ensures
        spec_max_depth(n) >= 0,
    decreases n, 0int,
{
    if n.children.len() > 0 {
        lemma_max_depths_nonneg(n.children);
    }
}

impl FlameNode {
    /// Height of the subtree, capped at `usize::MAX`: 0 for a leaf, one more
    /// than the deepest child otherwise.
    pub fn max_depth(&self) -> (r: usize)
        ensures
            r as int == cap_usize(spec_max_depth(self@)),
        decreases *self,
    {
        let n = self.children.len();
        if n == 0 {
            return 0;
        }
        let mut m: usize = 0;
        let mut i: usize = 0;
        proof {
            assert(views_of(self.children@).subrange(0, 0) =~= Seq::<NodeV>::empty());
        }
        while i < n
            invariant
                i <= n,
                n == self.children@.len(),
                m as int == cap_usize(max_depths(views_of(self.children@).subrange(0, i as int))),
            decreases n - i,
        {
            proof {
                assert(decreases_to!(*self => self.children@[i as int]));
            }
            let d = self.children[i].max_depth();
            if d > m {
                m = d;
            }
            proof {
                views_of_len(self.children@);
                views_of_index(self.children@, i as int);
                let v = views_of(self.children@);
                assert(v.subrange(0, i as int + 1) =~= v.subrange(0, i as int).push(v[i as int]));
                lemma_max_depths_snoc(v.subrange(0, i as int), v[i as int]);
                lemma_max_depths_nonneg(v.subrange(0, i as int));
                lemma_max_depth_nonneg(v[i as int]);
            }
            i = i + 1;
        }
        proof {
            views_of_len(self.children@);
            assert(views_of(self.children@).subrange(0, n as int) =~= views_of(self.children@));
            lemma_max_depths_nonneg(views_of(self.children@));
        }
        if m == usize::MAX {
            m
        } else {
            m + 1
        }
    }
}

/// The aggregated call tree of the whole session: one synthetic root named
/// "all" whose children are the per-thread roots.
#[derive(Debug)]
pub struct FlameGraph {
    pub root: FlameNode,
}

impl Clone for FlameGraph {
    /// A deep copy whose model tree equals the original's.
    fn clone(&self) -> (r: FlameGraph)
        ensures
            r.root@ == self.root@,
    {
        FlameGraph { root: self.root.clone() }
    }
}

impl FlameGraph {
    /// An empty tree: the synthetic root with no children and zero weight.
    pub fn new() -> (r: FlameGraph)
        ensures
            r.root@ == NodeV::empty("all"@),
            r.root@.wf(),
    {
        let g = FlameGraph { root: FlameNode::new("all".to_owned()) };
        g
    }

    /// Inserts one weighted stack below the synthetic root.
    pub fn add_stack(&mut self, stack: &[String], value: i64)
        requires
            old(self).root@.wf(),
            0 <= value,
            old(self).root.total_value + value <= i64::MAX,
        ensures
            final(self).root@ == spec_add_stack(old(self).root@, names_of(stack@), value as int),
    {
        self.root.add_stack(stack, value);
    }
}

/// The node that a name path selects: at each step descend into the first
/// child carrying the next name, or stay in place when no child has it.
pub open spec fn spec_zoom_node(n: NodeV, path: Seq<Seq<char>>) -> NodeV
    decreases path.len(),
{
    if path.len() == 0 {
        n
    } else {
        let i = find_name(n.children, path[0]);
        if i >= 0 {
            spec_zoom_node(n.children[i], path.drop_first())
        } else {
            spec_zoom_node(n, path.drop_first())
        }
    }
}

/// Resolves a zoom path of names from `root`, skipping names that no longer
/// match any child.
pub fn get_zoom_node<'a>(root: &'a FlameNode, zoom_path: &[String]) -> (r: &'a FlameNode)
    ensures
        r@ == spec_zoom_node(root@, names_of(zoom_path@)),
{
    let ghost path = names_of(zoom_path@);
    let mut node: &'a FlameNode = root;
    let mut i: usize = 0;
    proof {
        assert(path.skip(0) =~= path);
    }
    while i < zoom_path.len()
        invariant
            i <= zoom_path@.len(),
            path == names_of(zoom_path@),
            spec_zoom_node(root@, path) == spec_zoom_node(node@, path.skip(i as int)),
        decreases zoom_path@.len() - i,
    {
        proof {
            assert(path.skip(i as int)[0] == path[i as int]);
            assert(path.skip(i as int).drop_first() =~= path.skip(i as int + 1));
        }
        let pos = find_child(&node.children, &zoom_path[i]);
        match pos {
            Some(p) => {
                proof {
                    views_of_len(node.children@);
                    views_of_index(node.children@, p as int);
                }
                node = &node.children[p];
            },
            None => {
            },
        }
        i = i + 1;
    }
    proof {
        assert(path.skip(zoom_path@.len() as int) =~= Seq::<Seq<char>>::empty());
    }
    node
}

/// The node that an index path selects: at each step descend into the child
/// at the next sibling index, or stay in place when the index is out of
/// range.
pub open spec fn spec_get_node(n: NodeV, path: Seq<usize>) -> NodeV
    decreases path.len(),
{
    if path.len() == 0 {
        n
    } else {
        if (path[0] as int) < n.children.len() {
            spec_get_node(n.children[path[0] as int], path.drop_first())
        } else {
            spec_get_node(n, path.drop_first())
        }
    }
}

/// Resolves a cursor path of sibling indices from `root`, skipping indices
/// that are out of range for the current shape.
pub fn get_node<'a>(root: &'a FlameNode, index_path: &[usize]) -> (r: &'a FlameNode)
    ensures
        r@ == spec_get_node(root@, index_path@),
{
    let mut node: &'a FlameNode = root;
    let mut i: usize = 0;
    proof {
        assert(index_path@.skip(0) =~= index_path@);
    }
    while i < index_path.len()
        invariant
            i <= index_path@.len(),
            spec_get_node(root@, index_path@) == spec_get_node(
                node@,
                index_path@.skip(i as int),
            ),
        decreases index_path@.len() - i,
    {
        proof {
            assert(index_path@.skip(i as int)[0] == index_path@[i as int]);
            assert(index_path@.skip(i as int).drop_first() =~= index_path@.skip(i as int + 1));
            views_of_len(node.children@);
        }
        let idx = index_path[i];
        if idx < node.children.len() {
            proof {
                views_of_index(node.children@, idx as int);
            }
            node = &node.children[idx];
        }
        i = i + 1;
    }
    proof {
        assert(index_path@.skip(index_path@.len() as int) =~= Seq::<usize>::empty());
    }
    node
}

/// Zooming never leaves the tree: the selected subtree of a well-formed
/// tree is well-formed.
pub proof fn lemma_zoom_node_wf(n: NodeV, path: Seq<Seq<char>>)
    requires
        n.wf(),
    ensures
        spec_zoom_node(n, path).wf(),
    decreases path.len(),
{
    if path.len() > 0 {
        let i = find_name(n.children, path[0]);
        lemma_find_name(n.children, path[0]);
        if i >= 0 {
            assert(n.children[i].wf());
            lemma_zoom_node_wf(n.children[i], path.drop_first());
        } else {
            lemma_zoom_node_wf(n, path.drop_first());
        }
    }
}

/// The node under a cursor path of a well-formed tree is well-formed.
pub proof fn lemma_get_node_wf(n: NodeV, path: Seq<usize>)
    requires
        n.wf(),
    ensures
        spec_get_node(n, path).wf(),
    decreases path.len(),
{
    if path.len() > 0 {
        if (path[0] as int) < n.children.len() {
            assert(n.children[path[0] as int].wf());
            lemma_get_node_wf(n.children[path[0] as int], path.drop_first());
        } else {
            lemma_get_node_wf(n, path.drop_first());
        }
    }
}

/// Sibling index of the top-level child named `thread_name`, or 0 when no
/// child has that name.
pub fn thread_rank(root: &FlameNode, thread_name: &str) -> (r: usize)
    ensures
        r as int == if find_name(root@.children, thread_name@) >= 0 {
            find_name(root@.children, thread_name@)
        } else {
            0
        },
{
    broadcast use views_of_len, views_of_index;

    let n = root.children.len();
    let mut i: usize = 0;
    while i < n
        invariant
            i <= n,
            n == root.children@.len(),
            forall|j: int|
                0 <= j < i ==> (#[trigger] views_of(root.children@)[j]).name != thread_name@,
        decreases n - i,
    {
        let eq = str_eq(root.children[i].name.as_str(), thread_name);
        proof {
            views_of_len(root.children@);
            views_of_index(root.children@, i as int);
        }
        if eq {
            proof {
                lemma_find_name(root@.children, thread_name@);
                assert(root@.children[i as int] == views_of(root.children@)[i as int]);
                let f = find_name(root@.children, thread_name@);
                if f < i as int {
                    assert(views_of(root.children@)[f] == root@.children[f]);
                }
            }
            return i;
        }
        i = i + 1;
    }
    proof {
        lemma_find_name(root@.children, thread_name@);
        views_of_len(root.children@);
        let f = find_name(root@.children, thread_name@);
        if f >= 0 {
            assert(views_of(root.children@)[f] == root@.children[f]);
        }
    }
    0
}

} // verus!
