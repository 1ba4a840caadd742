//! Well-linked trees: every slot holds a node, child and parent links agree,
//! and a ranking orders every node below its parent. The post-order of such a
//! tree lists each node exactly once, and the builder's tree surgery keeps a
//! tree well linked.

use crate::tree::{lemma_postorder_unfold_in, ChildSide, NodeIndex, NodeModel, TreeModel};
use vstd::prelude::*;
use vstd::seq_lib::lemma_no_dup_in_concat;
use vstd::set_lib::{lemma_int_range, set_int_range};

verus! {

/// Node `c`, if given, is in the table and records `i` as its parent.
pub open spec fn child_linked<T>(m: TreeModel<T>, i: int, c: Option<NodeIndex>) -> bool {
    match c {
        Some(ci) => ci < m.nodes.len() && m.node(ci as int).parent == Some(i as NodeIndex),
        None => true,
    }
}

/// Node `i` records a parent that is in the table and has `i` as a child.
pub open spec fn parent_linked<T>(m: TreeModel<T>, i: int) -> bool {
    match m.node(i).parent {
        Some(p) => p < m.nodes.len() && m.nodes[p as int] is Some && (m.node(p as int).left == Some(
            i as NodeIndex,
        ) || m.node(p as int).right == Some(i as NodeIndex)),
        None => false,
    }
}

pub open spec fn node_linked<T>(m: TreeModel<T>, rk: Seq<nat>, i: int) -> bool {
    &&& m.nodes[i] is Some
    &&& child_linked(m, i, m.node(i).left)
    &&& child_linked(m, i, m.node(i).right)
    &&& m.node(i).left is Some ==> m.node(i).left != m.node(i).right
    &&& m.root != Some(i as NodeIndex) ==> parent_linked(m, i)
    &&& rk[i] <= rk[m.root->Some_0 as int]
}

/// A proper tree over the whole table: no slot is cleared, child and parent
/// links agree, every node but the root has a parent, and `rk` ranks every
/// node below its parent and no higher than the root.
pub open spec fn well_linked<T>(m: TreeModel<T>, rk: Seq<nat>) -> bool {
    &&& m.ranks_ok(rk)
    &&& m.nodes.len() == 0 <==> m.root is None
    &&& m.root matches Some(r) ==> r < m.nodes.len()
    &&& forall|i: int| #![trigger m.nodes[i]] 0 <= i < m.nodes.len() ==> node_linked(m, rk, i)
}

/// The post-order of a subtree does not depend on which valid ranking
/// bounds its recursion.
proof fn lemma_postorder_rank_free<T>(
    m: TreeModel<T>,
    rk1: Seq<nat>,
    rk2: Seq<nat>,
    region: Set<int>,
    i: NodeIndex,
)
    requires
        m.ranks_ok(rk1),
        m.region_ranked(rk2, region),
        m.present(i as int) ==> region.contains(i as int),
    ensures
        m.subtree_postorder(rk1, i as int) == m.subtree_postorder(rk2, i as int),
    decreases rk1[i as int],
{
    if m.present(i as int) {
        lemma_postorder_unfold(m, rk1, i as int);
        lemma_postorder_unfold_in(m, rk2, region, i as int);
        let n = m.node(i as int);
        if let Some(c) = n.left {
            if m.present(c as int) {
                lemma_postorder_rank_free(m, rk1, rk2, region, c);
            } else {
                assert(m.subtree_postorder(rk1, c as int) =~= m.subtree_postorder(rk2, c as int));
            }
        }
        if let Some(c) = n.right {
            if m.present(c as int) {
                lemma_postorder_rank_free(m, rk1, rk2, region, c);
            } else {
                assert(m.subtree_postorder(rk1, c as int) =~= m.subtree_postorder(rk2, c as int));
            }
        }
    }
}

/// Unfolds the post-order of a present node of a ranked tree.
proof fn lemma_postorder_unfold<T>(m: TreeModel<T>, rk: Seq<nat>, i: int)
    requires
        m.ranks_ok(rk),
        m.present(i),
    ensures
        m.subtree_postorder(rk, i) == m.child_postorder(rk, m.node(i).left) + m.child_postorder(
            rk,
            m.node(i).right,
        ) + seq![i as NodeIndex],
{
    let n = m.node(i);
    if let Some(c) = n.left {
        if !m.present(c as int) {
            assert(m.subtree_postorder(rk, c as int) =~= Seq::empty());
        }
    }
    if let Some(c) = n.right {
        if !m.present(c as int) {
            assert(m.subtree_postorder(rk, c as int) =~= Seq::empty());
        }
    }
}

/// Everything in a subtree's post-order is a present node ranked no higher
/// than the subtree's top.
proof fn lemma_postorder_members<T>(m: TreeModel<T>, rk: Seq<nat>, j: NodeIndex, x: NodeIndex)
    requires
        m.ranks_ok(rk),
        m.subtree_postorder(rk, j as int).contains(x),
    ensures
        m.present(x as int),
        rk[x as int] <= rk[j as int],
    decreases rk[j as int],
{
    if !m.present(j as int) {
        assert(m.subtree_postorder(rk, j as int) =~= Seq::empty());
    }
    lemma_postorder_unfold(m, rk, j as int);
    let n = m.node(j as int);
    let a = m.child_postorder(rk, n.left);
    let b = m.child_postorder(rk, n.right);
    assert(m.subtree_postorder(rk, j as int) == a + b + seq![j]);
    if x != j {
        if a.contains(x) {
            let c = n.left->Some_0;
            lemma_postorder_members(m, rk, c, x);
        } else {
            assert(b.contains(x));
            let c = n.right->Some_0;
            lemma_postorder_members(m, rk, c, x);
        }
    }
}

/// Inside a subtree, the parent of every node but the top is in the subtree
/// too.
proof fn lemma_postorder_parent_inside<T>(m: TreeModel<T>, rk: Seq<nat>, j: NodeIndex, x: NodeIndex)
    requires
        well_linked(m, rk),
        m.subtree_postorder(rk, j as int).contains(x),
        x != j,
    ensures
        m.node(x as int).parent matches Some(p) && m.subtree_postorder(rk, j as int).contains(p),
    decreases rk[j as int],
{
    lemma_postorder_members(m, rk, j, x);
    if !m.present(j as int) {
        assert(m.subtree_postorder(rk, j as int) =~= Seq::empty());
    }
    lemma_postorder_unfold(m, rk, j as int);
    let n = m.node(j as int);
    let a = m.child_postorder(rk, n.left);
    let b = m.child_postorder(rk, n.right);
    let whole = m.subtree_postorder(rk, j as int);
    assert(whole == a + b + seq![j]);
    assert(whole.contains(j)) by {
        assert(whole[whole.len() - 1] == j);
    }
    assert(node_linked(m, rk, j as int));
    if a.contains(x) {
        let c = n.left->Some_0;
        lemma_postorder_members(m, rk, c, x);
        if x == c {
            assert(m.node(x as int).parent == Some(j));
        } else {
            lemma_postorder_parent_inside(m, rk, c, x);
            let p = m.node(x as int).parent->Some_0;
            let k = choose|k: int| 0 <= k < a.len() && a[k] == p;
            assert(whole[k] == p);
        }
    } else {
        assert(b.contains(x));
        let c = n.right->Some_0;
        lemma_postorder_members(m, rk, c, x);
        if x == c {
            assert(m.node(x as int).parent == Some(j));
        } else {
            lemma_postorder_parent_inside(m, rk, c, x);
            let p = m.node(x as int).parent->Some_0;
            let k = choose|k: int| 0 <= k < b.len() && b[k] == p;
            assert(whole[a.len() + k] == p);
        }
    }
}

/// The two subtrees under a node share no node.
proof fn lemma_postorder_siblings_disjoint<T>(m: TreeModel<T>, rk: Seq<nat>, i: NodeIndex, x: NodeIndex)
    requires
        well_linked(m, rk),
        m.present(i as int),
        m.node(i as int).left is Some,
        m.node(i as int).right is Some,
    ensures
        !(m.subtree_postorder(rk, m.node(i as int).left->Some_0 as int).contains(x)
            && m.subtree_postorder(rk, m.node(i as int).right->Some_0 as int).contains(x)),
    decreases rk[i as int] - rk[x as int],
{
    let l = m.node(i as int).left->Some_0;
    let r = m.node(i as int).right->Some_0;
    if !(m.subtree_postorder(rk, l as int).contains(x) && m.subtree_postorder(rk, r as int).contains(x)) {
        return;
    }
    assert(node_linked(m, rk, i as int));
    lemma_postorder_members(m, rk, l, x);
    lemma_postorder_members(m, rk, r, x);
    assert(m.present(l as int));
    assert(m.present(r as int));
    if x == l {
        lemma_postorder_parent_inside(m, rk, r, x);
        lemma_postorder_members(m, rk, r, i);
    } else if x == r {
        lemma_postorder_parent_inside(m, rk, l, x);
        lemma_postorder_members(m, rk, l, i);
    } else {
        lemma_postorder_parent_inside(m, rk, l, x);
        lemma_postorder_parent_inside(m, rk, r, x);
        let p = m.node(x as int).parent->Some_0;
        lemma_postorder_members(m, rk, l, p);
        assert(node_linked(m, rk, x as int));
        assert(m.root != Some(x)) by {
            if m.root == Some(x) {
                assert(node_linked(m, rk, i as int));
            }
        }
        assert(parent_linked(m, x as int));
        assert(rk[x as int] < rk[p as int]);
        lemma_postorder_siblings_disjoint(m, rk, i, p);
    }
}

/// No node occurs twice in a subtree's post-order.
proof fn lemma_postorder_no_duplicates<T>(m: TreeModel<T>, rk: Seq<nat>, j: NodeIndex)
    requires
        well_linked(m, rk),
    ensures
        m.subtree_postorder(rk, j as int).no_duplicates(),
    decreases rk[j as int],
{
    if !m.present(j as int) {
        assert(m.subtree_postorder(rk, j as int) =~= Seq::empty());
    } else {
        lemma_postorder_unfold(m, rk, j as int);
        let n = m.node(j as int);
        let a = m.child_postorder(rk, n.left);
        let b = m.child_postorder(rk, n.right);
        if let Some(c) = n.left {
            if m.present(c as int) {
                lemma_postorder_no_duplicates(m, rk, c);
            } else {
                assert(a =~= Seq::empty());
            }
        }
        if let Some(c) = n.right {
            if m.present(c as int) {
                lemma_postorder_no_duplicates(m, rk, c);
            } else {
                assert(b =~= Seq::empty());
            }
        }
        assert forall|p: int, q: int| 0 <= p < a.len() && 0 <= q < b.len() implies a[p] != b[q] by {
            if a[p] == b[q] {
                assert(a.contains(a[p]));
                assert(b.contains(a[p]));
                lemma_postorder_siblings_disjoint(m, rk, j, a[p]);
            }
        }
        lemma_no_dup_in_concat(a, b);
        let ab = a + b;
        assert forall|k: int| 0 <= k < ab.len() implies ab[k] != j by {
            if k < a.len() {
                lemma_postorder_members(m, rk, n.left->Some_0, ab[k]);
            } else {
                assert(ab[k] == b[k - a.len()]);
                lemma_postorder_members(m, rk, n.right->Some_0, ab[k]);
            }
        }
        lemma_no_dup_in_concat(ab, seq![j]);
    }
}

/// A subtree's post-order holds the post-order of each node in it.
proof fn lemma_postorder_nested<T>(m: TreeModel<T>, rk: Seq<nat>, j: NodeIndex, y: NodeIndex, z: NodeIndex)
    requires
        m.ranks_ok(rk),
        m.subtree_postorder(rk, j as int).contains(y),
        m.subtree_postorder(rk, y as int).contains(z),
    ensures
        m.subtree_postorder(rk, j as int).contains(z),
    decreases rk[j as int],
{
    if y != j {
        if !m.present(j as int) {
            assert(m.subtree_postorder(rk, j as int) =~= Seq::empty());
        }
        lemma_postorder_unfold(m, rk, j as int);
        let n = m.node(j as int);
        let a = m.child_postorder(rk, n.left);
        let b = m.child_postorder(rk, n.right);
        let whole = m.subtree_postorder(rk, j as int);
        if a.contains(y) {
            let c = n.left->Some_0;
            lemma_postorder_members(m, rk, c, y);
            lemma_postorder_nested(m, rk, c, y, z);
            let k = choose|k: int| 0 <= k < a.len() && a[k] == z;
            assert(whole[k] == z);
        } else {
            assert(b.contains(y));
            let c = n.right->Some_0;
            lemma_postorder_members(m, rk, c, y);
            lemma_postorder_nested(m, rk, c, y, z);
            let k = choose|k: int| 0 <= k < b.len() && b[k] == z;
            assert(whole[a.len() + k] == z);
        }
    }
}

/// Every node of a well-linked tree is in the post-order from its root.
proof fn lemma_postorder_reaches<T>(m: TreeModel<T>, rk: Seq<nat>, x: NodeIndex)
    requires
        well_linked(m, rk),
        x < m.nodes.len(),
    ensures
        m.subtree_postorder(rk, m.root->Some_0 as int).contains(x),
    decreases rk[m.root->Some_0 as int] - rk[x as int],
{
    let r = m.root->Some_0;
    assert(node_linked(m, rk, x as int));
    lemma_postorder_unfold(m, rk, x as int);
    let own = m.subtree_postorder(rk, x as int);
    assert(own.contains(x)) by {
        assert(own[own.len() - 1] == x);
    }
    if x != r {
        let p = m.node(x as int).parent->Some_0;
        assert(parent_linked(m, x as int));
        assert(node_linked(m, rk, p as int));
        assert(rk[x as int] < rk[p as int]);
        lemma_postorder_reaches(m, rk, p);
        lemma_postorder_unfold(m, rk, p as int);
        let pn = m.node(p as int);
        let a = m.child_postorder(rk, pn.left);
        let b = m.child_postorder(rk, pn.right);
        let whole = m.subtree_postorder(rk, p as int);
        if pn.left == Some(x) {
            assert(whole[own.len() - 1] == x);
        } else {
            assert(whole[a.len() + own.len() - 1] == x);
        }
        lemma_postorder_nested(m, rk, r, p, x);
    }
}

/// A well-linked tree is a tree, and its post-order lists each node exactly
/// once.
pub proof fn lemma_postorder_counts_nodes<T>(m: TreeModel<T>, rk: Seq<nat>)
    requires
        well_linked(m, rk),
        m.nodes.len() <= usize::MAX,
    ensures
        m.is_tree(),
        m.postorder().len() == m.nodes.len(),
        m.postorder().no_duplicates(),
        forall|i: NodeIndex| i < m.nodes.len() ==> #[trigger] m.postorder().contains(i),
{
    let whole = Set::new(|i: int| 0 <= i < m.nodes.len());
    let g = (rk, whole);
    assert(m.root_ranked(g.0, g.1));
    assert(m.is_tree());
    if let Some(r) = m.root {
        lemma_postorder_rank_free(m, rk, m.tree_ranks(), m.tree_region(), r);
        let po = m.subtree_postorder(rk, r as int);
        assert(po == m.postorder());
        lemma_postorder_no_duplicates(m, rk, r);
        let f = |x: NodeIndex| x as int;
        let s = po.map_values(f);
        po.lemma_no_duplicates_injective(f);
        s.unique_seq_to_set();
        assert forall|k: int| #[trigger] s.to_set().contains(k) <==> set_int_range(0, m.nodes.len() as int).contains(k) by {
            if s.to_set().contains(k) {
                let q = choose|q: int| 0 <= q < s.len() && s[q] == k;
                assert(po.contains(po[q]));
                lemma_postorder_members(m, rk, r, po[q]);
            }
            if 0 <= k < m.nodes.len() {
                lemma_postorder_reaches(m, rk, k as NodeIndex);
                let q = choose|q: int| 0 <= q < po.len() && po[q] == k as NodeIndex;
                assert(s[q] == k);
            }
        }
        assert(s.to_set() =~= set_int_range(0, m.nodes.len() as int));
        lemma_int_range(0, m.nodes.len() as int);
        assert forall|i: NodeIndex| i < m.nodes.len() implies #[trigger] m.postorder().contains(i) by {
            lemma_postorder_reaches(m, rk, i);
        }
    } else {
        assert(m.ranks_ok(rk));
    }
}

/// Hanging a new leaf on a free side of a node keeps a tree well linked.
pub proof fn lemma_attach_leaf<T>(m: TreeModel<T>, rk: Seq<nat>, c: NodeIndex, side: ChildSide, value: T) -> (rk2:
    Seq<nat>)
    requires
        well_linked(m, rk),
        c < m.nodes.len(),
        m.node(c as int).child(side) is None,
        m.nodes.len() < usize::MAX,
    ensures
        well_linked(m.with_leaf(value).set_child(c as int, Some(m.nodes.len() as NodeIndex), side), rk2),
{
    let n = m.nodes.len();
    let v = n as NodeIndex;
    let m1 = m.with_leaf(value);
    let m2 = m1.set_child(c as int, Some(v), side);
    let rk2 = Seq::new(n + 1, |i: int| if i < n { rk[i] + 1 } else { 0nat });
    assert(node_linked(m, rk, c as int));
    assert(m1.node(c as int).child(side) is None);
    assert(m2 == m1.with_node(c as int, m1.node(c as int).with_child(side, Some(v))).with_parent_of(
        v as int,
        Some(c),
    ));
    let r = m.root->Some_0;
    assert(r < n);
    assert forall|i: int| #![trigger m2.nodes[i]] 0 <= i < m2.nodes.len() implies node_linked(m2, rk2, i) by {
        if i < n {
            assert(node_linked(m, rk, i));
            let ni = m.node(i);
            if let Some(d) = ni.left {
                assert(d != c || i != c as int);
            }
            if i != r as int {
                let p = ni.parent->Some_0;
                assert(parent_linked(m, i));
                assert(node_linked(m, rk, p as int));
            }
        }
    }
    assert forall|i: int| #![trigger m2.nodes[i]] m2.present(i) implies m2.child_below(rk2, i, m2.node(i).left)
        && m2.child_below(rk2, i, m2.node(i).right) by {
        if i < n {
            assert(m.present(i));
        }
    }
    rk2
}

/// Making a new leaf the root, with the old root as its child, keeps a
/// non-empty tree well linked.
pub proof fn lemma_new_root<T>(m: TreeModel<T>, rk: Seq<nat>, side: ChildSide, value: T) -> (rk2: Seq<nat>)
    requires
        well_linked(m, rk),
        m.nodes.len() > 0,
        m.nodes.len() < usize::MAX,
    ensures
        well_linked(m.with_leaf(value).replace_root(m.nodes.len() as int, side), rk2),
        side == ChildSide::Left ==> m.with_leaf(value).replace_root(m.nodes.len() as int, side).node(
            m.nodes.len() as int,
        ).right is None,
{
    let n = m.nodes.len();
    let o = n as NodeIndex;
    let r = m.root->Some_0;
    let m1 = m.with_leaf(value);
    let m2 = m1.replace_root(o as int, side);
    let rk2 = rk.push(rk[r as int] + 1);
    assert(node_linked(m, rk, r as int));
    assert(m1.node(o as int).child(side) is None);
    assert(m2.nodes == m1.with_node(o as int, m1.node(o as int).with_child(side, Some(r))).with_parent_of(
        r as int,
        Some(o),
    ).nodes);
    assert forall|i: int| #![trigger m2.nodes[i]] 0 <= i < m2.nodes.len() implies node_linked(m2, rk2, i) by {
        if i < n {
            assert(node_linked(m, rk, i));
            let ni = m.node(i);
            if i != r as int {
                let p = ni.parent->Some_0;
                assert(parent_linked(m, i));
                assert(node_linked(m, rk, p as int));
            }
        }
    }
    assert forall|i: int| #![trigger m2.nodes[i]] m2.present(i) implies m2.child_below(rk2, i, m2.node(i).left)
        && m2.child_below(rk2, i, m2.node(i).right) by {
        if i < n {
            assert(m.present(i));
        }
    }
    rk2
}

/// The tree after a new leaf `o` went between `x` and its parent `p`, where
/// `x` hung on side `s` of `p`, and `x` hangs on `side` of `o`.
pub open spec fn inner_shape<T>(m: TreeModel<T>, x: int, p: int, s: ChildSide, side: ChildSide, value: T) -> TreeModel<T> {
    let o = m.nodes.len() as NodeIndex;
    TreeModel {
        nodes: m.nodes.update(x, Some(m.node(x).with_parent(Some(o)))).update(
            p,
            Some(m.node(p).with_child(s, Some(o))),
        ).push(
            Some(
                NodeModel { value, left: None, right: None, parent: Some(p as NodeIndex) }.with_child(
                    side,
                    Some(x as NodeIndex),
                ),
            ),
        ),
        root: m.root,
    }
}

proof fn lemma_inner_shape<T>(m: TreeModel<T>, rk: Seq<nat>, x: NodeIndex, side: ChildSide, value: T)
    requires
        well_linked(m, rk),
        x < m.nodes.len(),
        m.root != Some(x),
        m.nodes.len() < usize::MAX,
    ensures
        m.with_leaf(value).insert_above_ok(x as int, m.nodes.len() as int),
        m.with_leaf(value).insert_above(x as int, m.nodes.len() as int, side) == inner_shape(
            m,
            x as int,
            m.node(x as int).parent->Some_0 as int,
            m.with_leaf(value).side_under_parent(x as int)->Some_0,
            side,
            value,
        ),
{
    let n = m.nodes.len();
    let o = n as NodeIndex;
    let m1 = m.with_leaf(value);
    assert(node_linked(m, rk, x as int));
    assert(parent_linked(m, x as int));
    let p = m.node(x as int).parent->Some_0;
    assert(node_linked(m, rk, p as int));
    assert(p != x);
    let s = m1.side_under_parent(x as int)->Some_0;
    assert(m1.node(p as int).child(s) == Some(x));
    let mid = m1.with_parent_of(x as int, None);
    let ma = mid.with_node(p as int, mid.node(p as int).with_child(s, Some(o)));
    let mb = ma.with_parent_of(o as int, Some(p));
    assert(m1.set_child(p as int, Some(o), s) == mb);
    let mc = mb.with_node(o as int, mb.node(o as int).with_child(side, Some(x)));
    let m2 = mc.with_parent_of(x as int, Some(o));
    assert(mb.node(o as int).child(side) is None);
    assert(mb.set_child(o as int, Some(x), side) == m2);
    assert(m2.nodes =~= inner_shape(m, x as int, p as int, s, side, value).nodes);
}

/// Putting a new leaf between a node other than the root and its parent,
/// with that node as the leaf's child, keeps a tree well linked.
pub proof fn lemma_new_inner<T>(m: TreeModel<T>, rk: Seq<nat>, x: NodeIndex, side: ChildSide, value: T) -> (rk2:
    Seq<nat>)
    requires
        well_linked(m, rk),
        x < m.nodes.len(),
        m.root != Some(x),
        m.nodes.len() < usize::MAX,
    ensures
        m.with_leaf(value).insert_above_ok(x as int, m.nodes.len() as int),
        well_linked(m.with_leaf(value).insert_above(x as int, m.nodes.len() as int, side), rk2),
        side == ChildSide::Left ==> m.with_leaf(value).insert_above(x as int, m.nodes.len() as int, side).node(
            m.nodes.len() as int,
        ).right is None,
{
    lemma_inner_shape(m, rk, x, side, value);
    let n = m.nodes.len();
    let p = m.node(x as int).parent->Some_0;
    let s = m.with_leaf(value).side_under_parent(x as int)->Some_0;
    let m2 = inner_shape(m, x as int, p as int, s, side, value);
    assert(node_linked(m, rk, x as int));
    assert(parent_linked(m, x as int));
    assert(node_linked(m, rk, p as int));
    assert(m.node(p as int).child(s) == Some(x));
    let rk2 = Seq::new(n + 1, |i: int| if i < n { 2 * rk[i] } else { 2 * rk[x as int] + 1 });
    lemma_inner_linked(m, rk, x, p, s, side, value, rk2);
    rk2
}

#[verifier::rlimit(60)]
proof fn lemma_inner_linked<T>(
    m: TreeModel<T>,
    rk: Seq<nat>,
    x: NodeIndex,
    p: NodeIndex,
    s: ChildSide,
    side: ChildSide,
    value: T,
    rk2: Seq<nat>,
)
    requires
        well_linked(m, rk),
        x < m.nodes.len(),
        m.root != Some(x),
        m.nodes.len() < usize::MAX,
        m.node(x as int).parent == Some(p),
        p < m.nodes.len(),
        p != x,
        m.node(p as int).child(s) == Some(x),
        rk2 == Seq::new(
            m.nodes.len() + 1,
            |i: int| if i < m.nodes.len() { 2 * rk[i] } else { 2 * rk[x as int] + 1 },
        ),
    ensures
        well_linked(inner_shape(m, x as int, p as int, s, side, value), rk2),
{
    let n = m.nodes.len();
    let m2 = inner_shape(m, x as int, p as int, s, side, value);
    let r = m.root->Some_0;
    assert(node_linked(m, rk, p as int));
    assert(node_linked(m, rk, x as int));
    assert(rk[x as int] < rk[p as int]);
    assert forall|i: int| #![trigger m2.nodes[i]] 0 <= i < m2.nodes.len() implies node_linked(m2, rk2, i) by {
        if i < n {
            assert(node_linked(m, rk, i));
            let ni = m.node(i);
            if i != r as int {
                let q = ni.parent->Some_0;
                assert(parent_linked(m, i));
                assert(node_linked(m, rk, q as int));
            }
        }
    }
    assert forall|i: int| #![trigger m2.nodes[i]] m2.present(i) implies m2.child_below(rk2, i, m2.node(i).left)
        && m2.child_below(rk2, i, m2.node(i).right) by {
        if i < n {
            assert(m.present(i));
        }
    }
}

/// A single leaf as the root of an empty table is well linked.
pub proof fn lemma_first_leaf<T>(m: TreeModel<T>, value: T)
    requires
        m.nodes.len() == 0,
    ensures
        well_linked(TreeModel { nodes: m.with_leaf(value).nodes, root: Some(0) }, seq![0nat]),
{
    let m2 = TreeModel { nodes: m.with_leaf(value).nodes, root: Some(0usize) };
    assert(node_linked(m2, seq![0nat], 0));
}

/// Changing a node's payload keeps a tree well linked.
pub proof fn lemma_relabel<T>(m: TreeModel<T>, rk: Seq<nat>, x: NodeIndex, value: T)
    requires
        well_linked(m, rk),
        x < m.nodes.len(),
    ensures
        well_linked(m.with_node(x as int, m.node(x as int).with_value(value)), rk),
{
    let m2 = m.with_node(x as int, m.node(x as int).with_value(value));
    assert forall|i: int| #![trigger m2.nodes[i]] 0 <= i < m2.nodes.len() implies node_linked(m2, rk, i) by {
        assert(node_linked(m, rk, i));
        if m.root != Some(i as NodeIndex) {
            assert(parent_linked(m, i));
        }
    }
    assert forall|i: int| #![trigger m2.nodes[i]] m2.present(i) implies m2.child_below(rk, i, m2.node(i).left)
        && m2.child_below(rk, i, m2.node(i).right) by {
        assert(m.present(i));
    }
}

} // verus!
