//! A binary tree whose nodes live in a growable table and refer to each other
//! by stable integer indices.

use vstd::prelude::*;

verus! {

pub type NodeIndex = usize;

#[derive(Clone, Copy, Debug, PartialEq, Eq, Structural)]
pub enum ChildSide {
    Left,
    Right,
}

/// What a node holds, as specifications see it.
pub struct NodeModel<T> {
    pub value: T,
    pub left: Option<NodeIndex>,
    pub right: Option<NodeIndex>,
    pub parent: Option<NodeIndex>,
}

impl<T> NodeModel<T> {
    pub open spec fn child(self, side: ChildSide) -> Option<NodeIndex> {
        match side {
            ChildSide::Left => self.left,
            ChildSide::Right => self.right,
        }
    }

    pub open spec fn with_child(self, side: ChildSide, c: Option<NodeIndex>) -> NodeModel<T> {
        match side {
            ChildSide::Left => NodeModel {
                value: self.value,
                left: c,
                right: self.right,
                parent: self.parent,
            },
            ChildSide::Right => NodeModel {
                value: self.value,
                left: self.left,
                right: c,
                parent: self.parent,
            },
        }
    }

    pub open spec fn with_value(self, v: T) -> NodeModel<T> {
        NodeModel { value: v, left: self.left, right: self.right, parent: self.parent }
    }

    pub open spec fn with_parent(self, p: Option<NodeIndex>) -> NodeModel<T> {
        NodeModel { value: self.value, left: self.left, right: self.right, parent: p }
    }
}

/// The whole table of slots (a cleared slot is `None`) and the root pointer.
pub struct TreeModel<T> {
    pub nodes: Seq<Option<NodeModel<T>>>,
    pub root: Option<NodeIndex>,
}

impl<T> TreeModel<T> {
    pub open spec fn present(self, i: int) -> bool {
        0 <= i < self.nodes.len() && self.nodes[i] is Some
    }

    pub open spec fn node(self, i: int) -> NodeModel<T> {
        self.nodes[i]->Some_0
    }

    pub open spec fn with_node(self, i: int, n: NodeModel<T>) -> TreeModel<T> {
        TreeModel { nodes: self.nodes.update(i, Some(n)), root: self.root }
    }

    pub open spec fn with_parent_of(self, i: int, p: Option<NodeIndex>) -> TreeModel<T> {
        self.with_node(i, self.node(i).with_parent(p))
    }

    /// A node is present and the tree's root points at it.
    pub open spec fn has_root(self) -> bool {
        self.root matches Some(r) && self.present(r as int)
    }

    /// When `set_node_child` succeeds: the parent is there, and so is the
    /// new child if one is given.
    pub open spec fn set_child_ok(self, p: int, c: Option<NodeIndex>) -> bool {
        self.present(p) && (c matches Some(ci) ==> self.present(ci as int))
    }

    /// Node `p` gets `c` as its child on `side`: the former child on that side
    /// loses its parent link, and the new child, if it is a present node,
    /// gains one.
    pub open spec fn set_child(self, p: int, c: Option<NodeIndex>, side: ChildSide) -> TreeModel<T> {
        let m1 = match self.node(p).child(side) {
            Some(pc) => if self.present(pc as int) {
                self.with_parent_of(pc as int, None)
            } else {
                self
            },
            None => self,
        };
        let m2 = m1.with_node(p, m1.node(p).with_child(side, c));
        match c {
            Some(ci) => if m2.present(ci as int) {
                m2.with_parent_of(ci as int, Some(p as NodeIndex))
            } else {
                m2
            },
            None => m2,
        }
    }

    /// `set_child` where it succeeds, and no change where it does not.
    pub open spec fn set_child_or_keep(self, p: int, c: Option<NodeIndex>, side: ChildSide) -> TreeModel<T> {
        if self.set_child_ok(p, c) {
            self.set_child(p, c, side)
        } else {
            self
        }
    }

    /// The tree after `add_node_with_children` made node `i` and wired the
    /// children that were given.
    pub open spec fn wire_children(self, i: int, l: Option<NodeIndex>, r: Option<NodeIndex>) -> TreeModel<T> {
        let m1 = if l is Some {
            self.set_child_or_keep(i, l, ChildSide::Left)
        } else {
            self
        };
        if r is Some {
            m1.set_child_or_keep(i, r, ChildSide::Right)
        } else {
            m1
        }
    }

    /// The tree with a new childless node holding `value` at the end of the
    /// table.
    pub open spec fn with_leaf(self, value: T) -> TreeModel<T> {
        TreeModel {
            nodes: self.nodes.push(Some(NodeModel { value, left: None, right: None, parent: None })),
            root: self.root,
        }
    }

    /// The cached parent link of a present node; `None` for any other index.
    pub open spec fn parent_of(self, i: int) -> Option<NodeIndex> {
        if self.present(i) {
            self.node(i).parent
        } else {
            None
        }
    }

    pub open spec fn copy_child_ok(self, to: int, from: int) -> bool {
        self.present(to) && self.present(from)
    }

    /// Node `to` gets, on `to_side`, the child that node `from` has on
    /// `from_side`; no parent link changes.
    pub open spec fn copy_child(self, to: int, to_side: ChildSide, from: int, from_side: ChildSide) -> TreeModel<T> {
        self.with_node(to, self.node(to).with_child(to_side, self.node(from).child(from_side)))
    }

    pub open spec fn replace_root_ok(self, new_root: int) -> bool {
        self.root is Some && self.present(new_root)
    }

    /// `new_root` becomes the root, with the old root index as its child on
    /// `side` (a cleared old root slot gets no parent link).
    pub open spec fn replace_root(self, new_root: int, side: ChildSide) -> TreeModel<T> {
        let m = self.set_child(new_root, self.root, side);
        TreeModel { nodes: m.nodes, root: Some(new_root as NodeIndex) }
    }

    pub open spec fn insert_below_ok(self, p: int, old_side: ChildSide, nc: int) -> bool {
        &&& self.present(p)
        &&& self.present(nc)
        &&& self.node(p).child(old_side) matches Some(oc) ==> self.present(oc as int)
    }

    /// Node `nc` takes the place of `p`'s child on `old_side`, and that former
    /// child (if any) hangs under `nc` on `new_side`.
    pub open spec fn insert_below(self, p: int, old_side: ChildSide, nc: int, new_side: ChildSide) -> TreeModel<T> {
        let oc = self.node(p).child(old_side);
        self.set_child(p, Some(nc as NodeIndex), old_side).set_child(nc, oc, new_side)
    }

    /// Which side of its recorded parent the node `c` hangs on, if it does.
    pub open spec fn side_under_parent(self, c: int) -> Option<ChildSide> {
        match self.parent_of(c) {
            Some(p) => if !self.present(p as int) {
                None
            } else if self.node(p as int).left == Some(c as NodeIndex) {
                Some(ChildSide::Left)
            } else if self.node(p as int).right == Some(c as NodeIndex) {
                Some(ChildSide::Right)
            } else {
                None
            },
            None => None,
        }
    }

    pub open spec fn insert_above_ok(self, oc: int, nc: int) -> bool {
        &&& self.side_under_parent(oc) is Some
        &&& self.insert_below_ok(self.parent_of(oc)->Some_0 as int, self.side_under_parent(oc)->Some_0, nc)
    }

    /// Node `nc` takes `oc`'s place under `oc`'s parent, and `oc` hangs under
    /// `nc` on `new_side`.
    pub open spec fn insert_above(self, oc: int, nc: int, new_side: ChildSide) -> TreeModel<T> {
        self.insert_below(self.parent_of(oc)->Some_0 as int, self.side_under_parent(oc)->Some_0, nc, new_side)
    }

    /// A link from node `i` to `c` leads strictly down in the ranking `rk`.
    pub open spec fn child_below(self, rk: Seq<nat>, i: int, c: Option<NodeIndex>) -> bool {
        match c {
            Some(ci) => self.present(ci as int) ==> rk[ci as int] < rk[i],
            None => true,
        }
    }

    /// Every present node ranks strictly above its present children, so that
    /// following child links always ends.
    pub open spec fn ranks_ok(self, rk: Seq<nat>) -> bool {
        &&& rk.len() == self.nodes.len()
        &&& forall|i: int|
            #![trigger self.nodes[i]]
            self.present(i) ==> self.child_below(rk, i, self.node(i).left) && self.child_below(
                rk,
                i,
                self.node(i).right,
            )
    }

    /// A link from node `i` to `c` stays in `region` and leads strictly down
    /// in the ranking `rk`.
    pub open spec fn child_in_region(self, rk: Seq<nat>, region: Set<int>, i: int, c: Option<NodeIndex>) -> bool {
        match c {
            Some(ci) => self.present(ci as int) ==> region.contains(ci as int) && rk[ci as int] < rk[i],
            None => true,
        }
    }

    /// Inside `region`, every present node ranks strictly above its present
    /// children, and those children are in `region` too.
    pub open spec fn region_ranked(self, rk: Seq<nat>, region: Set<int>) -> bool {
        forall|i: int|
            #![trigger region.contains(i)]
            region.contains(i) && self.present(i) ==> self.child_in_region(rk, region, i, self.node(i).left)
                && self.child_in_region(rk, region, i, self.node(i).right)
    }

    /// `region` holds the root and is ranked as above: following child links
    /// from the root always ends.
    pub open spec fn root_ranked(self, rk: Seq<nat>, region: Set<int>) -> bool {
        &&& self.region_ranked(rk, region)
        &&& self.root matches Some(r) ==> region.contains(r as int)
    }

    /// The child links reachable from the root hold no cycle. Nodes that the
    /// root does not reach may link in any way.
    pub open spec fn is_tree(self) -> bool {
        exists|g: (Seq<nat>, Set<int>)| self.root_ranked(g.0, g.1)
    }

    pub open spec fn tree_ranking(self) -> (Seq<nat>, Set<int>) {
        choose|g: (Seq<nat>, Set<int>)| self.root_ranked(g.0, g.1)
    }

    pub open spec fn tree_ranks(self) -> Seq<nat> {
        self.tree_ranking().0
    }

    pub open spec fn tree_region(self) -> Set<int> {
        self.tree_ranking().1
    }

    /// The indices of the subtree under `i` in post-order: left subtree, right
    /// subtree, then `i`. A missing node contributes nothing.
    pub open spec fn subtree_postorder(self, rk: Seq<nat>, i: int) -> Seq<NodeIndex>
        decreases rk[i],
    {
        if self.present(i) {
            let n = self.node(i);
            let l = match n.left {
                Some(c) => if rk[c as int] < rk[i] {
                    self.subtree_postorder(rk, c as int)
                } else {
                    Seq::empty()
                },
                None => Seq::empty(),
            };
            let r = match n.right {
                Some(c) => if rk[c as int] < rk[i] {
                    self.subtree_postorder(rk, c as int)
                } else {
                    Seq::empty()
                },
                None => Seq::empty(),
            };
            l + r + seq![i as NodeIndex]
        } else {
            Seq::empty()
        }
    }

    /// The post-order under a child link: empty where there is no child.
    pub open spec fn child_postorder(self, rk: Seq<nat>, c: Option<NodeIndex>) -> Seq<NodeIndex> {
        match c {
            Some(ci) => self.subtree_postorder(rk, ci as int),
            None => Seq::empty(),
        }
    }

    /// Every slot of the table holds a node, and the post-order from the
    /// root lists each of them.
    pub open spec fn postorder_lists_all(self) -> bool {
        forall|i: NodeIndex| i < self.nodes.len() ==> self.present(i as int) && #[trigger] self.postorder().contains(i)
    }

    /// The post-order of the whole tree, from its root.
    pub open spec fn postorder(self) -> Seq<NodeIndex> {
        match self.root {
            Some(r) => self.subtree_postorder(self.tree_ranks(), r as int),
            None => Seq::empty(),
        }
    }
}

pub open spec fn slot_view<T: View>(o: Option<TreeNode<T>>) -> Option<NodeModel<T::V>> {
    match o {
        Some(n) => Some(n@),
        None => None,
    }
}

pub open spec fn slots_view<T: View>(s: Seq<Option<TreeNode<T>>>) -> Seq<Option<NodeModel<T::V>>> {
    s.map_values(|o: Option<TreeNode<T>>| slot_view(o))
}

/// Updating one slot of the table updates the same slot of its view.
broadcast proof fn lemma_slots_update<T: View>(s: Seq<Option<TreeNode<T>>>, i: int, x: Option<TreeNode<T>>)
    requires
        0 <= i < s.len(),
    ensures
        #[trigger] slots_view(s.update(i, x)) == slots_view(s).update(i, slot_view(x)),
{
    assert(slots_view(s.update(i, x)) =~= slots_view(s).update(i, slot_view(x)));
}

pub struct TreeNode<T> {
    pub value: T,
    left: Option<NodeIndex>,
    right: Option<NodeIndex>,
    parent: Option<NodeIndex>,
}

impl<T: View> View for TreeNode<T> {
    type V = NodeModel<T::V>;

    closed spec fn view(&self) -> NodeModel<T::V> {
        NodeModel { value: self.value@, left: self.left, right: self.right, parent: self.parent }
    }
}

impl<T: View> TreeNode<T> {
    pub fn new(value: T) -> (r: Self)
        ensures
            r@ == (NodeModel { value: value@, left: None, right: None, parent: None }),
    {
        TreeNode { value, left: None, right: None, parent: None }
    }

    pub fn get_value(&self) -> (r: &T)
        ensures
            r@ == self@.value,
    {
        &self.value
    }

    /// Replaces the payload, keeping the node's links.
    pub fn set_value(&mut self, value: T)
        ensures
            final(self)@ == old(self)@.with_value(value@),
    {
        self.value = value;
    }

    pub fn has_left(&self) -> (r: bool)
        ensures
            r == self@.left is Some,
    {
        self.left.is_some()
    }

    pub fn has_right(&self) -> (r: bool)
        ensures
            r == self@.right is Some,
    {
        self.right.is_some()
    }

    pub fn get_left(&self) -> (r: Option<NodeIndex>)
        ensures
            r == self@.left,
    {
        self.left
    }

    pub fn get_right(&self) -> (r: Option<NodeIndex>)
        ensures
            r == self@.right,
    {
        self.right
    }
}

pub struct Tree<T> {
    index: Vec<Option<TreeNode<T>>>,
    root: Option<NodeIndex>,
}

impl<T: View> View for Tree<T> {
    type V = TreeModel<T::V>;

    closed spec fn view(&self) -> TreeModel<T::V> {
        TreeModel { nodes: slots_view(self.index@), root: self.root }
    }
}

/// A tree's table never holds more slots than `usize` can count.
pub proof fn lemma_tree_size_bound<T: View>(t: &Tree<T>)
    ensures
        t@.nodes.len() <= usize::MAX,
{
    assert(t.index@.len() == t.index.len());
}

impl<T: View> Tree<T> {
    pub fn new() -> (r: Self)
        ensures
            r@.nodes.len() == 0,
            r@.root is None,
    {
        Tree { index: Vec::new(), root: None }
    }

    pub fn add_node(&mut self, node: TreeNode<T>) -> (r: NodeIndex)
        requires
            old(self)@.nodes.len() < usize::MAX,
        ensures
            r == old(self)@.nodes.len(),
            final(self)@ == (TreeModel { nodes: old(self)@.nodes.push(Some(node@)), root: old(self)@.root }),
    {
        let index_loc = self.index.len();
        self.index.push(Some(node));
        proof {
            assert(self@.nodes =~= old(self)@.nodes.push(Some(node@)));
        }
        index_loc
    }

    pub fn set_root(&mut self, root: Option<NodeIndex>)
        ensures
            final(self)@ == (TreeModel { nodes: old(self)@.nodes, root }),
    {
        self.root = root;
    }

    pub fn has_root(&self) -> (r: bool)
        ensures
            r == self@.has_root(),
    {
        match self.root {
            Some(i) => self.node_at(i).is_some(),
            None => false,
        }
    }

    pub fn get_root(&self) -> (r: Option<NodeIndex>)
        ensures
            r == self@.root,
    {
        self.root
    }

    pub fn matches_root(&self, index_loc: NodeIndex) -> (r: bool)
        ensures
            r == (self@.root == Some(index_loc)),
    {
        match self.root {
            Some(i) => i == index_loc,
            None => false,
        }
    }

    pub fn add_node_with_children(
        &mut self,
        node: TreeNode<T>,
        left_child: Option<NodeIndex>,
        right_child: Option<NodeIndex>,
    ) -> (r: NodeIndex)
        requires
            old(self)@.nodes.len() < usize::MAX,
        ensures
            r == old(self)@.nodes.len(),
            final(self)@ == (TreeModel {
                nodes: old(self)@.nodes.push(Some(node@)),
                root: old(self)@.root,
            }).wire_children(r as int, left_child, right_child),
    {
        let index_loc = self.add_node(node);
        if left_child.is_some() {
            let _ = self.set_node_child(index_loc, left_child, ChildSide::Left);
        }
        if right_child.is_some() {
            let _ = self.set_node_child(index_loc, right_child, ChildSide::Right);
        }
        index_loc
    }

    /// Clears a slot; its index is never handed out again.
    pub fn remove_node_at(&mut self, index_loc: NodeIndex) -> (r: Option<TreeNode<T>>)
        ensures
            index_loc < old(self)@.nodes.len() ==> slot_view(r) == old(self)@.nodes[index_loc as int]
                && final(self)@ == (TreeModel {
                nodes: old(self)@.nodes.update(index_loc as int, None),
                root: old(self)@.root,
            }),
            index_loc >= old(self)@.nodes.len() ==> r is None && final(self)@ == old(self)@,
    {
        if index_loc < self.index.len() {
            let mut slot: Option<TreeNode<T>> = None;
            self.index.set_and_swap(index_loc, &mut slot);
            proof {
                assert(self@.nodes =~= old(self)@.nodes.update(index_loc as int, None));
            }
            slot
        } else {
            None
        }
    }

    /// Whether a slot with this index was ever handed out.
    pub fn has_node_at(&self, index_loc: NodeIndex) -> (r: bool)
        ensures
            r == (index_loc < self@.nodes.len()),
    {
        index_loc < self.index.len()
    }

    pub fn node_at(&self, index_loc: NodeIndex) -> (r: Option<&TreeNode<T>>)
        ensures
            r is Some <==> self@.present(index_loc as int),
            r matches Some(n) ==> n@ == self@.node(index_loc as int),
    {
        if index_loc < self.index.len() {
            match &self.index[index_loc] {
                Some(n) => Some(n),
                None => None,
            }
        } else {
            None
        }
    }

    fn set_parent_link(&mut self, i: NodeIndex, p: Option<NodeIndex>)
        requires
            old(self)@.present(i as int),
        ensures
            final(self)@ == old(self)@.with_parent_of(i as int, p),
    {
        match &mut self.index[i] {
            Some(n) => {
                n.parent = p;
            },
            None => {},
        }
        proof {
            assert(self@.nodes =~= old(self)@.with_parent_of(i as int, p).nodes);
        }
    }

    fn set_child_link(&mut self, i: NodeIndex, side: ChildSide, c: Option<NodeIndex>)
        requires
            old(self)@.present(i as int),
        ensures
            final(self)@ == old(self)@.with_node(i as int, old(self)@.node(i as int).with_child(side, c)),
    {
        match &mut self.index[i] {
            Some(n) => {
                match side {
                    ChildSide::Left => {
                        n.left = c;
                    },
                    ChildSide::Right => {
                        n.right = c;
                    },
                }
            },
            None => {},
        }
        proof {
            assert(self@.nodes =~= old(self)@.with_node(
                i as int,
                old(self)@.node(i as int).with_child(side, c),
            ).nodes);
        }
    }

    /// Makes `child_loc` the child of `node_loc` on `child_side`, keeping the
    /// parent links in step. Fails, changing nothing, when `node_loc` or the
    /// given child is not a present node.
    pub fn set_node_child(&mut self, node_loc: NodeIndex, child_loc: Option<NodeIndex>, child_side: ChildSide) -> (r:
        Result<(), ()>)
        ensures
            r is Ok <==> old(self)@.set_child_ok(node_loc as int, child_loc),
            final(self)@ == if r is Ok {
                old(self)@.set_child(node_loc as int, child_loc, child_side)
            } else {
                old(self)@
            },
    {
        if self.node_at(node_loc).is_none() {
            return Err(());
        }
        if let Some(c) = child_loc {
            if self.node_at(c).is_none() {
                return Err(());
            }
        }
        self.link_child(node_loc, child_loc, child_side);
        Ok(())
    }

    fn link_child(&mut self, node_loc: NodeIndex, child_loc: Option<NodeIndex>, child_side: ChildSide)
        requires
            old(self)@.present(node_loc as int),
        ensures
            final(self)@ == old(self)@.set_child(node_loc as int, child_loc, child_side),
    {
        let prev_child_loc = match self.node_at(node_loc) {
            Some(parent) => match child_side {
                ChildSide::Left => parent.left,
                ChildSide::Right => parent.right,
            },
            None => None,
        };
        if let Some(pc) = prev_child_loc {
            if self.node_at(pc).is_some() {
                self.set_parent_link(pc, None);
            }
        }
        self.set_child_link(node_loc, child_side, child_loc);
        if let Some(c) = child_loc {
            if self.node_at(c).is_some() {
                self.set_parent_link(c, Some(node_loc));
            }
        }
    }

    pub fn get_node_parent(&self, node_loc: NodeIndex) -> (r: Option<NodeIndex>)
        ensures
            r == self@.parent_of(node_loc as int),
    {
        match self.node_at(node_loc) {
            Some(child) => child.parent,
            None => None,
        }
    }

    /// Gives `set_to_loc`, on `set_to_side`, the child that `set_from_loc` has
    /// on `set_from_side`. Parent links are left as they were.
    pub fn set_node_child_from_node_child(
        &mut self,
        set_to_loc: NodeIndex,
        set_to_side: ChildSide,
        set_from_loc: NodeIndex,
        set_from_side: ChildSide,
    ) -> (r: Result<(), ()>)
        ensures
            r is Ok <==> old(self)@.copy_child_ok(set_to_loc as int, set_from_loc as int),
            final(self)@ == if r is Ok {
                old(self)@.copy_child(set_to_loc as int, set_to_side, set_from_loc as int, set_from_side)
            } else {
                old(self)@
            },
    {
        let new_child = match self.node_at(set_from_loc) {
            Some(f) => match set_from_side {
                ChildSide::Left => f.left,
                ChildSide::Right => f.right,
            },
            None => {
                return Err(());
            },
        };
        if self.node_at(set_to_loc).is_none() {
            return Err(());
        }
        self.set_child_link(set_to_loc, set_to_side, new_child);
        Ok(())
    }

    /// Makes `new_root_loc` the root and hangs the old root under it on
    /// `move_old_root_to_side`. Fails, changing nothing, when there is no
    /// root index or no node at `new_root_loc`. When the old root's slot was
    /// cleared, its index is still hung under the new root.
    pub fn replace_root_with_node(&mut self, new_root_loc: NodeIndex, move_old_root_to_side: ChildSide) -> (r:
        Result<(), ()>)
        ensures
            r is Ok <==> old(self)@.replace_root_ok(new_root_loc as int),
            final(self)@ == if r is Ok {
                old(self)@.replace_root(new_root_loc as int, move_old_root_to_side)
            } else {
                old(self)@
            },
    {
        if self.root.is_none() || self.node_at(new_root_loc).is_none() {
            return Err(());
        }
        let old_root = self.root;
        self.link_child(new_root_loc, old_root, move_old_root_to_side);
        self.set_root(Some(new_root_loc));
        Ok(())
    }

    /// Puts `new_child_node_loc` in the place of `parent_node_loc`'s child on
    /// `old_child_node_side`; that former child moves under the new node on
    /// `new_child_node_side`. Fails, changing nothing, when one of the three
    /// nodes is missing.
    pub fn insert_node_below_parent(
        &mut self,
        parent_node_loc: NodeIndex,
        old_child_node_side: ChildSide,
        new_child_node_loc: NodeIndex,
        new_child_node_side: ChildSide,
    ) -> (r: Result<(), ()>)
        ensures
            r is Ok <==> old(self)@.insert_below_ok(
                parent_node_loc as int,
                old_child_node_side,
                new_child_node_loc as int,
            ),
            final(self)@ == if r is Ok {
                old(self)@.insert_below(
                    parent_node_loc as int,
                    old_child_node_side,
                    new_child_node_loc as int,
                    new_child_node_side,
                )
            } else {
                old(self)@
            },
    {
        if self.node_at(new_child_node_loc).is_none() {
            return Err(());
        }
        let old_child_loc = match self.node_at(parent_node_loc) {
            Some(parent_node) => match old_child_node_side {
                ChildSide::Left => parent_node.left,
                ChildSide::Right => parent_node.right,
            },
            None => {
                return Err(());
            },
        };
        if let Some(oc) = old_child_loc {
            if self.node_at(oc).is_none() {
                return Err(());
            }
        }
        let first = self.set_node_child(parent_node_loc, Some(new_child_node_loc), old_child_node_side);
        if first.is_err() {
            return Err(());
        }
        let second = self.set_node_child(new_child_node_loc, old_child_loc, new_child_node_side);
        if second.is_err() {
            return Err(());
        }
        Ok(())
    }

    /// Puts `new_child_loc` between `old_child_loc` and its parent, with
    /// `old_child_loc` under the new node on `new_child_side`. Fails, changing
    /// nothing, when `old_child_loc` has no parent (the root), when it is not
    /// a child of its recorded parent, or when a node is missing.
    pub fn insert_node_above_node(
        &mut self,
        old_child_loc: NodeIndex,
        new_child_loc: NodeIndex,
        new_child_side: ChildSide,
    ) -> (r: Result<(), ()>)
        ensures
            r is Ok <==> old(self)@.insert_above_ok(old_child_loc as int, new_child_loc as int),
            final(self)@ == if r is Ok {
                old(self)@.insert_above(old_child_loc as int, new_child_loc as int, new_child_side)
            } else {
                old(self)@
            },
    {
        let parent_loc = match self.get_node_parent(old_child_loc) {
            Some(p) => p,
            None => {
                return Err(());
            },
        };
        let parent = match self.node_at(parent_loc) {
            Some(p) => p,
            None => {
                return Err(());
            },
        };
        let parent_left = parent.get_left();
        let parent_right = parent.get_right();
        let old_child_side = if parent_left == Some(old_child_loc) {
            ChildSide::Left
        } else if parent_right == Some(old_child_loc) {
            ChildSide::Right
        } else {
            return Err(());
        };
        self.insert_node_below_parent(parent_loc, old_child_side, new_child_loc, new_child_side)
    }

    pub fn node_at_mut(&mut self, index_loc: NodeIndex) -> (r: Option<&mut TreeNode<T>>)
        ensures
            r is Some <==> old(self)@.present(index_loc as int),
            r matches Some(n) ==> (*n)@ == old(self)@.node(index_loc as int)
                && final(self)@ == old(self)@.with_node(index_loc as int, (*final(n))@),
            r is None ==> final(self)@ == old(self)@,
    {
        broadcast use lemma_slots_update;

        if index_loc < self.index.len() && self.index[index_loc].is_some() {
            match &mut self.index[index_loc] {
                Some(n) => Some(n),
                None => None,
            }
        } else {
            None
        }
    }
}

/// Unfolds the post-order of a present node inside a ranked region.
pub proof fn lemma_postorder_unfold_in<T>(m: TreeModel<T>, rk: Seq<nat>, region: Set<int>, i: int)
    requires
        m.region_ranked(rk, region),
        region.contains(i),
        m.present(i),
    ensures
        m.subtree_postorder(rk, i) == m.child_postorder(rk, m.node(i).left) + m.child_postorder(
            rk,
            m.node(i).right,
        ) + seq![i as NodeIndex],
{
    let n = m.node(i);
    if let Some(c) = n.left {
        if !m.present(c as int) {
            assert(m.subtree_postorder(rk, c as int) =~= Seq::empty());
        }
    }
    if let Some(c) = n.right {
        if !m.present(c as int) {
            assert(m.subtree_postorder(rk, c as int) =~= Seq::empty());
        }
    }
}

/// A walk over a tree in post-order. A pending entry `(i, false)` stands for
/// the whole subtree under `i`; `(i, true)` for node `i` alone, whose children
/// have been put on the stack above it.
pub struct PostOrderIter<'a, T> {
    tree: &'a Tree<T>,
    stack: Vec<(NodeIndex, bool)>,
}

spec fn entry_pending<T>(m: TreeModel<T>, rk: Seq<nat>, e: (NodeIndex, bool)) -> Seq<NodeIndex> {
    if e.1 {
        seq![e.0]
    } else {
        m.subtree_postorder(rk, e.0 as int)
    }
}

/// What the stack still yields, top entry first.
spec fn stack_pending<T>(m: TreeModel<T>, rk: Seq<nat>, s: Seq<(NodeIndex, bool)>) -> Seq<NodeIndex>
    decreases s.len(),
{
    if s.len() == 0 {
        Seq::empty()
    } else {
        entry_pending(m, rk, s.last()) + stack_pending(m, rk, s.drop_last())
    }
}

spec fn entry_weight<T>(m: TreeModel<T>, rk: Seq<nat>, e: (NodeIndex, bool)) -> nat {
    if e.1 {
        1
    } else {
        3 * m.subtree_postorder(rk, e.0 as int).len() + 1
    }
}

spec fn stack_weight<T>(m: TreeModel<T>, rk: Seq<nat>, s: Seq<(NodeIndex, bool)>) -> nat
    decreases s.len(),
{
    if s.len() == 0 {
        0
    } else {
        entry_weight(m, rk, s.last()) + stack_weight(m, rk, s.drop_last())
    }
}

proof fn lemma_stack_push<T>(m: TreeModel<T>, rk: Seq<nat>, s: Seq<(NodeIndex, bool)>, e: (NodeIndex, bool))
    ensures
        stack_pending(m, rk, s.push(e)) == entry_pending(m, rk, e) + stack_pending(m, rk, s),
        stack_weight(m, rk, s.push(e)) == entry_weight(m, rk, e) + stack_weight(m, rk, s),
{
    assert(s.push(e).drop_last() =~= s);
}

impl<'a, T: View> View for PostOrderIter<'a, T> {
    type V = Seq<NodeIndex>;

    /// The indices that the walk has yet to yield, in order.
    closed spec fn view(&self) -> Seq<NodeIndex> {
        stack_pending(self.tree@, self.tree@.tree_ranks(), self.stack@)
    }
}

impl<'a, T: View> PostOrderIter<'a, T> {
    /// The tree being walked.
    pub closed spec fn source(&self) -> TreeModel<T::V> {
        self.tree@
    }

    /// Every subtree still pending starts in the part of the tree that the
    /// root reaches.
    pub closed spec fn walk_ok(&self) -> bool {
        forall|k: int|
            0 <= k < self.stack@.len() && !(#[trigger] self.stack@[k]).1 && self.tree@.present(
                self.stack@[k].0 as int,
            ) ==> self.tree@.tree_region().contains(self.stack@[k].0 as int)
    }

    pub fn new(tree: &'a Tree<T>) -> (r: Self)
        ensures
            r.source() == tree@,
            r@ == tree@.postorder(),
            tree@.is_tree() ==> r.walk_ok(),
    {
        if let Some(i) = tree.root {
            let r = PostOrderIter { tree: tree, stack: vec![(i, false)] };
            proof {
                lemma_stack_push(tree@, tree@.tree_ranks(), Seq::empty(), (i, false));
                assert(r.stack@ =~= Seq::<(NodeIndex, bool)>::empty().push((i, false)));
                assert(r@ =~= tree@.postorder());
            }
            r
        } else {
            PostOrderIter { tree: tree, stack: vec![] }
        }
    }

    /// Yields the next index in post-order, or `None` once the walk is done.
    pub fn next(&mut self) -> (r: Option<NodeIndex>)
        requires
            old(self).source().is_tree(),
            old(self).walk_ok(),
        ensures
            final(self).source() == old(self).source(),
            final(self).walk_ok(),
            old(self)@.len() > 0 ==> r == Some(old(self)@[0]) && final(self)@ == old(self)@.drop_first(),
            old(self)@.len() == 0 ==> r is None && final(self)@ == old(self)@,
    {
        let tree = self.tree;
        let ghost m = tree@;
        let ghost rk = m.tree_ranks();
        let ghost region = m.tree_region();
        while self.stack.len() > 0
            invariant
                self.tree == tree,
                m == tree@,
                m == old(self).source(),
                rk == m.tree_ranks(),
                region == m.tree_region(),
                m.root_ranked(rk, region),
                self.walk_ok(),
                stack_pending(m, rk, self.stack@) == old(self)@,
            decreases stack_weight(m, rk, self.stack@),
        {
            let ghost s0 = self.stack@;
            let (i, expanded) = self.stack.pop().unwrap();
            proof {
                assert(s0 == self.stack@.push((i, expanded)));
                lemma_stack_push(m, rk, self.stack@, (i, expanded));
            }
            if expanded {
                proof {
                    assert(old(self)@.drop_first() =~= stack_pending(m, rk, self.stack@));
                    assert(self.source() == old(self).source());
                }
                return Some(i);
            }
            match tree.node_at(i) {
                Some(n) => {
                    let ghost s1 = self.stack@;
                    self.stack.push((i, true));
                    proof {
                        lemma_stack_push(m, rk, s1, (i, true));
                    }
                    if let Some(c) = n.right {
                        let ghost s2 = self.stack@;
                        self.stack.push((c, false));
                        proof {
                            lemma_stack_push(m, rk, s2, (c, false));
                        }
                    }
                    if let Some(c) = n.left {
                        let ghost s3 = self.stack@;
                        self.stack.push((c, false));
                        proof {
                            lemma_stack_push(m, rk, s3, (c, false));
                        }
                    }
                    proof {
                        assert(m.present(i as int));
                        lemma_postorder_unfold_in(m, rk, region, i as int);
                        assert(stack_pending(m, rk, self.stack@) =~= old(self)@);
                    }
                },
                None => {},
            }
        }
        proof {
            assert(old(self)@ =~= Seq::<NodeIndex>::empty());
        }
        None
    }
}

} // verus!
