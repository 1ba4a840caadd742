//! The shape of the trees the builder makes: each is a proper tree over its
//! whole table, so the post-order walk visits every node exactly once.

use crate::calc::{
    build_step, build_tokens, build_tree, climb, kind_at, kind_of_str, tokenize, BuildState,
    CalcEvalItem, CalcParseToken, ItemView,
};
use crate::linked::{
    lemma_attach_leaf, lemma_first_leaf, lemma_new_inner, lemma_new_root, lemma_postorder_counts_nodes,
    lemma_relabel, node_linked, parent_linked, well_linked,
};
use crate::tree::{lemma_tree_size_bound, ChildSide, NodeIndex, PostOrderIter, Tree, TreeModel};
use vstd::prelude::*;

verus! {

/// How many of the tokens add a node: all but close parens.
pub open spec fn node_tokens(ts: Seq<Seq<char>>) -> nat
    decreases ts.len(),
{
    if ts.len() == 0 {
        0
    } else {
        node_tokens(ts.drop_last()) + if kind_of_str(ts.last()) == Some(CalcParseToken::CloseParen) {
            0nat
        } else {
            1nat
        }
    }
}

/// Between two tokens of a successful build: the tree is well linked under
/// `rk`, the cursor is set exactly when the tree has nodes, and an operator
/// at the cursor still waits for its right operand.
pub open spec fn build_shape(st: BuildState, rk: Seq<nat>) -> bool {
    &&& well_linked(st.tree, rk)
    &&& st.cursor is None <==> st.tree.nodes.len() == 0
    &&& st.cursor matches Some(c) ==> c < st.tree.nodes.len()
    &&& st.cursor matches Some(c) ==> (kind_at(st.tree, c as int) == CalcParseToken::Operator ==> st.tree.node(
        c as int,
    ).right is None)
}

/// A climb from a node of the table ends at a node of the table.
proof fn lemma_climb_in_table(m: TreeModel<ItemView>, rk: Seq<nat>, x: NodeIndex, fuel: nat, into_paren: bool)
    requires
        well_linked(m, rk),
        x < m.nodes.len(),
    ensures
        climb(m, x as int, fuel, into_paren) matches Ok(y) ==> y < m.nodes.len(),
    decreases fuel,
{
    if m.root != Some(x) && fuel > 0 {
        assert(node_linked(m, rk, x as int));
        assert(parent_linked(m, x as int));
        let p = m.node(x as int).parent->Some_0;
        lemma_climb_in_table(m, rk, p, (fuel - 1) as nat, into_paren);
    }
}

/// The climb over a tree with one more leaf at the end of its table is the
/// climb over the tree itself, for a start inside the old table.
proof fn lemma_climb_ignores_leaf(
    m: TreeModel<ItemView>,
    rk: Seq<nat>,
    value: ItemView,
    x: NodeIndex,
    fuel: nat,
    into_paren: bool,
)
    requires
        well_linked(m, rk),
        x < m.nodes.len(),
    ensures
        climb(m.with_leaf(value), x as int, fuel, into_paren) == climb(m, x as int, fuel, into_paren),
    decreases fuel,
{
    if m.root != Some(x) && fuel > 0 {
        assert(node_linked(m, rk, x as int));
        assert(parent_linked(m, x as int));
        let p = m.node(x as int).parent->Some_0;
        lemma_climb_ignores_leaf(m, rk, value, p, (fuel - 1) as nat, into_paren);
    }
}

/// One successful step of the builder keeps its shape.
proof fn lemma_step_shape(st: BuildState, rk: Seq<nat>, tok: Seq<char>) -> (rk2: Seq<nat>)
    requires
        build_shape(st, rk),
        build_step(st, tok) is Ok,
        kind_of_str(tok) != Some(CalcParseToken::CloseParen) ==> st.tree.nodes.len() < usize::MAX,
    ensures
        build_shape(build_step(st, tok)->Ok_0, rk2),
        build_step(st, tok)->Ok_0.tree.nodes.len() == st.tree.nodes.len() + if kind_of_str(tok) == Some(
            CalcParseToken::CloseParen,
        ) {
            0nat
        } else {
            1nat
        },
{
    reveal(build_step);
    let m = st.tree;
    let n = m.nodes.len();
    let next = build_step(st, tok)->Ok_0;
    match kind_of_str(tok) {
        Some(CalcParseToken::CloseParen) => {
            let c = st.cursor->Some_0;
            lemma_climb_in_table(m, rk, c, n, true);
            let x = climb(m, c as int, n, true)->Ok_0;
            lemma_relabel(m, rk, x, (CalcParseToken::CloseParen, tok));
            rk
        },
        Some(CalcParseToken::Operator) => {
            let item = (CalcParseToken::Operator, tok);
            let c = st.cursor->Some_0;
            let m1 = m.with_leaf(item);
            let x = if tok[0] == '*' || tok[0] == '/' {
                c
            } else {
                lemma_climb_ignores_leaf(m, rk, item, c, n + 1, false);
                lemma_climb_in_table(m, rk, c, n + 1, false);
                climb(m1, c as int, m1.nodes.len(), false)->Ok_0
            };
            if m.root == Some(x) {
                lemma_new_root(m, rk, ChildSide::Left, item)
            } else {
                lemma_new_inner(m, rk, x, ChildSide::Left, item)
            }
        },
        Some(k) => {
            let item = (k, tok);
            match st.cursor {
                None => {
                    lemma_first_leaf(m, item);
                    seq![0nat]
                },
                Some(c) => {
                    assert(node_linked(m, rk, c as int));
                    if kind_at(m, c as int) == CalcParseToken::Operator {
                        lemma_attach_leaf(m, rk, c, ChildSide::Right, item)
                    } else {
                        lemma_attach_leaf(m, rk, c, ChildSide::Left, item)
                    }
                },
            }
        },
        None => rk,
    }
}

/// Every successful build, of not too many nodes, has the builder's shape.
proof fn lemma_build_shape(ts: Seq<Seq<char>>) -> (rk: Seq<nat>)
    requires
        build_tokens(ts) is Ok,
        node_tokens(ts) <= usize::MAX,
    ensures
        build_shape(build_tokens(ts)->Ok_0, rk),
        build_tokens(ts)->Ok_0.tree.nodes.len() == node_tokens(ts),
    decreases ts.len(),
{
    if ts.len() == 0 {
        Seq::empty()
    } else {
        let rest = ts.drop_last();
        let rk0 = lemma_build_shape(rest);
        let st = build_tokens(rest)->Ok_0;
        lemma_step_shape(st, rk0, ts.last())
    }
}

/// The tree the builder made has a node in every slot, one for every token
/// but the close parens, and its post-order lists each of them exactly once.
pub proof fn lemma_postorder_counts_tokens(calc: Seq<char>, t: TreeModel<ItemView>)
    requires
        build_tree(calc) == Ok::<TreeModel<ItemView>, crate::calc::BuildError>(t),
        t.nodes.len() <= usize::MAX,
    ensures
        t.is_tree(),
        t.postorder().no_duplicates(),
        t.postorder().len() == node_tokens(tokenize(calc)),
        t.nodes.len() == node_tokens(tokenize(calc)),
        t.postorder_lists_all(),
{
    let ts = tokenize(calc);
    lemma_node_count(ts);
    let rk = lemma_build_shape(ts);
    lemma_postorder_counts_nodes(t, rk);
    assert forall|i: NodeIndex| i < t.nodes.len() implies t.present(i as int) && #[trigger] t.postorder().contains(
        i,
    ) by {
        assert(node_linked(t, rk, i as int));
    }
}

/// A successful build holds one node for each token but the close parens.
proof fn lemma_node_count(ts: Seq<Seq<char>>)
    requires
        build_tokens(ts) is Ok,
    ensures
        build_tokens(ts)->Ok_0.tree.nodes.len() == node_tokens(ts),
    decreases ts.len(),
{
    reveal(build_step);
    if ts.len() > 0 {
        lemma_node_count(ts.drop_last());
        let st = build_tokens(ts.drop_last())->Ok_0;
        let tok = ts.last();
        let m = st.tree;
        if kind_of_str(tok) == Some(CalcParseToken::Operator) {
            let o = m.nodes.len();
            let m1 = m.with_leaf((CalcParseToken::Operator, tok));
            assert(m1.nodes.len() == o + 1);
        }
    }
}

/// Without close parens, every token adds a node.
proof fn lemma_node_tokens_all(ts: Seq<Seq<char>>)
    requires
        forall|k: int| 0 <= k < ts.len() ==> ts[k] != seq![')'],
    ensures
        node_tokens(ts) == ts.len(),
    decreases ts.len(),
{
    if ts.len() > 0 {
        let rest = ts.drop_last();
        assert forall|k: int| 0 <= k < rest.len() implies rest[k] != seq![')'] by {
            assert(rest[k] == ts[k]);
        }
        lemma_node_tokens_all(rest);
        assert(ts.last() == ts[ts.len() - 1]);
    }
}

/// For an expression without close parens, a post-order walk over the tree
/// that the builder makes yields one index per token, each node exactly once,
/// and two walks started fresh on that tree yield the same sequence.
pub proof fn lemma_postorder_round_trip(
    calc: &str,
    t: &Tree<CalcEvalItem>,
    first: &PostOrderIter<CalcEvalItem>,
    second: &PostOrderIter<CalcEvalItem>,
)
    requires
        build_tree(calc@) == Ok::<TreeModel<ItemView>, crate::calc::BuildError>(t@),
        forall|k: int| 0 <= k < tokenize(calc@).len() ==> tokenize(calc@)[k] != seq![')'],
        first.source() == t@,
        first@ == t@.postorder(),
        second.source() == t@,
        second@ == t@.postorder(),
    ensures
        t@.is_tree(),
        first@.len() == tokenize(calc@).len(),
        first@.no_duplicates(),
        t@.postorder_lists_all(),
        first@ == second@,
{
    lemma_tree_size_bound(t);
    lemma_postorder_counts_tokens(calc@, t@);
    lemma_node_tokens_all(tokenize(calc@));
}

} // verus!
