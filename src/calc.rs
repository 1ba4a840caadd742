//! Tokens of arithmetic expressions, the tokenizer, and the builder that
//! turns a token sequence into an expression tree.

use crate::shape::{lemma_postorder_counts_tokens, node_tokens};
use crate::tree::{lemma_tree_size_bound, ChildSide, NodeIndex, Tree, TreeModel, TreeNode};
use vstd::prelude::*;

verus! {

/// Classes of characters used to jump the editing cursor from item to item.
#[derive(Clone, Copy, Debug, PartialEq, Eq, Structural)]
pub enum CalcJumpToken {
    Digit,
    Dot,
    Space,
    Operator,
    Paren,
}

/// Kinds of lexical tokens.
#[derive(Clone, Copy, Debug, PartialEq, Eq, Structural)]
pub enum CalcParseToken {
    Value,
    Operator,
    OpenParen,
    CloseParen,
}

pub open spec fn is_digit(c: char) -> bool {
    '0' <= c && c <= '9'
}

pub open spec fn is_operator_char(c: char) -> bool {
    c == '+' || c == '-' || c == '*' || c == '/'
}

pub open spec fn jump_kind_of_char(c: char) -> Option<CalcJumpToken> {
    if is_digit(c) {
        Some(CalcJumpToken::Digit)
    } else if c == '.' {
        Some(CalcJumpToken::Dot)
    } else if c == ' ' {
        Some(CalcJumpToken::Space)
    } else if is_operator_char(c) {
        Some(CalcJumpToken::Operator)
    } else if c == '(' || c == ')' {
        Some(CalcJumpToken::Paren)
    } else {
        None
    }
}

pub open spec fn parse_kind_of_char(c: char) -> Option<CalcParseToken> {
    if c == '.' || is_digit(c) {
        Some(CalcParseToken::Value)
    } else if is_operator_char(c) {
        Some(CalcParseToken::Operator)
    } else if c == '(' {
        Some(CalcParseToken::OpenParen)
    } else if c == ')' {
        Some(CalcParseToken::CloseParen)
    } else {
        None
    }
}

/// How many times `c` occurs in `s`.
pub open spec fn count_char(s: Seq<char>, c: char) -> nat
    decreases s.len(),
{
    if s.len() == 0 {
        0
    } else {
        count_char(s.drop_last(), c) + if s.last() == c {
            1nat
        } else {
            0nat
        }
    }
}

/// A number literal as the builder accepts it: it starts with `-`, `.` or a
/// digit, holds at most one `.` and not at its end, and at most one `-`,
/// only at its start.
pub open spec fn is_value_text(s: Seq<char>) -> bool {
    &&& s.len() > 0
    &&& s[0] == '-' || s[0] == '.' || is_digit(s[0])
    &&& count_char(s, '.') == 0 || (count_char(s, '.') == 1 && s.last() != '.')
    &&& count_char(s, '-') == 0 || (count_char(s, '-') == 1 && s[0] == '-')
}

/// The kind of a whole token text, or `None` when it is no token.
pub open spec fn kind_of_str(s: Seq<char>) -> Option<CalcParseToken> {
    if s == seq!['('] {
        Some(CalcParseToken::OpenParen)
    } else if s == seq![')'] {
        Some(CalcParseToken::CloseParen)
    } else if s.contains('(') || s.contains(')') {
        None
    } else if s.len() == 1 && is_operator_char(s[0]) {
        Some(CalcParseToken::Operator)
    } else if is_value_text(s) {
        Some(CalcParseToken::Value)
    } else {
        None
    }
}

impl CalcJumpToken {
    pub fn get_token_matching_char(c: char) -> (r: Option<CalcJumpToken>)
        ensures
            r == jump_kind_of_char(c),
    {
        if '0' <= c && c <= '9' {
            Some(CalcJumpToken::Digit)
        } else if c == '.' {
            Some(CalcJumpToken::Dot)
        } else if c == ' ' {
            Some(CalcJumpToken::Space)
        } else if c == '+' || c == '-' || c == '*' || c == '/' {
            Some(CalcJumpToken::Operator)
        } else if c == '(' || c == ')' {
            Some(CalcJumpToken::Paren)
        } else {
            None
        }
    }
}

impl CalcParseToken {
    pub fn get_token_matching_char(c: char) -> (r: Option<CalcParseToken>)
        ensures
            r == parse_kind_of_char(c),
    {
        if c == '.' || ('0' <= c && c <= '9') {
            Some(CalcParseToken::Value)
        } else if c == '+' || c == '-' || c == '*' || c == '/' {
            Some(CalcParseToken::Operator)
        } else if c == '(' {
            Some(CalcParseToken::OpenParen)
        } else if c == ')' {
            Some(CalcParseToken::CloseParen)
        } else {
            None
        }
    }

    pub fn get_token_matching_str(s: &str) -> (r: Option<CalcParseToken>)
        ensures
            r == kind_of_str(s@),
    {
        let n = s.unicode_len();
        let mut dots: usize = 0;
        let mut minuses: usize = 0;
        let mut has_paren = false;
        let mut i: usize = 0;
        while i < n
            invariant
                n == s@.len(),
                i <= n,
                dots <= i,
                minuses <= i,
                dots == count_char(s@.take(i as int), '.'),
                minuses == count_char(s@.take(i as int), '-'),
                has_paren == (s@.take(i as int).contains('(') || s@.take(i as int).contains(')')),
            decreases n - i,
        {
            let c = s.get_char(i);
            proof {
                let t = s@.take(i as int);
                let t1 = s@.take(i as int + 1);
                assert(t1.drop_last() =~= t);
                assert(t1.last() == c);
                assert(t1 =~= t.push(c));
                assert(t1.contains('(') <==> (t.contains('(') || c == '('));
                assert(t1.contains(')') <==> (t.contains(')') || c == ')'));
            }
            if c == '.' {
                dots = dots + 1;
            }
            if c == '-' {
                minuses = minuses + 1;
            }
            if c == '(' || c == ')' {
                has_paren = true;
            }
            i = i + 1;
        }
        proof {
            assert(s@.take(n as int) =~= s@);
        }
        if n == 1 && s.get_char(0) == '(' {
            proof {
                assert(s@ =~= seq!['(']);
            }
            return Some(CalcParseToken::OpenParen);
        }
        if n == 1 && s.get_char(0) == ')' {
            proof {
                assert(s@ =~= seq![')']);
            }
            return Some(CalcParseToken::CloseParen);
        }
        if has_paren {
            proof {
                assert(s@ != seq!['(']);
                assert(s@ != seq![')']);
            }
            return None;
        }
        if n == 1 {
            let c = s.get_char(0);
            if c == '+' || c == '-' || c == '*' || c == '/' {
                return Some(CalcParseToken::Operator);
            }
        }
        if n == 0 {
            return None;
        }
        let first = s.get_char(0);
        let last = s.get_char(n - 1);
        if (first == '-' || first == '.' || ('0' <= first && first <= '9')) && (dots == 0 || (dots == 1
            && last != '.')) && (minuses == 0 || (minuses == 1 && first == '-')) {
            Some(CalcParseToken::Value)
        } else {
            None
        }
    }
}

/// The tokenizer's state after some prefix of the input: the finished
/// tokens, the token being read, the kind it counts as for what follows, and
/// whether no character other than a space was read yet.
pub struct LexState {
    pub tokens: Seq<Seq<char>>,
    pub token: Seq<char>,
    pub last: CalcParseToken,
    pub first: bool,
}

/// Characters the tokenizer accepts.
pub open spec fn is_calc_char(c: char) -> bool {
    c == ' ' || parse_kind_of_char(c) is Some
}

/// Whether the tokenizer accepts `c`.
pub fn is_expression_char(c: char) -> (r: bool)
    ensures
        r == is_calc_char(c),
{
    c == ' ' || CalcParseToken::get_token_matching_char(c).is_some()
}

/// `tokens` with `token` appended, unless `token` is empty.
pub open spec fn flush(tokens: Seq<Seq<char>>, token: Seq<char>) -> Seq<Seq<char>> {
    if token.len() > 0 {
        tokens.push(token)
    } else {
        tokens
    }
}

/// One character of input. Spaces are skipped. A `-` that comes first, or
/// after an operator or an open paren, starts a number; digits and dots
/// extend a number; every other character starts a token of its own.
pub open spec fn lex_step(st: LexState, c: char) -> LexState {
    let k = parse_kind_of_char(c)->Some_0;
    if c == ' ' {
        st
    } else if st.first {
        LexState {
            tokens: st.tokens,
            token: st.token.push(c),
            last: if c == '-' {
                CalcParseToken::Value
            } else {
                k
            },
            first: false,
        }
    } else if c == '-' && (st.last == CalcParseToken::Operator || st.last == CalcParseToken::OpenParen) {
        LexState {
            tokens: flush(st.tokens, st.token),
            token: seq![c],
            last: CalcParseToken::Value,
            first: false,
        }
    } else if st.last != k || k != CalcParseToken::Value {
        LexState { tokens: flush(st.tokens, st.token), token: seq![c], last: k, first: false }
    } else {
        LexState { tokens: st.tokens, token: st.token.push(c), last: st.last, first: false }
    }
}

pub open spec fn lex_state(s: Seq<char>) -> LexState
    decreases s.len(),
{
    if s.len() == 0 {
        LexState {
            tokens: Seq::empty(),
            token: Seq::empty(),
            last: CalcParseToken::Operator,
            first: true,
        }
    } else {
        lex_step(lex_state(s.drop_last()), s.last())
    }
}

/// The token texts of an expression.
pub open spec fn tokenize(s: Seq<char>) -> Seq<Seq<char>> {
    flush(lex_state(s).tokens, lex_state(s).token)
}

/// A token as it stands in the expression tree: its kind and its text.
pub struct CalcEvalItem {
    pub token_type: CalcParseToken,
    pub string_value: String,
}

impl View for CalcEvalItem {
    type V = (CalcParseToken, Seq<char>);

    open spec fn view(&self) -> (CalcParseToken, Seq<char>) {
        (self.token_type, self.string_value@)
    }
}

impl CalcEvalItem {
    pub fn new(token_type: CalcParseToken, string_value: &str) -> (r: CalcEvalItem)
        ensures
            r@ == (token_type, string_value@),
    {
        CalcEvalItem { token_type, string_value: String::from_str(string_value) }
    }
}

pub type ItemView = (CalcParseToken, Seq<char>);

/// Why a token sequence does not make an expression tree.
#[derive(Clone, Copy, Debug, PartialEq, Eq, Structural)]
pub enum BuildError {
    /// A fragment that is no token, such as `1.2.3`.
    UnknownToken,
    ConsecutiveValues,
    ConsecutiveOperators,
    /// An operator where the expression begins.
    LeadingOperator,
    OperatorAfterOpenParen,
    ValueAfterCloseParen,
    OpenParenAfterValue,
    OpenParenAfterCloseParen,
    /// An operator above the insertion point lacks one of its operands.
    MalformedSubexpression,
    UnmatchedCloseParen,
    /// The tree under construction broke one of its own invariants.
    InconsistentTree,
}

/// The sentence that describes each error to a person.
pub open spec fn error_text(e: BuildError) -> Seq<char> {
    match e {
        BuildError::UnknownToken => "unknown token"@,
        BuildError::ConsecutiveValues => "cannot have two consecutive values: expected an operation or open paren"@,
        BuildError::ConsecutiveOperators => "cannot have two consecutive operators: expected a value or open paren"@,
        BuildError::LeadingOperator => "the first token cannot be an operator"@,
        BuildError::OperatorAfterOpenParen => "cannot have an operator following an open paren: expected a value or open paren"@,
        BuildError::ValueAfterCloseParen => "expected an operator, not a value, since the cursor was at a close paren"@,
        BuildError::OpenParenAfterValue => "expected an operator or close paren, not an open paren, since the last token was a value"@,
        BuildError::OpenParenAfterCloseParen => "a close paren cannot immediately be followed by an open paren"@,
        BuildError::MalformedSubexpression => "an operator before this point does not have two operands"@,
        BuildError::UnmatchedCloseParen => "no corresponding open paren token found for the new close paren"@,
        BuildError::InconsistentTree => "the expression tree lost its own structure"@,
    }
}

impl BuildError {
    /// Names the rule that the expression broke.
    pub fn description(&self) -> (r: &'static str)
        ensures
            r@ == error_text(*self),
    {
        match self {
            BuildError::UnknownToken => "unknown token",
            BuildError::ConsecutiveValues => "cannot have two consecutive values: expected an operation or open paren",
            BuildError::ConsecutiveOperators => "cannot have two consecutive operators: expected a value or open paren",
            BuildError::LeadingOperator => "the first token cannot be an operator",
            BuildError::OperatorAfterOpenParen => "cannot have an operator following an open paren: expected a value or open paren",
            BuildError::ValueAfterCloseParen => "expected an operator, not a value, since the cursor was at a close paren",
            BuildError::OpenParenAfterValue => "expected an operator or close paren, not an open paren, since the last token was a value",
            BuildError::OpenParenAfterCloseParen => "a close paren cannot immediately be followed by an open paren",
            BuildError::MalformedSubexpression => "an operator before this point does not have two operands",
            BuildError::UnmatchedCloseParen => "no corresponding open paren token found for the new close paren",
            BuildError::InconsistentTree => "the expression tree lost its own structure",
        }
    }
}

/// The builder between two tokens: the tree so far and the node most
/// recently attached.
pub struct BuildState {
    pub tree: TreeModel<ItemView>,
    pub cursor: Option<NodeIndex>,
}

pub open spec fn kind_at(m: TreeModel<ItemView>, i: int) -> CalcParseToken {
    m.node(i).value.0
}

pub open spec fn has_both_children(m: TreeModel<ItemView>, i: int) -> bool {
    m.node(i).left is Some && m.node(i).right is Some
}

/// `m` with a new childless node for a token of kind `k` and text `tok`.
pub open spec fn with_item(m: TreeModel<ItemView>, k: CalcParseToken, tok: Seq<char>) -> TreeModel<ItemView> {
    m.with_leaf((k, tok))
}

/// `m` with `i` as its root.
pub open spec fn rooted_at(m: TreeModel<ItemView>, i: int) -> TreeModel<ItemView> {
    TreeModel { nodes: m.nodes, root: Some(i as NodeIndex) }
}

/// Walks up from `x` through parent links. It stops at the root, or below an
/// open paren (at the paren itself when `into_paren`), and fails on an
/// operator that lacks an operand. A walk longer than `fuel` steps means the
/// parent links hold a cycle.
pub open spec fn climb(m: TreeModel<ItemView>, x: int, fuel: nat, into_paren: bool) -> Result<NodeIndex, BuildError>
    decreases fuel,
{
    if m.root == Some(x as NodeIndex) {
        Ok(x as NodeIndex)
    } else if fuel == 0 {
        Err(BuildError::InconsistentTree)
    } else {
        match m.parent_of(x) {
            None => Err(BuildError::InconsistentTree),
            Some(p) => if !m.present(p as int) {
                Err(BuildError::InconsistentTree)
            } else if kind_at(m, p as int) == CalcParseToken::OpenParen {
                if into_paren {
                    Ok(p)
                } else {
                    Ok(x as NodeIndex)
                }
            } else if kind_at(m, p as int) == CalcParseToken::Operator && !has_both_children(m, p as int) {
                Err(BuildError::MalformedSubexpression)
            } else {
                climb(m, p as int, (fuel - 1) as nat, into_paren)
            },
        }
    }
}

/// Puts the new operator `o` above `x`: as the new root when `x` is the
/// root, else between `x` and its parent. `x` becomes `o`'s left operand.
pub open spec fn attach_above(m: TreeModel<ItemView>, x: int, o: int) -> Result<TreeModel<ItemView>, BuildError> {
    if m.root == Some(x as NodeIndex) {
        if m.replace_root_ok(o) {
            Ok(m.replace_root(o, ChildSide::Left))
        } else {
            Err(BuildError::InconsistentTree)
        }
    } else if m.insert_above_ok(x, o) {
        Ok(m.insert_above(x, o, ChildSide::Left))
    } else {
        Err(BuildError::InconsistentTree)
    }
}

/// A value token: the first node, or the right operand of an operator, or
/// the first content of an open paren.
pub open spec fn place_value(st: BuildState, tok: Seq<char>) -> Result<BuildState, BuildError> {
    let v = st.tree.nodes.len() as NodeIndex;
    let m = with_item(st.tree, CalcParseToken::Value, tok);
    match st.cursor {
        None => Ok(BuildState { tree: rooted_at(m, v as int), cursor: Some(v) }),
        Some(c) => if !m.present(c as int) {
            Err(BuildError::InconsistentTree)
        } else {
            match kind_at(m, c as int) {
                CalcParseToken::Value => Err(BuildError::ConsecutiveValues),
                CalcParseToken::Operator => if m.node(c as int).left is None {
                    Err(BuildError::InconsistentTree)
                } else {
                    Ok(BuildState { tree: m.set_child(c as int, Some(v), ChildSide::Right), cursor: Some(v) })
                },
                CalcParseToken::OpenParen => if m.node(c as int).left is Some {
                    Err(BuildError::InconsistentTree)
                } else {
                    Ok(BuildState { tree: m.set_child(c as int, Some(v), ChildSide::Left), cursor: Some(v) })
                },
                CalcParseToken::CloseParen => Err(BuildError::ValueAfterCloseParen),
            }
        },
    }
}

/// An operator token. `*` and `/` go right above the cursor; `+` and `-`
/// climb first, up to the root or to just below an open paren.
pub open spec fn place_operator(st: BuildState, tok: Seq<char>) -> Result<BuildState, BuildError> {
    let o = st.tree.nodes.len() as NodeIndex;
    let m = with_item(st.tree, CalcParseToken::Operator, tok);
    match st.cursor {
        None => Err(BuildError::LeadingOperator),
        Some(c) => if !m.has_root() {
            Err(BuildError::LeadingOperator)
        } else if !m.present(c as int) {
            Err(BuildError::InconsistentTree)
        } else if kind_at(m, c as int) == CalcParseToken::Operator {
            Err(BuildError::ConsecutiveOperators)
        } else if kind_at(m, c as int) == CalcParseToken::OpenParen {
            Err(BuildError::OperatorAfterOpenParen)
        } else {
            let at = if tok[0] == '*' || tok[0] == '/' {
                Ok(c)
            } else {
                climb(m, c as int, m.nodes.len(), false)
            };
            match at {
                Err(e) => Err(e),
                Ok(x) => match attach_above(m, x as int, o as int) {
                    Ok(t) => Ok(BuildState { tree: t, cursor: Some(o) }),
                    Err(e) => Err(e),
                },
            }
        },
    }
}

/// An open paren token: the first node, or the right operand of an
/// operator, or the first content of another open paren.
pub open spec fn place_open_paren(st: BuildState, tok: Seq<char>) -> Result<BuildState, BuildError> {
    let q = st.tree.nodes.len() as NodeIndex;
    let m = with_item(st.tree, CalcParseToken::OpenParen, tok);
    match st.cursor {
        None => Ok(BuildState { tree: rooted_at(m, q as int), cursor: Some(q) }),
        Some(c) => if !m.present(c as int) {
            Err(BuildError::InconsistentTree)
        } else {
            match kind_at(m, c as int) {
                CalcParseToken::Value => Err(BuildError::OpenParenAfterValue),
                CalcParseToken::Operator => if m.node(c as int).left is None {
                    Err(BuildError::InconsistentTree)
                } else {
                    Ok(BuildState { tree: m.set_child(c as int, Some(q), ChildSide::Right), cursor: Some(q) })
                },
                CalcParseToken::OpenParen => if m.node(c as int).left is Some {
                    Err(BuildError::InconsistentTree)
                } else {
                    Ok(BuildState { tree: m.set_child(c as int, Some(q), ChildSide::Left), cursor: Some(q) })
                },
                CalcParseToken::CloseParen => Err(BuildError::OpenParenAfterCloseParen),
            }
        },
    }
}

/// A close paren token adds no node: it climbs to the nearest open paren and
/// relabels that node as closed, keeping its index and children.
pub open spec fn close_paren(st: BuildState, tok: Seq<char>) -> Result<BuildState, BuildError> {
    let m = st.tree;
    match st.cursor {
        None => Err(BuildError::UnmatchedCloseParen),
        Some(c) => if !m.has_root() {
            Err(BuildError::UnmatchedCloseParen)
        } else {
            match climb(m, c as int, m.nodes.len(), true) {
                Err(e) => Err(e),
                Ok(x) => if !m.present(x as int) {
                    Err(BuildError::InconsistentTree)
                } else if kind_at(m, x as int) == CalcParseToken::OpenParen {
                    Ok(
                        BuildState {
                            tree: m.with_node(
                                x as int,
                                m.node(x as int).with_value((CalcParseToken::CloseParen, tok)),
                            ),
                            cursor: Some(x),
                        },
                    )
                } else {
                    Err(BuildError::UnmatchedCloseParen)
                },
            }
        },
    }
}

#[verifier::opaque]
pub open spec fn build_step(st: BuildState, tok: Seq<char>) -> Result<BuildState, BuildError> {
    match kind_of_str(tok) {
        None => Err(BuildError::UnknownToken),
        Some(CalcParseToken::Value) => place_value(st, tok),
        Some(CalcParseToken::Operator) => place_operator(st, tok),
        Some(CalcParseToken::OpenParen) => place_open_paren(st, tok),
        Some(CalcParseToken::CloseParen) => close_paren(st, tok),
    }
}

pub open spec fn empty_build() -> BuildState {
    BuildState { tree: TreeModel { nodes: Seq::empty(), root: None }, cursor: None }
}

/// The builder's state after a token sequence; the first error is final.
pub open spec fn build_tokens(ts: Seq<Seq<char>>) -> Result<BuildState, BuildError>
    decreases ts.len(),
{
    if ts.len() == 0 {
        Ok(empty_build())
    } else {
        match build_tokens(ts.drop_last()) {
            Ok(st) => build_step(st, ts.last()),
            Err(e) => Err(e),
        }
    }
}

/// The expression tree of an expression's text, or the first error.
pub open spec fn build_tree(s: Seq<char>) -> Result<TreeModel<ItemView>, BuildError> {
    match build_tokens(tokenize(s)) {
        Ok(st) => Ok(st.tree),
        Err(e) => Err(e),
    }
}

proof fn lemma_build_error_final(ts: Seq<Seq<char>>, j: int, e: BuildError)
    requires
        0 <= j <= ts.len(),
        build_tokens(ts.take(j)) == Err::<BuildState, BuildError>(e),
    ensures
        build_tokens(ts) == Err::<BuildState, BuildError>(e),
    decreases ts.len() - j,
{
    if j == ts.len() {
        assert(ts.take(j) =~= ts);
    } else {
        assert(ts.take(j + 1).drop_last() =~= ts.take(j));
        lemma_build_error_final(ts, j + 1, e);
    }
}

/// The expression being typed, with its editing cursor, and which earlier
/// calculation is selected (0: none) and whether on its result side. It also
/// hosts the entry points that turn an expression's text into tokens and into
/// a tree.
pub struct Calculator {
    pub calc: Vec<char>,
    pub calc_pos: u16,
    pub selected_calc: u8,
    pub selected_equals: bool,
}

impl Calculator {
    /// Splits an expression into token texts (no text for an expression of
    /// spaces alone).
    pub fn parse_calc_to_tokens(calc: &str) -> (r: Vec<String>)
        requires
            forall|i: int| 0 <= i < calc@.len() ==> is_calc_char(#[trigger] calc@[i]),
        ensures
            r.deep_view() == tokenize(calc@),
    {
        let n = calc.unicode_len();
        let mut tokens: Vec<String> = Vec::new();
        let mut token = String::new();
        let mut last = CalcParseToken::Operator;
        let mut first = true;
        let mut i: usize = 0;
        proof {
            assert(tokens.deep_view() =~= Seq::<Seq<char>>::empty());
            assert(calc@.take(0) =~= Seq::<char>::empty());
        }
        while i < n
            invariant
                n == calc@.len(),
                i <= n,
                forall|j: int| 0 <= j < calc@.len() ==> is_calc_char(#[trigger] calc@[j]),
                lex_state(calc@.take(i as int)) == (LexState {
                    tokens: tokens.deep_view(),
                    token: token@,
                    last,
                    first,
                }),
            decreases n - i,
        {
            let c = calc.get_char(i);
            let ghost st = LexState { tokens: tokens.deep_view(), token: token@, last, first };
            proof {
                let t1 = calc@.take(i as int + 1);
                assert(t1.drop_last() =~= calc@.take(i as int));
                assert(t1.last() == c);
                assert(lex_state(t1) == lex_step(st, c));
            }
            if c != ' ' {
                let k = CalcParseToken::get_token_matching_char(c).unwrap();
                if first {
                    first = false;
                    last = if c == '-' {
                        CalcParseToken::Value
                    } else {
                        k
                    };
                } else if c == '-' && (last == CalcParseToken::Operator || last
                    == CalcParseToken::OpenParen) {
                    Self::flush_token(&mut tokens, &mut token);
                    last = CalcParseToken::Value;
                } else if last != k || k != CalcParseToken::Value {
                    Self::flush_token(&mut tokens, &mut token);
                    last = k;
                }
                let piece = calc.substring_char(i, i + 1);
                proof {
                    assert(piece@ =~= seq![c]);
                }
                token.append(piece);
                proof {
                    assert(token@ =~= lex_step(st, c).token);
                }
            }
            i = i + 1;
        }
        proof {
            assert(calc@.take(n as int) =~= calc@);
        }
        Self::flush_token(&mut tokens, &mut token);
        tokens
    }

    /// Builds the expression tree of `calc`, or names the first rule that
    /// its tokens break.
    pub fn build_calc_eval_tree(calc: &str) -> (r: Result<Tree<CalcEvalItem>, BuildError>)
        requires
            forall|i: int| 0 <= i < calc@.len() ==> is_calc_char(#[trigger] calc@[i]),
        ensures
            match r {
                Ok(t) => build_tree(calc@) == Ok::<TreeModel<ItemView>, BuildError>(t@),
                Err(e) => build_tree(calc@) == Err::<TreeModel<ItemView>, BuildError>(e),
            },
            r matches Ok(t) ==> t@.is_tree(),
            r matches Ok(t) ==> t@.postorder().len() == node_tokens(tokenize(calc@)),
            r matches Ok(t) ==> t@.postorder().no_duplicates(),
            r matches Ok(t) ==> t@.postorder_lists_all(),
    {
        let mut tree = Tree::<CalcEvalItem>::new();
        let tokens = Self::parse_calc_to_tokens(calc);
        let ghost ts = tokens.deep_view();
        let mut cursor: Option<NodeIndex> = None;
        let mut count: usize = 0;
        let mut j: usize = 0;
        proof {
            assert(ts.take(0) =~= Seq::<Seq<char>>::empty());
            assert(tree@.nodes =~= empty_build().tree.nodes);
        }
        while j < tokens.len()
            invariant
                ts == tokens.deep_view(),
                ts == tokenize(calc@),
                j <= tokens.len(),
                count <= j,
                count == tree@.nodes.len(),
                build_tokens(ts.take(j as int)) == Ok::<BuildState, BuildError>(
                    BuildState { tree: tree@, cursor },
                ),
            decreases tokens.len() - j,
        {
            let token = tokens[j].as_str();
            proof {
                assert(ts.take(j as int + 1).drop_last() =~= ts.take(j as int));
                assert(ts.take(j as int + 1).last() == token@);
            }
            match Self::place_token(&mut tree, cursor, token, count) {
                Ok(c) => {
                    cursor = Some(c);
                },
                Err(e) => {
                    proof {
                        lemma_build_error_final(ts, j as int + 1, e);
                    }
                    return Err(e);
                },
            }
            if tree.has_node_at(count) {
                count = count + 1;
            }
            j = j + 1;
        }
        proof {
            assert(ts.take(j as int) =~= ts);
            lemma_tree_size_bound(&tree);
            lemma_postorder_counts_tokens(calc@, tree@);
        }
        Ok(tree)
    }

    /// One token's step of the builder.
    fn place_token(tree: &mut Tree<CalcEvalItem>, cursor: Option<NodeIndex>, token: &str, count: usize) -> (r:
        Result<NodeIndex, BuildError>)
        requires
            count == old(tree)@.nodes.len(),
            count < usize::MAX,
        ensures
            match r {
                Ok(c) => build_step(BuildState { tree: old(tree)@, cursor }, token@) == Ok::<
                    BuildState,
                    BuildError,
                >(BuildState { tree: final(tree)@, cursor: Some(c) }),
                Err(e) => build_step(BuildState { tree: old(tree)@, cursor }, token@) == Err::<
                    BuildState,
                    BuildError,
                >(e),
            },
            count <= final(tree)@.nodes.len() <= count + 1,
    {
        reveal(build_step);
        match CalcParseToken::get_token_matching_str(token) {
            None => Err(BuildError::UnknownToken),
            Some(CalcParseToken::Value) => Self::place_value_token(tree, cursor, token, count),
            Some(CalcParseToken::Operator) => Self::place_operator_token(tree, cursor, token, count),
            Some(CalcParseToken::OpenParen) => Self::place_open_paren_token(tree, cursor, token, count),
            Some(CalcParseToken::CloseParen) => Self::close_paren_token(tree, cursor, token, count),
        }
    }

    fn place_value_token(tree: &mut Tree<CalcEvalItem>, cursor: Option<NodeIndex>, token: &str, count: usize) -> (r:
        Result<NodeIndex, BuildError>)
        requires
            count == old(tree)@.nodes.len(),
            count < usize::MAX,
        ensures
            match r {
                Ok(c) => place_value(BuildState { tree: old(tree)@, cursor }, token@) == Ok::<
                    BuildState,
                    BuildError,
                >(BuildState { tree: final(tree)@, cursor: Some(c) }),
                Err(e) => place_value(BuildState { tree: old(tree)@, cursor }, token@) == Err::<
                    BuildState,
                    BuildError,
                >(e),
            },
            final(tree)@.nodes.len() == count + 1,
    {
        let v = tree.add_node(TreeNode::new(CalcEvalItem::new(CalcParseToken::Value, token)));
        match cursor {
            None => {
                tree.set_root(Some(v));
                Ok(v)
            },
            Some(c) => {
                let (kind, has_left) = match tree.node_at(c) {
                    Some(n) => (n.get_value().token_type, n.has_left()),
                    None => {
                        return Err(BuildError::InconsistentTree);
                    },
                };
                match kind {
                    CalcParseToken::Value => Err(BuildError::ConsecutiveValues),
                    CalcParseToken::Operator => {
                        if !has_left {
                            return Err(BuildError::InconsistentTree);
                        }
                        if tree.set_node_child(c, Some(v), ChildSide::Right).is_err() {
                            return Err(BuildError::InconsistentTree);
                        }
                        Ok(v)
                    },
                    CalcParseToken::OpenParen => {
                        if has_left {
                            return Err(BuildError::InconsistentTree);
                        }
                        if tree.set_node_child(c, Some(v), ChildSide::Left).is_err() {
                            return Err(BuildError::InconsistentTree);
                        }
                        Ok(v)
                    },
                    CalcParseToken::CloseParen => Err(BuildError::ValueAfterCloseParen),
                }
            },
        }
    }

    fn place_open_paren_token(
        tree: &mut Tree<CalcEvalItem>,
        cursor: Option<NodeIndex>,
        token: &str,
        count: usize,
    ) -> (r: Result<NodeIndex, BuildError>)
        requires
            count == old(tree)@.nodes.len(),
            count < usize::MAX,
        ensures
            match r {
                Ok(c) => place_open_paren(BuildState { tree: old(tree)@, cursor }, token@) == Ok::<
                    BuildState,
                    BuildError,
                >(BuildState { tree: final(tree)@, cursor: Some(c) }),
                Err(e) => place_open_paren(BuildState { tree: old(tree)@, cursor }, token@) == Err::<
                    BuildState,
                    BuildError,
                >(e),
            },
            final(tree)@.nodes.len() == count + 1,
    {
        let q = tree.add_node(TreeNode::new(CalcEvalItem::new(CalcParseToken::OpenParen, token)));
        match cursor {
            None => {
                tree.set_root(Some(q));
                Ok(q)
            },
            Some(c) => {
                let (kind, has_left) = match tree.node_at(c) {
                    Some(n) => (n.get_value().token_type, n.has_left()),
                    None => {
                        return Err(BuildError::InconsistentTree);
                    },
                };
                match kind {
                    CalcParseToken::Value => Err(BuildError::OpenParenAfterValue),
                    CalcParseToken::Operator => {
                        if !has_left {
                            return Err(BuildError::InconsistentTree);
                        }
                        if tree.set_node_child(c, Some(q), ChildSide::Right).is_err() {
                            return Err(BuildError::InconsistentTree);
                        }
                        Ok(q)
                    },
                    CalcParseToken::OpenParen => {
                        if has_left {
                            return Err(BuildError::InconsistentTree);
                        }
                        if tree.set_node_child(c, Some(q), ChildSide::Left).is_err() {
                            return Err(BuildError::InconsistentTree);
                        }
                        Ok(q)
                    },
                    CalcParseToken::CloseParen => Err(BuildError::OpenParenAfterCloseParen),
                }
            },
        }
    }

    fn place_operator_token(tree: &mut Tree<CalcEvalItem>, cursor: Option<NodeIndex>, token: &str, count: usize) -> (r:
        Result<NodeIndex, BuildError>)
        requires
            count == old(tree)@.nodes.len(),
            count < usize::MAX,
            kind_of_str(token@) == Some(CalcParseToken::Operator),
        ensures
            match r {
                Ok(c) => place_operator(BuildState { tree: old(tree)@, cursor }, token@) == Ok::<
                    BuildState,
                    BuildError,
                >(BuildState { tree: final(tree)@, cursor: Some(c) }),
                Err(e) => place_operator(BuildState { tree: old(tree)@, cursor }, token@) == Err::<
                    BuildState,
                    BuildError,
                >(e),
            },
            final(tree)@.nodes.len() == count + 1,
    {
        let o = tree.add_node(TreeNode::new(CalcEvalItem::new(CalcParseToken::Operator, token)));
        let c = match cursor {
            Some(c) => c,
            None => {
                return Err(BuildError::LeadingOperator);
            },
        };
        if !tree.has_root() {
            return Err(BuildError::LeadingOperator);
        }
        let kind = match tree.node_at(c) {
            Some(n) => n.get_value().token_type,
            None => {
                return Err(BuildError::InconsistentTree);
            },
        };
        if kind == CalcParseToken::Operator {
            return Err(BuildError::ConsecutiveOperators);
        }
        if kind == CalcParseToken::OpenParen {
            return Err(BuildError::OperatorAfterOpenParen);
        }
        let op = token.get_char(0);
        let at = if op == '*' || op == '/' {
            c
        } else {
            match Self::climb_from(tree, c, count + 1, false) {
                Ok(x) => x,
                Err(e) => {
                    return Err(e);
                },
            }
        };
        if tree.matches_root(at) {
            if tree.replace_root_with_node(o, ChildSide::Left).is_err() {
                return Err(BuildError::InconsistentTree);
            }
        } else {
            if tree.insert_node_above_node(at, o, ChildSide::Left).is_err() {
                return Err(BuildError::InconsistentTree);
            }
        }
        Ok(o)
    }

    fn close_paren_token(tree: &mut Tree<CalcEvalItem>, cursor: Option<NodeIndex>, token: &str, count: usize) -> (r:
        Result<NodeIndex, BuildError>)
        requires
            count == old(tree)@.nodes.len(),
        ensures
            match r {
                Ok(c) => close_paren(BuildState { tree: old(tree)@, cursor }, token@) == Ok::<
                    BuildState,
                    BuildError,
                >(BuildState { tree: final(tree)@, cursor: Some(c) }),
                Err(e) => close_paren(BuildState { tree: old(tree)@, cursor }, token@) == Err::<
                    BuildState,
                    BuildError,
                >(e),
            },
            final(tree)@.nodes.len() == count,
    {
        let c = match cursor {
            Some(c) => c,
            None => {
                return Err(BuildError::UnmatchedCloseParen);
            },
        };
        if !tree.has_root() {
            return Err(BuildError::UnmatchedCloseParen);
        }
        let x = match Self::climb_from(tree, c, count, true) {
            Ok(x) => x,
            Err(e) => {
                return Err(e);
            },
        };
        let is_open = match tree.node_at(x) {
            Some(n) => n.get_value().token_type == CalcParseToken::OpenParen,
            None => {
                return Err(BuildError::InconsistentTree);
            },
        };
        if !is_open {
            return Err(BuildError::UnmatchedCloseParen);
        }
        match tree.node_at_mut(x) {
            Some(n) => {
                n.set_value(CalcEvalItem::new(CalcParseToken::CloseParen, token));
            },
            None => {
                return Err(BuildError::InconsistentTree);
            },
        }
        Ok(x)
    }

    /// The walk of `climb`, run on the tree.
    fn climb_from(tree: &Tree<CalcEvalItem>, start: NodeIndex, fuel: usize, into_paren: bool) -> (r: Result<
        NodeIndex,
        BuildError,
    >)
        ensures
            r == climb(tree@, start as int, fuel as nat, into_paren),
    {
        let mut loc = start;
        let mut left = fuel;
        loop
            invariant
                climb(tree@, loc as int, left as nat, into_paren) == climb(
                    tree@,
                    start as int,
                    fuel as nat,
                    into_paren,
                ),
            decreases left,
        {
            if tree.matches_root(loc) {
                return Ok(loc);
            }
            if left == 0 {
                return Err(BuildError::InconsistentTree);
            }
            let p = match tree.get_node_parent(loc) {
                Some(p) => p,
                None => {
                    return Err(BuildError::InconsistentTree);
                },
            };
            let (kind, complete) = match tree.node_at(p) {
                Some(n) => (n.get_value().token_type, n.has_left() && n.has_right()),
                None => {
                    return Err(BuildError::InconsistentTree);
                },
            };
            if kind == CalcParseToken::OpenParen {
                return Ok(
                    if into_paren {
                        p
                    } else {
                        loc
                    },
                );
            }
            if kind == CalcParseToken::Operator && !complete {
                return Err(BuildError::MalformedSubexpression);
            }
            loc = p;
            left = left - 1;
        }
    }

    /// Moves a non-empty `token` to the end of `tokens`; `token` ends empty.
    fn flush_token(tokens: &mut Vec<String>, token: &mut String)
        ensures
            final(tokens).deep_view() == flush(old(tokens).deep_view(), old(token)@),
            final(token)@ == Seq::<char>::empty(),
    {
        if token.as_str().unicode_len() > 0 {
            let done = token.clone();
            let ghost before = tokens.deep_view();
            tokens.push(done);
            *token = String::new();
            proof {
                assert(tokens.deep_view() =~= before.push(done@));
            }
        } else {
            proof {
                assert(token@ =~= Seq::<char>::empty());
            }
        }
    }
}

} // verus!
