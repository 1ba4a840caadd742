use rust_calc_term::calc::{BuildError, CalcEvalItem, CalcJumpToken, CalcParseToken, Calculator};
use rust_calc_term::tree::{PostOrderIter, Tree};

fn postorder_texts(tree: &Tree<CalcEvalItem>) -> Vec<String> {
    let mut output = Vec::new();
    let mut postorder = PostOrderIter::new(tree);
    while let Some(index) = postorder.next() {
        let node = tree.node_at(index).expect("Node does not exist at given index");
        output.push(node.value.string_value.clone());
    }
    output
}

fn build_texts(calc: &str) -> Vec<String> {
    postorder_texts(&Calculator::build_calc_eval_tree(calc).unwrap())
}

#[test]
fn tokenize_subtract_negative_literal() {
    assert_eq!(vec!["1", "-", "-1"], Calculator::parse_calc_to_tokens("1 - -1"));
    assert_eq!(vec!["(", "1", ")", "-", "1"], Calculator::parse_calc_to_tokens("(1)-1"));
    assert_eq!(vec!["-123.456"], Calculator::parse_calc_to_tokens("-123.456"));
}

#[test]
fn tokenize_leading_minus_then_minus() {
    assert_eq!(vec!["-", "-", "1"], Calculator::parse_calc_to_tokens("--1"));
}

#[test]
fn tokenize_minus_after_open_paren_and_operator() {
    assert_eq!(vec!["5", "*", "-0.1"], Calculator::parse_calc_to_tokens("5 * -0.1"));
    assert_eq!(vec!["(", "-.5", ")"], Calculator::parse_calc_to_tokens("(-.5)"));
}

#[test]
fn jump_token_classes() {
    assert_eq!(Some(CalcJumpToken::Digit), CalcJumpToken::get_token_matching_char('7'));
    assert_eq!(Some(CalcJumpToken::Dot), CalcJumpToken::get_token_matching_char('.'));
    assert_eq!(Some(CalcJumpToken::Space), CalcJumpToken::get_token_matching_char(' '));
    assert_eq!(Some(CalcJumpToken::Operator), CalcJumpToken::get_token_matching_char('/'));
    assert_eq!(Some(CalcJumpToken::Paren), CalcJumpToken::get_token_matching_char(')'));
    assert_eq!(None, CalcJumpToken::get_token_matching_char('x'));
}

#[test]
fn str_token_edge_cases() {
    assert_eq!(None, CalcParseToken::get_token_matching_str(""));
    assert_eq!(None, CalcParseToken::get_token_matching_str("5."));
    assert_eq!(Some(CalcParseToken::Value), CalcParseToken::get_token_matching_str("1a"));
    assert_eq!(Some(CalcParseToken::Operator), CalcParseToken::get_token_matching_str("-"));
    assert_eq!(None, CalcParseToken::get_token_matching_str("++"));
}

#[test]
fn build_postorder_add() {
    assert_eq!(vec!["123", "456", "+"], build_texts("123 + 456"));
}

#[test]
fn build_postorder_multiplication_binds_tighter() {
    assert_eq!(vec!["123", "456", "789", "*", "+"], build_texts("123 + 456 * 789"));
}

#[test]
fn build_postorder_add_multiply_add() {
    assert_eq!(vec!["1", "2", "3", "*", "+", "4", "+"], build_texts("1 + 2 * 3 + 4"));
}

#[test]
fn build_postorder_multiply_chain() {
    assert_eq!(vec!["1", "2", "3", "4", "*", "*", "*"], build_texts("1 * 2 * 3 * 4"));
}

#[test]
fn build_postorder_closed_groups() {
    assert_eq!(
        vec!["1", "2", "+", ")", "3", "4", "+", ")", "5", "*", "+"],
        build_texts("(1+2) + (3+4)*5")
    );
}

#[test]
fn build_postorder_subtract_after_group() {
    assert_eq!(vec!["1", ")", "1", "-"], build_texts("(1)-1"));
}

#[test]
fn build_empty_expression() {
    let tree = Calculator::build_calc_eval_tree("   ").unwrap();
    assert_eq!(None, tree.get_root());
    assert!(postorder_texts(&tree).is_empty());
}

#[test]
fn build_trailing_operator_accepted() {
    assert_eq!(vec!["1", "+"], build_texts("1+"));
}

#[test]
fn build_error_two_operators() {
    assert_eq!(BuildError::ConsecutiveOperators, Calculator::build_calc_eval_tree("1++2").err().unwrap());
}

#[test]
fn build_unclosed_group_is_rooted_at_open_paren() {
    let tree = Calculator::build_calc_eval_tree("(1+2").unwrap();
    let root = tree.get_root().unwrap();
    assert_eq!(CalcParseToken::OpenParen, tree.node_at(root).unwrap().value.token_type);
    assert_eq!(vec!["1", "2", "+", "("], postorder_texts(&tree));
}

#[test]
fn build_error_lone_close_paren() {
    assert_eq!(BuildError::UnmatchedCloseParen, Calculator::build_calc_eval_tree(")").err().unwrap());
    assert_eq!(BuildError::UnmatchedCloseParen, Calculator::build_calc_eval_tree("1+2)").err().unwrap());
}

#[test]
fn build_error_each_adjacency_rule() {
    assert_eq!(BuildError::UnknownToken, Calculator::build_calc_eval_tree("1.2.3").err().unwrap());
    assert_eq!(BuildError::LeadingOperator, Calculator::build_calc_eval_tree("*2").err().unwrap());
    assert_eq!(BuildError::OperatorAfterOpenParen, Calculator::build_calc_eval_tree("(+1)").err().unwrap());
    assert_eq!(BuildError::ValueAfterCloseParen, Calculator::build_calc_eval_tree("(1)2").err().unwrap());
    assert_eq!(BuildError::OpenParenAfterValue, Calculator::build_calc_eval_tree("1(2)").err().unwrap());
    assert_eq!(BuildError::OpenParenAfterCloseParen, Calculator::build_calc_eval_tree("(1)(2)").err().unwrap());
}

#[test]
fn build_close_paren_keeps_index() {
    let tree = Calculator::build_calc_eval_tree("(7)").unwrap();
    assert_eq!(Some(0), tree.get_root());
    let node = tree.node_at(0).unwrap();
    assert_eq!(CalcParseToken::CloseParen, node.value.token_type);
    assert_eq!(")", node.value.string_value);
    assert_eq!(Some(1), node.get_left());
}

#[test]
fn postorder_length_matches_tokens_and_repeats() {
    for calc in ["1 + 2 * 3 + 4", "((1+2)*(3+4))/5", "(1+2", "7", "1-(-1)"] {
        let tokens = Calculator::parse_calc_to_tokens(calc);
        let closes = tokens.iter().filter(|t| t.as_str() == ")").count();
        let tree = Calculator::build_calc_eval_tree(calc).unwrap();
        let first = postorder_texts(&tree);
        let second = postorder_texts(&tree);
        assert_eq!(tokens.len() - closes, first.len());
        assert_eq!(first, second);
    }
}

#[test]
fn eval_item_new_copies_text() {
    let item = CalcEvalItem::new(CalcParseToken::Value, "42");
    assert_eq!(CalcParseToken::Value, item.token_type);
    assert_eq!("42", item.string_value);
}

#[test]
fn error_descriptions_name_the_rule() {
    assert_eq!(
        "cannot have two consecutive operators: expected a value or open paren",
        BuildError::ConsecutiveOperators.description()
    );
    assert_eq!(
        "no corresponding open paren token found for the new close paren",
        BuildError::UnmatchedCloseParen.description()
    );
}

#[test]
fn expression_chars() {
    assert!(rust_calc_term::calc::is_expression_char(' '));
    assert!(rust_calc_term::calc::is_expression_char('('));
    assert!(!rust_calc_term::calc::is_expression_char('x'));
}
