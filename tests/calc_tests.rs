use rust_calc_term::calc::{CalcParseToken, Calculator};
use rust_calc_term::tree::PostOrderIter;

#[test]
fn tokenize_empty() {
    assert_eq!(Vec::<String>::new(), Calculator::parse_calc_to_tokens(""));
}

#[test]
fn tokenize_only_space() {
    assert_eq!(Vec::<String>::new(), Calculator::parse_calc_to_tokens("  "));
}

#[test]
fn tokenize_operator() {
    assert_eq!(vec!["1", "+", "2"], Calculator::parse_calc_to_tokens("1 + 2"));
}

#[test]
fn tokenize_multichar_value() {
    assert_eq!(vec!["123"], Calculator::parse_calc_to_tokens("123"));
}

#[test]
fn tokenize_decimal() {
    assert_eq!(vec!["123.456", "*", "0.789"], Calculator::parse_calc_to_tokens("123.456 * 0.789"));
}

#[test]
fn tokenize_negative_only() {
    assert_eq!(vec!["-123.456"], Calculator::parse_calc_to_tokens("-123.456"));
}

#[test]
fn tokenize_negative_value() {
    assert_eq!(vec!["1", "-", "-1"], Calculator::parse_calc_to_tokens("1 - -1"));
}

#[test]
fn tokenize_paren_negative_value() {
    assert_eq!(vec!["1", "-", "(", "-1", ")"], Calculator::parse_calc_to_tokens("1 - (-1)"));
}

#[test]
fn tokenize_paren_then_subtract() {
    assert_eq!(vec!["(", "1", ")", "-", "1"], Calculator::parse_calc_to_tokens("(1)-1"));
}

#[test]
fn tokenize_nested_paren() {
    assert_eq!(vec!["(","(","1","*","2",")","*","3",")"], Calculator::parse_calc_to_tokens("((1*2)*3)"));
}

#[test]
fn tokenize_not_starting_nested_paren() {
    assert_eq!(vec!["1","+","(","(","2",")",")"], Calculator::parse_calc_to_tokens("1+((2))"));
}

#[test]
fn tokenize_double_plus() {
    assert_eq!(vec!["1","+","+","2"], Calculator::parse_calc_to_tokens("1++2"));
}

#[test]
fn tokenize_double_times() {
    assert_eq!(vec!["1","*","*","2"], Calculator::parse_calc_to_tokens("1**2"));
}

#[test]
fn tokenize_double_divide() {
    assert_eq!(vec!["1","/","/","2"], Calculator::parse_calc_to_tokens("1//2"));
}

#[test]
fn tokenize_minus_plus() {
    assert_eq!(vec!["1","-","+","2"], Calculator::parse_calc_to_tokens("1-+2"));
}

#[test]
fn tokenize_multiply_divide() {
    assert_eq!(vec!["1","*","/","2"], Calculator::parse_calc_to_tokens("1*/2"));
}

#[test]
fn get_char_token_digit() {
    for c in "0123456789".chars() {
        assert_eq!(CalcParseToken::Value, CalcParseToken::get_token_matching_char(c).unwrap());
    }
}

#[test]
fn get_char_token_operator() {
    for c in "+-*/".chars() {
        assert_eq!(CalcParseToken::Operator, CalcParseToken::get_token_matching_char(c).unwrap());
    }
}

#[test]
fn get_char_token_open_paren() {
    assert_eq!(CalcParseToken::OpenParen, CalcParseToken::get_token_matching_char('(').unwrap());
}

#[test]
fn get_char_token_close_paren() {
    assert_eq!(CalcParseToken::CloseParen, CalcParseToken::get_token_matching_char(')').unwrap());
}

#[test]
fn get_char_token_invalid() {
    for c in "abc!$,=".chars() {
        assert_eq!(None, CalcParseToken::get_token_matching_char(c));
    }
}

#[test]
fn get_str_token_digit() {
    for c in "0123456789".chars() {
        assert_eq!(CalcParseToken::Value, CalcParseToken::get_token_matching_str(&String::from(c)).unwrap());
    }
}

#[test]
fn get_str_token_operator() {
    for c in "+-*/".chars() {
        assert_eq!(CalcParseToken::Operator, CalcParseToken::get_token_matching_str(&String::from(c)).unwrap());
    }
}

#[test]
fn get_str_token_open_paren() {
    assert_eq!(CalcParseToken::OpenParen, CalcParseToken::get_token_matching_str("(").unwrap());
}

#[test]
fn get_str_token_close_paren() {
    assert_eq!(CalcParseToken::CloseParen, CalcParseToken::get_token_matching_str(")").unwrap());
}

#[test]
fn get_str_token_integer() {
    assert_eq!(CalcParseToken::Value, CalcParseToken::get_token_matching_str("123").unwrap());
}

#[test]
fn get_str_token_negative_integer() {
    assert_eq!(CalcParseToken::Value, CalcParseToken::get_token_matching_str("-456").unwrap());
}

#[test]
fn get_str_token_decimal() {
    assert_eq!(CalcParseToken::Value, CalcParseToken::get_token_matching_str("3.14").unwrap());
}

#[test]
fn get_str_token_negative_decimal() {
    assert_eq!(CalcParseToken::Value, CalcParseToken::get_token_matching_str("-3.14").unwrap());
}

#[test]
fn get_str_token_zero_decimal() {
    assert_eq!(CalcParseToken::Value, CalcParseToken::get_token_matching_str("0.42").unwrap());
}

#[test]
fn get_str_token_negative_zero_decimal() {
    assert_eq!(CalcParseToken::Value, CalcParseToken::get_token_matching_str("-0.42").unwrap());
}

#[test]
fn get_str_token_just_decimal() {
    assert_eq!(CalcParseToken::Value, CalcParseToken::get_token_matching_str(".25").unwrap());
}

#[test]
fn get_str_token_contains_open_paren() {
    assert_eq!(None, CalcParseToken::get_token_matching_str("(10"));
}

#[test]
fn get_str_token_contains_close_paren() {
    assert_eq!(None, CalcParseToken::get_token_matching_str("10)"));
}

#[test]
fn get_str_token_negative_just_decimal() {
    assert_eq!(CalcParseToken::Value, CalcParseToken::get_token_matching_str("-.25").unwrap());
}

#[test]
fn get_str_token_two_decimals() {
    assert_eq!(None, CalcParseToken::get_token_matching_str("5.2.5"));
}

#[test]
fn get_str_token_negative_two_decimals() {
    assert_eq!(None, CalcParseToken::get_token_matching_str("-.2.5"));
}

#[test]
fn get_str_token_two_negatives() {
    assert_eq!(None, CalcParseToken::get_token_matching_str("-2-5"));
}

#[test]
fn build_tree_add() {
    let tree = Calculator::build_calc_eval_tree("123 + 456").unwrap();
    let mut output = Vec::<&str>::new();
    let mut postorder = PostOrderIter::new(&tree);
    while let Some(index) = postorder.next() {
        let node = tree.node_at(index).expect("Node does not exist at given index");
        output.push(&node.value.string_value);
    }
    assert_eq!(vec!["123","456","+"], output);
}

#[test]
fn build_tree_multiply() {
    let tree = Calculator::build_calc_eval_tree("123 * 456").unwrap();
    let mut output = Vec::<&str>::new();
    let mut postorder = PostOrderIter::new(&tree);
    while let Some(index) = postorder.next() {
        let node = tree.node_at(index).expect("Node does not exist at given index");
        output.push(&node.value.string_value);
    }
    assert_eq!(vec!["123","456","*"], output);
}

#[test]
fn build_tree_add_three() {
    let tree = Calculator::build_calc_eval_tree("123 + 456 + 789").unwrap();
    let mut output = Vec::<&str>::new();
    let mut postorder = PostOrderIter::new(&tree);
    while let Some(index) = postorder.next() {
        let node = tree.node_at(index).expect("Node does not exist at given index");
        output.push(&node.value.string_value);
    }
    assert_eq!(vec!["123","456","+","789","+"], output);
}

#[test]
fn build_tree_add_then_multiply() {
    let tree = Calculator::build_calc_eval_tree("123 + 456 * 789").unwrap();
    let mut output = Vec::<&str>::new();
    let mut postorder = PostOrderIter::new(&tree);
    while let Some(index) = postorder.next() {
        let node = tree.node_at(index).expect("Node does not exist at given index");
        output.push(&node.value.string_value);
    }
    assert_eq!(vec!["123","456","789","*","+"], output);
}

#[test]
fn build_tree_add_multiply_add() {
    let tree = Calculator::build_calc_eval_tree("1 + 2 * 3 + 4").unwrap();
    let mut output = Vec::<&str>::new();
    let mut postorder = PostOrderIter::new(&tree);
    while let Some(index) = postorder.next() {
        let node = tree.node_at(index).expect("Node does not exist at given index");
        output.push(&node.value.string_value);
    }
    assert_eq!(vec!["1","2","3","*","+","4","+"], output);
}

#[test]
fn build_tree_multiply_add_multiply() {
    let tree = Calculator::build_calc_eval_tree("1 * 2 + 3 * 4").unwrap();
    let mut output = Vec::<&str>::new();
    let mut postorder = PostOrderIter::new(&tree);
    while let Some(index) = postorder.next() {
        let node = tree.node_at(index).expect("Node does not exist at given index");
        output.push(&node.value.string_value);
    }
    assert_eq!(vec!["1","2","*","3","4","*","+"], output);
}

#[test]
fn build_tree_multiply_multiply_multiply() {
    let tree = Calculator::build_calc_eval_tree("1 * 2 * 3 * 4").unwrap();
    let mut output = Vec::<&str>::new();
    let mut postorder = PostOrderIter::new(&tree);
    while let Some(index) = postorder.next() {
        let node = tree.node_at(index).expect("Node does not exist at given index");
        output.push(&node.value.string_value);
    }
    assert_eq!(vec!["1","2","3","4","*","*","*"], output);
}

#[test]
fn build_tree_paren_add() {
    let tree = Calculator::build_calc_eval_tree("(1 + 2").unwrap();
    let mut output = Vec::<&str>::new();
    let mut postorder = PostOrderIter::new(&tree);
    while let Some(index) = postorder.next() {
        let node = tree.node_at(index).expect("Node does not exist at given index");
        output.push(&node.value.string_value);
    }
    assert_eq!(vec!["1","2","+","("], output);
}

#[test]
fn build_tree_two_parens_then_multiply() {
    let tree = Calculator::build_calc_eval_tree("(1+2) + (3+4)*5").unwrap();
    let mut output = Vec::<&str>::new();
    let mut postorder = PostOrderIter::new(&tree);
    while let Some(index) = postorder.next() {
        let node = tree.node_at(index).expect("Node does not exist at given index");
        output.push(&node.value.string_value);
    }
    assert_eq!(vec!["1","2","+",")","3","4","+",")","5","*","+"], output);
}

#[test]
fn build_tree_nested_parens() {
    let tree = Calculator::build_calc_eval_tree("((1+2)*(3+4))/5").unwrap();
    let mut output = Vec::<&str>::new();
    let mut postorder = PostOrderIter::new(&tree);
    while let Some(index) = postorder.next() {
        let node = tree.node_at(index).expect("Node does not exist at given index");
        output.push(&node.value.string_value);
    }
    assert_eq!(vec!["1","2","+",")","3","4","+",")","*",")","5","/"], output);
}
