use rust_calc_term::calc::{CalcJumpToken, Calculator};
use rust_calc_term::editor::CalcKey;

fn editor(text: &str, pos: u16) -> Calculator {
    Calculator { calc: text.chars().collect(), calc_pos: pos, selected_calc: 0, selected_equals: false }
}

fn text(c: &Calculator) -> String {
    c.calc.iter().collect()
}

#[test]
fn insert_and_delete_at_cursor() {
    let mut c = editor("13", 1);
    c.selected_calc = 2;
    c.append_key_to_calc(&CalcKey::Key('2'));
    assert_eq!("123", text(&c));
    assert_eq!(2, c.calc_pos);
    assert_eq!(0, c.selected_calc);
    c.append_key_to_calc(&CalcKey::Delete);
    assert_eq!("13", text(&c));
    assert_eq!(1, c.calc_pos);
    c.calc_pos = 0;
    c.append_key_to_calc(&CalcKey::Delete);
    assert_eq!("13", text(&c));
    assert_eq!(0, c.calc_pos);
}

#[test]
fn single_steps_and_ends() {
    let mut c = editor("12", 0);
    c.move_cursor_left();
    assert_eq!(0, c.calc_pos);
    c.move_cursor_right();
    c.move_cursor_right();
    c.move_cursor_right();
    assert_eq!(2, c.calc_pos);
    c.move_cursor_home();
    assert_eq!(0, c.calc_pos);
    c.move_cursor_end();
    assert_eq!(2, c.calc_pos);
    c.selected_calc = 1;
    c.move_cursor_right();
    assert!(c.selected_equals);
    assert_eq!(2, c.calc_pos);
    c.move_cursor_left();
    assert!(!c.selected_equals);
}

#[test]
fn jump_left_over_runs() {
    let mut c = editor("12+345", 6);
    c.move_cursor_left_token();
    assert_eq!(3, c.calc_pos);
    c.move_cursor_left_token();
    assert_eq!(2, c.calc_pos);
    c.move_cursor_left_token();
    assert_eq!(1, c.calc_pos);
    c.move_cursor_left_token();
    assert_eq!(0, c.calc_pos);
}

#[test]
fn jump_right_over_runs() {
    let mut c = editor("12+345", 0);
    c.move_cursor_right_token();
    assert_eq!(1, c.calc_pos);
    c.move_cursor_right_token();
    assert_eq!(2, c.calc_pos);
    c.move_cursor_right_token();
    assert_eq!(3, c.calc_pos);
    c.move_cursor_right_token();
    assert_eq!(5, c.calc_pos);
    c.move_cursor_right_token();
    assert_eq!(5, c.calc_pos);
}

#[test]
fn token_type_at_position() {
    let c = editor("1 .", 0);
    assert_eq!(Some(CalcJumpToken::Digit), c.get_token_type_at_pos(0));
    assert_eq!(Some(CalcJumpToken::Space), c.get_token_type_at_pos(1));
    assert_eq!(Some(CalcJumpToken::Dot), c.get_token_type_at_pos(2));
    assert_eq!(None, c.get_token_type_at_pos(3));
}
