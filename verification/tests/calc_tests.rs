use calc_core::calc::CalculatorState;

#[test]
fn test_case_1_add() {
    // 12 + 3 = -> 15
    let mut state = CalculatorState::new();
    state.handle_input("1");
    state.handle_input("2");
    state.handle_input("+");
    state.handle_input("3");
    state.handle_input("=");
    assert_eq!(state.current, "15");
}

#[test]
fn test_case_2_multiply_by_zero() {
    // 5 × 0 = -> 0
    let mut state = CalculatorState::new();
    state.handle_input("5");
    state.handle_input("x");
    state.handle_input("0");
    state.handle_input("=");
    assert_eq!(state.current, "0");
}

#[test]
fn test_case_3_div_by_zero() {
    // 9 ÷ 0 = -> Error
    let mut state = CalculatorState::new();
    state.handle_input("9");
    state.handle_input("÷");
    state.handle_input("0");
    state.handle_input("=");
    assert_eq!(state.current, "Error");
    // lock
    state.handle_input("+");
    assert_eq!(state.current, "Error");
    // unlock
    state.handle_input("C");
    assert_eq!(state.current, "0");
    state.handle_input("CE");
    assert_eq!(state.current, "0");
}

#[test]
fn test_case_4_invalid_decimal() {
    // 1 . . 5 + 2 = -> 3.5
    let mut state = CalculatorState::new();
    state.handle_input("1");
    state.handle_input(".");
    state.handle_input("."); // Ignored
    state.handle_input("5");
    state.handle_input("+");
    state.handle_input("2");
    state.handle_input("=");
    assert_eq!(state.current, "3.5");
}

#[test]
fn test_case_5_repeat_equals() {
    // 5 + 2 = = -> 9
    let mut state = CalculatorState::new();
    state.handle_input("5");
    state.handle_input("+");
    state.handle_input("2");
    state.handle_input("="); // 7
    assert_eq!(state.current, "7");
    state.handle_input("="); // 9
    assert_eq!(state.current, "9");
}

#[test]
fn test_case_6_backspace() {
    // 10 ← ← -> 1
    let mut state = CalculatorState::new();
    state.handle_input("1");
    state.handle_input("0");
    state.handle_input("←");
    assert_eq!(state.current, "1");
    state.handle_input("←");
    assert_eq!(state.current, "0");
}

#[test]
fn digits_concatenate_from_start() {
    let mut state = CalculatorState::new();
    state.handle_input("1");
    state.handle_input("2");
    state.handle_input("3");
    assert_eq!(state.current, "123");
}

#[test]
fn leading_zero_collapses() {
    let mut state = CalculatorState::new();
    state.handle_input("0");
    state.handle_input("0");
    state.handle_input("7");
    assert_eq!(state.current, "7");
}

#[test]
fn digits_concatenate_after_equals() {
    let mut state = CalculatorState::new();
    state.handle_input("5");
    state.handle_input("+");
    state.handle_input("2");
    state.handle_input("=");
    state.handle_input("4");
    state.handle_input("2");
    assert_eq!(state.current, "42");
    assert_eq!(state.history, "");
}

#[test]
fn chained_operators_associate_left() {
    // 2 + 3 x 4 = -> (2 + 3) x 4 = 20, no precedence
    let mut state = CalculatorState::new();
    state.handle_input("2");
    state.handle_input("+");
    state.handle_input("3");
    state.handle_input("x");
    assert_eq!(state.current, "0");
    assert_eq!(state.history, "5 x");
    state.handle_input("4");
    state.handle_input("=");
    assert_eq!(state.current, "20");
}

#[test]
fn repeat_equals_with_subtraction() {
    let mut state = CalculatorState::new();
    state.handle_input("9");
    state.handle_input("−");
    state.handle_input("2");
    state.handle_input("=");
    assert_eq!(state.current, "7");
    state.handle_input("=");
    assert_eq!(state.current, "5");
    state.handle_input("=");
    assert_eq!(state.current, "3");
}

#[test]
fn clear_entry_preserves_pending_operation() {
    // 5 ÷ 0 + locks; CE unlocks but keeps the pending division by 5
    let mut state = CalculatorState::new();
    state.handle_input("5");
    state.handle_input("÷");
    state.handle_input("0");
    state.handle_input("+");
    assert_eq!(state.current, "Error");
    state.handle_input("CE");
    assert_eq!(state.current, "0");
    state.handle_input("2");
    state.handle_input("=");
    assert_eq!(state.current, "2.5");
}

#[test]
fn decimal_point_is_idempotent() {
    let mut state = CalculatorState::new();
    state.handle_input("5");
    state.handle_input(".");
    state.handle_input(".");
    state.handle_input(".");
    assert_eq!(state.current, "5.");
    state.handle_input("5");
    assert_eq!(state.current, "5.5");
}

#[test]
fn backspace_on_fresh_display() {
    let mut state = CalculatorState::new();
    state.handle_input("←");
    assert_eq!(state.current, "0");
}

#[test]
fn toggle_sign_round_trip() {
    let mut state = CalculatorState::new();
    state.handle_input("5");
    state.handle_input("±");
    assert_eq!(state.current, "-5");
    state.handle_input("±");
    assert_eq!(state.current, "5");
}

#[test]
fn toggle_sign_on_zero_is_ignored() {
    let mut state = CalculatorState::new();
    state.handle_input("±");
    assert_eq!(state.current, "0");
}

#[test]
fn unknown_token_is_ignored() {
    let mut state = CalculatorState::new();
    state.handle_input("5");
    state.handle_input("what");
    assert_eq!(state.current, "5");
}

#[test]
fn history_trail_for_one_evaluation() {
    let mut state = CalculatorState::new();
    state.handle_input("5");
    state.handle_input("+");
    assert_eq!(state.history, "5 +");
    state.handle_input("2");
    state.handle_input("=");
    assert_eq!(state.history, "5 + 2 =");
    assert_eq!(state.current, "7");
}

#[test]
fn repeat_equals_history_trail() {
    let mut state = CalculatorState::new();
    state.handle_input("5");
    state.handle_input("+");
    state.handle_input("2");
    state.handle_input("=");
    state.handle_input("=");
    assert_eq!(state.history, "7 + 2=");
    assert_eq!(state.current, "9");
}

#[test]
fn division_yields_exact_decimal() {
    let mut state = CalculatorState::new();
    state.handle_input("7");
    state.handle_input("÷");
    state.handle_input("2");
    state.handle_input("=");
    assert_eq!(state.current, "3.5");
}

#[test]
fn division_truncates_repeating_fraction() {
    let mut state = CalculatorState::new();
    state.handle_input("1");
    state.handle_input("÷");
    state.handle_input("3");
    state.handle_input("=");
    assert_eq!(state.current, "0.33333333333333333333");
}

#[test]
fn subtraction_below_zero() {
    let mut state = CalculatorState::new();
    state.handle_input("2");
    state.handle_input("−");
    state.handle_input("5");
    state.handle_input("=");
    assert_eq!(state.current, "-3");
}

#[test]
fn decimal_addition_is_exact() {
    let mut state = CalculatorState::new();
    state.handle_input("0");
    state.handle_input(".");
    state.handle_input("1");
    state.handle_input("+");
    state.handle_input("0");
    state.handle_input(".");
    state.handle_input("2");
    state.handle_input("=");
    assert_eq!(state.current, "0.3");
}

#[test]
fn equals_without_context_does_nothing() {
    let mut state = CalculatorState::new();
    state.handle_input("4");
    state.handle_input("=");
    assert_eq!(state.current, "4");
    assert_eq!(state.history, "");
}

#[test]
fn toggle_sign_on_bare_minus_falls_back_to_zero() {
    // 5 ± ← leaves a bare "-"; toggling parses it as zero and shows "0"
    let mut state = CalculatorState::new();
    state.handle_input("5");
    state.handle_input("±");
    state.handle_input("←");
    assert_eq!(state.current, "-");
    state.handle_input("±");
    assert_eq!(state.current, "0");
}
