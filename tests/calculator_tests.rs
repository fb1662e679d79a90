use calculator::{format_number, CalcApp, Decimal};

#[test]
fn test_input_digit() {
    let mut app = CalcApp::new();
    assert_eq!(app.display, "0");

    app.input_digit('5');
    assert_eq!(app.display, "5");

    app.input_digit('3');
    assert_eq!(app.display, "53");
}

#[test]
fn test_input_digit_replaces_zero() {
    let mut app = CalcApp::new();
    app.input_digit('7');
    assert_eq!(app.display, "7");
}

#[test]
fn test_input_dot() {
    let mut app = CalcApp::new();
    app.input_dot();
    assert_eq!(app.display, "0.");

    app.input_digit('5');
    assert_eq!(app.display, "0.5");

    // A second point is not added.
    app.input_dot();
    assert_eq!(app.display, "0.5");
}

#[test]
fn test_addition() {
    let mut app = CalcApp::new();
    app.input_digit('2');
    app.input_operator('+');
    assert_eq!(app.first_operand, Some(Decimal::new(2, 0)));
    assert_eq!(app.operator, Some('+'));

    app.input_digit('3');
    app.compute();
    assert_eq!(app.display, "5");
}

#[test]
fn test_subtraction() {
    let mut app = CalcApp::new();
    app.input_digit('1');
    app.input_digit('0');
    app.input_operator('-');

    app.input_digit('3');
    app.compute();
    assert_eq!(app.display, "7");
}

#[test]
fn test_multiplication() {
    let mut app = CalcApp::new();
    app.input_digit('4');
    app.input_operator('*');

    app.input_digit('5');
    app.compute();
    assert_eq!(app.display, "20");
}

#[test]
fn test_division() {
    let mut app = CalcApp::new();
    app.input_digit('2');
    app.input_digit('0');
    app.input_operator('/');

    app.input_digit('4');
    app.compute();
    assert_eq!(app.display, "5");
}

#[test]
fn test_division_by_zero() {
    let mut app = CalcApp::new();
    app.input_digit('1');
    app.input_operator('/');

    app.input_digit('0');
    app.compute();
    assert_eq!(app.display, "Error");
    assert_eq!(app.expression, "Cannot divide by zero");
}

#[test]
fn test_clear() {
    let mut app = CalcApp::new();
    app.input_digit('5');
    app.input_operator('+');
    app.clear();

    assert_eq!(app.display, "0");
    assert_eq!(app.expression, "");
    assert_eq!(app.first_operand, None);
    assert_eq!(app.operator, None);
}

#[test]
fn test_clear_entry() {
    let mut app = CalcApp::new();
    app.input_digit('5');
    app.clear_entry();
    assert_eq!(app.display, "0");
}

#[test]
fn test_backspace() {
    let mut app = CalcApp::new();
    app.input_digit('5');
    app.input_digit('3');
    app.backspace();
    assert_eq!(app.display, "5");

    app.backspace();
    assert_eq!(app.display, "0");
}

#[test]
fn test_toggle_sign_positive() {
    let mut app = CalcApp::new();
    app.input_digit('5');
    app.toggle_sign();
    assert_eq!(app.display, "-5");
}

#[test]
fn test_toggle_sign_negative() {
    let mut app = CalcApp::new();
    app.input_digit('5');
    app.toggle_sign();
    app.toggle_sign();
    assert_eq!(app.display, "5");
}

#[test]
fn test_toggle_sign_on_zero_does_nothing() {
    let mut app = CalcApp::new();
    app.toggle_sign();
    assert_eq!(app.display, "0");
}

#[test]
fn test_percent() {
    let mut app = CalcApp::new();
    app.input_digit('5');
    app.input_digit('0');
    app.percent();
    assert_eq!(app.display, "0.5");
}

#[test]
fn test_format_number_integer() {
    // 42.0 and -15.0
    assert_eq!(format_number(Decimal::new(42, 0)), "42");
    assert_eq!(format_number(Decimal::new(-15, 0)), "-15");
}

#[test]
fn test_format_number_decimal() {
    // 3.14 and 0.5
    assert_eq!(format_number(Decimal::new(314, 2)), "3.14");
    assert_eq!(format_number(Decimal::new(5, 1)), "0.5");
}

#[test]
fn test_format_number_trailing_zeros() {
    // 1.5000 and 2.0
    assert_eq!(format_number(Decimal::new(15000, 4)), "1.5");
    assert_eq!(format_number(Decimal::new(20, 1)), "2");
}

#[test]
fn test_format_number_large_number() {
    assert_eq!(format_number(Decimal::new(1000000, 0)), "1000000");
}

#[test]
fn test_chained_operations() {
    let mut app = CalcApp::new();
    // 2 + 3 * 4 is folded left to right: (2 + 3) * 4 = 20
    app.input_digit('2');
    app.input_operator('+');
    app.input_digit('3');
    app.compute();
    assert_eq!(app.display, "5");

    app.input_operator('*');
    app.input_digit('4');
    app.compute();
    assert_eq!(app.display, "20");
}

#[test]
fn test_basic_addition() {
    let mut app = CalcApp::new();
    app.input_digit('5');
    app.input_operator('+');
    app.input_digit('3');
    app.compute();
    assert_eq!(app.display, "8");
}

#[test]
fn test_advanced_calculation() {
    let mut app = CalcApp::new();
    // 100 - 25 = 75
    app.input_digit('1');
    app.input_digit('0');
    app.input_digit('0');
    app.input_operator('-');
    app.input_digit('2');
    app.input_digit('5');
    app.compute();
    assert_eq!(app.display, "75");
}

#[test]
fn test_multiple_operations() {
    let mut app = CalcApp::new();
    // 10 + 5 - 3 = 12
    app.input_digit('1');
    app.input_digit('0');
    app.input_operator('+');
    app.input_digit('5');
    app.compute();
    assert_eq!(app.display, "15");

    app.input_operator('-');
    app.input_digit('3');
    app.compute();
    assert_eq!(app.display, "12");
}
