use calculator::{
    format_number, history_text, parse_decimal, parse_history, CalcApp, Decimal, HistoryEntry,
    MAX_HISTORY,
};

fn type_keys(app: &mut CalcApp, keys: &str) {
    for c in keys.chars() {
        match c {
            '0'..='9' => app.input_digit(c),
            '.' => app.input_dot(),
            '+' | '-' | '*' | '/' => app.input_operator(c),
            '=' => app.compute(),
            _ => panic!("no such key"),
        }
    }
}

fn entry(expression: &str, result: &str) -> HistoryEntry {
    HistoryEntry::new(expression.to_string(), result.to_string())
}

fn pairs(history: &[HistoryEntry]) -> Vec<(String, String)> {
    history.iter().map(|e| (e.expression.clone(), e.result.clone())).collect()
}

#[test]
fn leading_zeros_collapse() {
    let mut app = CalcApp::new();
    type_keys(&mut app, "007");
    assert_eq!(app.display, "7");
    type_keys(&mut app, "0");
    assert_eq!(app.display, "70");
}

#[test]
fn only_zeros_show_zero() {
    let mut app = CalcApp::new();
    type_keys(&mut app, "000");
    assert_eq!(app.display, "0");
}

#[test]
fn second_point_is_ignored() {
    let mut app = CalcApp::new();
    app.input_dot();
    app.input_dot();
    assert_eq!(app.display, "0.");
    type_keys(&mut app, "12");
    app.input_dot();
    assert_eq!(app.display, "0.12");
}

#[test]
fn point_after_operator_starts_second_operand() {
    let mut app = CalcApp::new();
    type_keys(&mut app, "3*.5=");
    assert_eq!(app.display, "1.5");
    assert_eq!(app.expression, "3 \u{00D7} 0.5 =");
}

#[test]
fn compute_traces_and_logs() {
    let mut app = CalcApp::new();
    type_keys(&mut app, "7/2=");
    assert_eq!(app.display, "3.5");
    assert_eq!(app.expression, "7 \u{00F7} 2 =");
    assert_eq!(pairs(&app.history), vec![("7 \u{00F7} 2".to_string(), "3.5".to_string())]);
    assert_eq!(app.first_operand, None);
    assert!(app.just_computed);
}

#[test]
fn division_rounds_to_ten_places() {
    let mut app = CalcApp::new();
    type_keys(&mut app, "1/3=");
    assert_eq!(app.display, "0.3333333333");
    let mut app = CalcApp::new();
    type_keys(&mut app, "2/3=");
    assert_eq!(app.display, "0.6666666667");
}

#[test]
fn decimal_sums_are_exact() {
    let mut app = CalcApp::new();
    type_keys(&mut app, ".1+.2=");
    assert_eq!(app.display, "0.3");
}

#[test]
fn large_product_keeps_all_digits() {
    let mut app = CalcApp::new();
    type_keys(&mut app, "123456789*123456789=");
    assert_eq!(app.display, "15241578750190521");
}

#[test]
fn large_product_shows_all_digits() {
    let mut app = CalcApp::new();
    type_keys(&mut app, "1000000000*1000000000=");
    assert_eq!(app.display, "1000000000000000000");
    assert_eq!(
        pairs(&app.history),
        vec![("1000000000 \u{00D7} 1000000000".to_string(), "1000000000000000000".to_string())]
    );
    type_keys(&mut app, "*1000=");
    assert_eq!(app.display, "1000000000000000000000");
}

#[test]
fn square_of_billion() {
    let mut app = CalcApp::new();
    type_keys(&mut app, "1000000000");
    app.square();
    assert_eq!(app.display, "1000000000000000000");
}

#[test]
fn long_display_is_recorded_as_operand() {
    let mut app = CalcApp::new();
    type_keys(&mut app, "1000000000000000000+");
    assert_eq!(app.first_operand, Some(Decimal { mantissa: 1, exponent: 18 }));
    assert_eq!(app.expression, "1000000000000000000 +");
    type_keys(&mut app, "1=");
    assert_eq!(app.display, "1000000000000000000");
}

#[test]
fn long_display_rounds_to_eighteen_digits() {
    let mut app = CalcApp::new();
    type_keys(&mut app, "1234567890123456789012345");
    app.percent();
    assert_eq!(app.display, "12345678901234567900000");
}

#[test]
fn tiny_zero_divisor_still_divides_by_zero() {
    let mut app = CalcApp::new();
    type_keys(&mut app, "7/0.0000000000000000000000=");
    assert_eq!(app.display, "Error");
    assert_eq!(app.expression, "Cannot divide by zero");
    assert!(app.just_computed);
}

#[test]
fn reciprocal_of_tiny_number() {
    let mut app = CalcApp::new();
    type_keys(&mut app, "0.000000000000000001");
    app.reciprocal();
    assert_eq!(app.display, "1000000000000000000");
}

#[test]
fn sum_with_far_smaller_term_is_exact() {
    let mut app = CalcApp::new();
    type_keys(&mut app, "1+0.0000123456789012345678=");
    assert_eq!(app.display, "1.0000123457");
    let mut app = CalcApp::new();
    type_keys(&mut app, "1-0.0000123456789012345678=");
    assert_eq!(app.display, "0.9999876543");
}

#[test]
fn sum_of_large_numbers_keeps_eighteen_digits() {
    let mut app = CalcApp::new();
    type_keys(&mut app, "123456789012345678000+1=");
    assert_eq!(app.display, "123456789012345678000");
}

#[test]
fn result_beyond_float_range_is_error() {
    let mut app = CalcApp::new();
    app.input_digit('1');
    for _ in 0..160 {
        app.input_digit('0');
    }
    app.square();
    assert_eq!(app.display, "Error");
}

#[test]
fn square_root_of_large_number() {
    let mut app = CalcApp::new();
    type_keys(&mut app, "1000000000000000000");
    app.square_root();
    assert_eq!(app.display, "1000000000");
    let mut app = CalcApp::new();
    type_keys(&mut app, "2.25");
    app.square_root();
    assert_eq!(app.display, "1.5");
}

#[test]
fn division_by_zero_is_not_logged() {
    let mut app = CalcApp::new();
    type_keys(&mut app, "5/0=");
    assert_eq!(app.display, "Error");
    assert!(app.history.is_empty());
}

#[test]
fn digit_after_error_starts_over() {
    let mut app = CalcApp::new();
    type_keys(&mut app, "5/0=");
    app.input_digit('4');
    assert_eq!(app.display, "4");
    assert_eq!(app.expression, "");
}

#[test]
fn operator_on_error_does_nothing() {
    let mut app = CalcApp::new();
    type_keys(&mut app, "5/0=");
    app.input_operator('+');
    assert_eq!(app.display, "Error");
    assert_eq!(app.operator, None);
}

#[test]
fn operator_completes_pending_operation() {
    let mut app = CalcApp::new();
    type_keys(&mut app, "2+3+");
    assert_eq!(app.display, "5");
    assert_eq!(app.expression, "5 +");
    assert_eq!(app.first_operand, Some(Decimal::new(5, 0)));
    type_keys(&mut app, "4=");
    assert_eq!(app.display, "9");
}

#[test]
fn operator_chain_stops_on_division_by_zero() {
    let mut app = CalcApp::new();
    type_keys(&mut app, "8/0*");
    assert_eq!(app.display, "Error");
    assert_eq!(app.expression, "Cannot divide by zero");
    assert_eq!(app.operator, None);
}

#[test]
fn changing_operator_keeps_operand() {
    let mut app = CalcApp::new();
    type_keys(&mut app, "6+-");
    assert_eq!(app.operator, Some('-'));
    assert_eq!(app.expression, "6 -");
    type_keys(&mut app, "2=");
    assert_eq!(app.display, "4");
}

#[test]
fn negative_results() {
    let mut app = CalcApp::new();
    type_keys(&mut app, "3-10=");
    assert_eq!(app.display, "-7");
}

#[test]
fn backspace_single_character_gives_zero() {
    let mut app = CalcApp::new();
    app.input_digit('7');
    app.backspace();
    assert_eq!(app.display, "0");
    app.backspace();
    assert_eq!(app.display, "0");
}

#[test]
fn backspace_leaving_only_sign_gives_zero() {
    let mut app = CalcApp::new();
    app.input_digit('5');
    app.toggle_sign();
    app.backspace();
    assert_eq!(app.display, "0");
}

#[test]
fn backspace_after_result_does_nothing() {
    let mut app = CalcApp::new();
    type_keys(&mut app, "12+3=");
    app.backspace();
    assert_eq!(app.display, "15");
}

#[test]
fn toggle_sign_twice_restores() {
    let mut app = CalcApp::new();
    type_keys(&mut app, "2.50");
    app.toggle_sign();
    assert_eq!(app.display, "-2.50");
    app.toggle_sign();
    assert_eq!(app.display, "2.50");
}

#[test]
fn toggle_sign_on_error_does_nothing() {
    let mut app = CalcApp::new();
    type_keys(&mut app, "1/0=");
    app.toggle_sign();
    assert_eq!(app.display, "Error");
}

#[test]
fn percent_of_fraction() {
    let mut app = CalcApp::new();
    type_keys(&mut app, "12.5");
    app.percent();
    assert_eq!(app.display, "0.125");
}

#[test]
fn clear_entry_keeps_pending_operation() {
    let mut app = CalcApp::new();
    type_keys(&mut app, "9*4");
    app.clear_entry();
    assert_eq!(app.display, "0");
    type_keys(&mut app, "2=");
    assert_eq!(app.display, "18");
}

#[test]
fn clear_keeps_history() {
    let mut app = CalcApp::new();
    type_keys(&mut app, "1+1=");
    app.clear();
    assert_eq!(app.display, "0");
    assert_eq!(app.history.len(), 1);
}

#[test]
fn reciprocal_of_four() {
    let mut app = CalcApp::new();
    app.input_digit('4');
    app.reciprocal();
    assert_eq!(app.display, "0.25");
    assert_eq!(app.expression, "1/(4)");
    assert_eq!(pairs(&app.history), vec![("1/(4)".to_string(), "0.25".to_string())]);
}

#[test]
fn reciprocal_of_zero_is_error_and_recovers() {
    let mut app = CalcApp::new();
    app.reciprocal();
    assert_eq!(app.display, "Error");
    assert_eq!(app.expression, "Cannot divide by zero");
    assert!(app.history.is_empty());
    app.input_digit('7');
    assert_eq!(app.display, "7");
}

#[test]
fn square_of_twelve() {
    let mut app = CalcApp::new();
    type_keys(&mut app, "12");
    app.square();
    assert_eq!(app.display, "144");
    assert_eq!(app.expression, "sqr(12)");
}

#[test]
fn square_root_of_two() {
    let mut app = CalcApp::new();
    app.input_digit('2');
    app.square_root();
    assert_eq!(app.display, "1.4142135624");
    assert_eq!(app.expression, "\u{221A}(2)");
}

#[test]
fn square_root_of_sixteen() {
    let mut app = CalcApp::new();
    type_keys(&mut app, "16");
    app.square_root();
    assert_eq!(app.display, "4");
}

#[test]
fn square_root_of_negative_is_error() {
    let mut app = CalcApp::new();
    app.input_digit('4');
    app.toggle_sign();
    app.square_root();
    assert_eq!(app.display, "Error");
    assert_eq!(app.expression, "Invalid input");
    app.input_digit('3');
    assert_eq!(app.display, "3");
}

#[test]
fn history_keeps_ten_most_recent() {
    let mut app = CalcApp::new();
    for i in 0..11 {
        app.add_history(format!("e{}", i), format!("r{}", i));
    }
    assert_eq!(app.history.len(), MAX_HISTORY);
    let kept = pairs(&app.history);
    assert_eq!(kept[0], ("e1".to_string(), "r1".to_string()));
    assert_eq!(kept[9], ("e10".to_string(), "r10".to_string()));
    assert!(!kept.contains(&("e0".to_string(), "r0".to_string())));
}

#[test]
fn eleven_computations_keep_last_ten() {
    let mut app = CalcApp::new();
    for d in ['1', '2', '3', '4', '5', '6', '7', '8', '9', '1', '2'] {
        app.input_digit(d);
        app.input_operator('+');
        app.input_digit('1');
        app.compute();
    }
    assert_eq!(app.history.len(), 10);
    assert_eq!(app.history[0].expression, "2 + 1");
    assert_eq!(app.history[9].expression, "2 + 1");
    assert_eq!(app.history[8].result, "2");
}

#[test]
fn clear_history_empties_log() {
    let mut app = CalcApp::new();
    type_keys(&mut app, "2*2=");
    app.clear_history();
    assert!(app.history.is_empty());
    assert_eq!(app.display, "4");
}

#[test]
fn with_history_keeps_recent_entries() {
    let entries: Vec<HistoryEntry> = (0..12).map(|i| entry(&format!("x{}", i), "y")).collect();
    let app = CalcApp::with_history(entries);
    assert_eq!(app.history.len(), 10);
    assert_eq!(app.history[0].expression, "x2");
    assert_eq!(app.display, "0");
}

#[test]
fn history_text_joins_records() {
    let h = vec![entry("1 + 2", "3"), entry("4 \u{00D7} 5", "20")];
    assert_eq!(history_text(&h), "1 + 2\t3\n4 \u{00D7} 5\t20");
    assert_eq!(history_text(&Vec::new()), "");
}

#[test]
fn parse_history_skips_malformed_lines() {
    let h = parse_history(&"a\tb\r\nno tab here\nc\td\te\n".to_string());
    assert_eq!(
        pairs(&h),
        vec![("a".to_string(), "b".to_string()), ("c".to_string(), "d\te".to_string())]
    );
    assert!(parse_history(&String::new()).is_empty());
}

#[test]
fn history_file_round_trip() {
    let h = vec![entry("1 + 2", "3"), entry("\u{221A}(2)", "1.4142135624"), entry("sqr(3)", "9")];
    let back = parse_history(&history_text(&h));
    assert_eq!(pairs(&back), pairs(&h));
}

#[test]
fn format_rounds_half_away_from_zero() {
    assert_eq!(format_number(Decimal::new(5, 11)), "0.0000000001");
    assert_eq!(format_number(Decimal::new(-5, 11)), "-0.0000000001");
    assert_eq!(format_number(Decimal::new(-4, 11)), "0");
}

#[test]
fn format_drops_digits_past_ten_places() {
    assert_eq!(format_number(Decimal::new(123456789012345678, 18)), "0.123456789");
    assert_eq!(format_number(Decimal::new(0, 0)), "0");
    assert_eq!(format_number(Decimal::new(-1000000, 0)), "-1000000");
}

#[test]
fn format_keeps_eighteen_significant_digits() {
    assert_eq!(format_number(Decimal::new(123456789012345678, 1)), "12345678901234567.8");
    assert_eq!(format_number(Decimal::new(999999999999999999, 0)), "999999999999999999");
}

#[test]
fn parse_reads_numerals() {
    assert_eq!(parse_decimal(&"-12.50".chars().collect()), Some(Decimal::new(-125, 1)));
    assert_eq!(parse_decimal(&"3.".chars().collect()), Some(Decimal::new(3, 0)));
    assert_eq!(parse_decimal(&"007".chars().collect()), Some(Decimal::new(7, 0)));
    assert_eq!(parse_decimal(&"abc".chars().collect()), None);
    assert_eq!(parse_decimal(&"1.2.3".chars().collect()), None);
    assert_eq!(parse_decimal(&"".chars().collect()), None);
    assert_eq!(parse_decimal(&"-".chars().collect()), None);
    assert_eq!(parse_decimal(&".5".chars().collect()), None);
    assert_eq!(
        parse_decimal(&"1234567890123456789".chars().collect()),
        Some(Decimal { mantissa: 123456789012345679, exponent: 1 })
    );
    assert_eq!(
        parse_decimal(&"0.00000000000000000000000005".chars().collect()),
        Some(Decimal { mantissa: 5, exponent: -26 })
    );
}

#[test]
fn decimal_new_normalizes() {
    assert_eq!(Decimal::new(2500, 3), Decimal::new(25, 1));
    assert_eq!(Decimal::new(2500, 3).mantissa, 25);
    assert_eq!(Decimal::new(2500, 0), Decimal { mantissa: 25, exponent: 2 });
    assert_eq!(Decimal::new(0, 7), Decimal { mantissa: 0, exponent: 0 });
}

#[test]
fn op_symbols() {
    assert_eq!(CalcApp::op_symbol('+'), "+");
    assert_eq!(CalcApp::op_symbol('-'), "-");
    assert_eq!(CalcApp::op_symbol('*'), "\u{00D7}");
    assert_eq!(CalcApp::op_symbol('/'), "\u{00F7}");
    assert_eq!(CalcApp::op_symbol('x'), "?");
}
