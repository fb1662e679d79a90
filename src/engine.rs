//! The calculator's state machine: key presses in, display and history out.
use crate::decimal::{
    op_value,
    decimal_text, error_chars, error_text, format_decimal, is_operator, op_defined, op_text,
    lemma_presented_shape, lemma_sqrt_text_shape, operate, parse_decimal, parsed, percent_of,
    percent_text, reciprocal_of, reciprocal_text, sqrt_of, sqrt_text, Decimal,
};
use crate::history::{
    bounded_push, entries_view, keep_recent, most_recent, push_bounded, HistoryEntry, MAX_HISTORY,
};
use crate::numeral::{
    has_minus, is_digit, is_numeral, lemma_numeral_drop_last, lemma_numeral_negate,
    lemma_numeral_push, lemma_single_digit_numeral, lemma_zero_point_numeral,
};
use crate::text::{chars_of, same_text, string_of};
use vstd::prelude::*;

verus! {

/// What a calculator holds, as values.
pub struct CalcState {
    pub display: Seq<char>,
    pub expression: Seq<char>,
    pub first_operand: Option<Decimal>,
    pub operator: Option<char>,
    pub waiting_for_second: bool,
    pub just_computed: bool,
    pub history: Seq<(Seq<char>, Seq<char>)>,
    pub show_history: bool,
}

impl CalcState {
    /// The display holds a numeral or `Error`; an operand is pending exactly
    /// when an operator is, each one valid; the log is within its capacity.
    pub open spec fn wf(self) -> bool {
        &&& is_numeral(self.display) || self.display == error_text()
        &&& self.first_operand.is_some() == self.operator.is_some()
        &&& self.waiting_for_second ==> self.operator.is_some()
        &&& self.operator matches Some(op) ==> is_operator(op)
        &&& self.first_operand matches Some(a) ==> a.wf()
        &&& self.history.len() <= MAX_HISTORY
    }
}

pub open spec fn zero_text() -> Seq<char> {
    seq!['0']
}

pub open spec fn divide_by_zero_text() -> Seq<char> {
    seq![
        'C', 'a', 'n', 'n', 'o', 't', ' ', 'd', 'i', 'v', 'i', 'd', 'e', ' ', 'b', 'y', ' ',
        'z', 'e', 'r', 'o',
    ]
}

pub open spec fn invalid_input_text() -> Seq<char> {
    seq!['I', 'n', 'v', 'a', 'l', 'i', 'd', ' ', 'i', 'n', 'p', 'u', 't']
}

/// How an operator is written in an expression.
pub open spec fn operator_symbol(op: char) -> Seq<char> {
    if op == '+' {
        seq!['+']
    } else if op == '-' {
        seq!['-']
    } else if op == '*' {
        seq!['\u{00D7}']
    } else if op == '/' {
        seq!['\u{00F7}']
    } else {
        seq!['?']
    }
}

/// A fresh calculator: display `0`, nothing pending, no history.
pub open spec fn initial_state() -> CalcState {
    CalcState {
        display: zero_text(),
        expression: Seq::empty(),
        first_operand: None,
        operator: None,
        waiting_for_second: false,
        just_computed: false,
        history: Seq::empty(),
        show_history: false,
    }
}

/// Back to a fresh display with nothing pending; history is kept.
pub open spec fn cleared(s: CalcState) -> CalcState {
    CalcState {
        display: zero_text(),
        expression: Seq::empty(),
        first_operand: None,
        operator: None,
        waiting_for_second: false,
        just_computed: false,
        ..s
    }
}

/// A finished result or an error is not typed on: the next number starts over.
pub open spec fn fresh(s: CalcState) -> CalcState {
    if s.just_computed || s.display == error_text() {
        cleared(s)
    } else {
        s
    }
}

pub open spec fn after_digit(s: CalcState, d: char) -> CalcState {
    let t = fresh(s);
    if t.waiting_for_second {
        CalcState { display: seq![d], waiting_for_second: false, ..t }
    } else if t.display == zero_text() {
        CalcState { display: seq![d], ..t }
    } else {
        CalcState { display: t.display.push(d), ..t }
    }
}

pub open spec fn after_dot(s: CalcState) -> CalcState {
    let t = fresh(s);
    if t.waiting_for_second {
        CalcState { display: seq!['0', '.'], waiting_for_second: false, ..t }
    } else if !t.display.contains('.') {
        CalcState { display: t.display.push('.'), ..t }
    } else {
        t
    }
}

/// The trace `a op b` of a binary computation.
pub open spec fn binary_trace(a: Decimal, op: char, b: Decimal) -> Seq<char> {
    decimal_text(a) + seq![' '] + operator_symbol(op) + seq![' '] + decimal_text(b)
}

pub open spec fn after_compute(s: CalcState) -> CalcState {
    match (s.first_operand, s.operator) {
        (Some(a), Some(op)) => match parsed(s.display) {
            Some(b) => {
                let trace = binary_trace(a, op, b);
                if op_defined(op, b) {
                    let r = op_text(op, a, b);
                    CalcState {
                        display: r,
                        expression: trace + seq![' ', '='],
                        first_operand: None,
                        operator: None,
                        waiting_for_second: false,
                        just_computed: true,
                        history: bounded_push(s.history, (trace, r)),
                        ..s
                    }
                } else {
                    CalcState {
                        display: error_text(),
                        expression: divide_by_zero_text(),
                        first_operand: None,
                        operator: None,
                        waiting_for_second: false,
                        just_computed: true,
                        ..s
                    }
                }
            },
            None => s,
        },
        _ => s,
    }
}

pub open spec fn after_operator(s: CalcState, op: char) -> CalcState {
    if s.display == error_text() {
        s
    } else {
        match parsed(s.display) {
            None => s,
            Some(v) => {
                let c = if s.first_operand.is_some() && !s.waiting_for_second {
                    after_compute(s)
                } else {
                    s
                };
                if c.display == error_text() {
                    c
                } else {
                    let cur = match parsed(c.display) {
                        Some(x) => x,
                        None => v,
                    };
                    CalcState {
                        expression: decimal_text(cur) + seq![' '] + operator_symbol(op),
                        first_operand: Some(cur),
                        operator: Some(op),
                        waiting_for_second: true,
                        just_computed: false,
                        ..c
                    }
                }
            },
        }
    }
}

pub open spec fn after_clear_entry(s: CalcState) -> CalcState {
    CalcState { display: zero_text(), ..s }
}

/// Deleting the last character; what is left without a digit reads `0`.
pub open spec fn after_backspace(s: CalcState) -> CalcState {
    if s.display == error_text() || s.just_computed {
        s
    } else if s.display.len() <= 1 || s.display.drop_last() == seq!['-'] {
        CalcState { display: zero_text(), ..s }
    } else {
        CalcState { display: s.display.drop_last(), ..s }
    }
}

pub open spec fn after_toggle_sign(s: CalcState) -> CalcState {
    if s.display == error_text() || s.display == zero_text() {
        s
    } else if has_minus(s.display) {
        CalcState { display: s.display.drop_first(), ..s }
    } else {
        CalcState { display: seq!['-'] + s.display, ..s }
    }
}

pub open spec fn after_percent(s: CalcState) -> CalcState {
    match parsed(s.display) {
        Some(v) => CalcState { display: percent_text(v), ..s },
        None => s,
    }
}

/// A one-operand result: shown, traced, and logged.
pub open spec fn unary_result(s: CalcState, trace: Seq<char>, r: Seq<char>) -> CalcState {
    CalcState {
        display: r,
        expression: trace,
        just_computed: true,
        history: bounded_push(s.history, (trace, r)),
        ..s
    }
}

/// A one-operand failure: `Error` on the display, the reason as expression.
pub open spec fn unary_error(s: CalcState, reason: Seq<char>) -> CalcState {
    CalcState { display: error_text(), expression: reason, just_computed: true, ..s }
}

pub open spec fn call_trace(name: Seq<char>, v: Decimal) -> Seq<char> {
    name + seq!['('] + decimal_text(v) + seq![')']
}

pub open spec fn after_reciprocal(s: CalcState) -> CalcState {
    match parsed(s.display) {
        None => s,
        Some(v) => if v.mantissa == 0 {
            unary_error(s, divide_by_zero_text())
        } else {
            unary_result(s, call_trace(seq!['1', '/'], v), reciprocal_text(v))
        },
    }
}

pub open spec fn after_square(s: CalcState) -> CalcState {
    match parsed(s.display) {
        None => s,
        Some(v) => unary_result(s, call_trace(seq!['s', 'q', 'r'], v), op_text('*', v, v)),
    }
}

pub open spec fn after_square_root(s: CalcState) -> CalcState {
    match parsed(s.display) {
        None => s,
        Some(v) => if v.mantissa < 0 {
            unary_error(s, invalid_input_text())
        } else {
            unary_result(s, call_trace(seq!['\u{221A}'], v), sqrt_text(v))
        },
    }
}

pub open spec fn after_add_history(
    s: CalcState,
    expression: Seq<char>,
    result: Seq<char>,
) -> CalcState {
    CalcState { history: bounded_push(s.history, (expression, result)), ..s }
}

/// The calculator: what the display and the expression line show, the
/// pending operation, and the log of completed computations.
pub struct CalcApp {
    pub display: String,
    pub expression: String,
    pub first_operand: Option<Decimal>,
    pub operator: Option<char>,
    pub waiting_for_second: bool,
    pub just_computed: bool,
    pub history: Vec<HistoryEntry>,
    pub show_history: bool,
}

impl View for CalcApp {
    type V = CalcState;

    open spec fn view(&self) -> CalcState {
        CalcState {
            display: self.display@,
            expression: self.expression@,
            first_operand: self.first_operand,
            operator: self.operator,
            waiting_for_second: self.waiting_for_second,
            just_computed: self.just_computed,
            history: entries_view(self.history@),
            show_history: self.show_history,
        }
    }
}

fn zero_string() -> (s: String)
    ensures
        s@ == zero_text(),
{
    let mut s = String::new();
    s.push('0');
    assert(s@ =~= zero_text());
    s
}

fn error_string() -> (s: String)
    ensures
        s@ == error_text(),
{
    string_of(&error_chars())
}

fn divide_by_zero_string() -> (s: String)
    ensures
        s@ == divide_by_zero_text(),
{
    let s = String::from_str("Cannot divide by zero");
    proof {
        reveal_strlit("Cannot divide by zero");
        assert(s@ =~= divide_by_zero_text());
    }
    s
}

fn invalid_input_string() -> (s: String)
    ensures
        s@ == invalid_input_text(),
{
    let s = String::from_str("Invalid input");
    proof {
        reveal_strlit("Invalid input");
        assert(s@ =~= invalid_input_text());
    }
    s
}

fn symbol_chars(op: char) -> (v: Vec<char>)
    ensures
        v@ == operator_symbol(op),
{
    let c = if op == '+' {
        '+'
    } else if op == '-' {
        '-'
    } else if op == '*' {
        '\u{00D7}'
    } else if op == '/' {
        '\u{00F7}'
    } else {
        '?'
    };
    let v = vec![c];
    assert(v@ =~= operator_symbol(op));
    v
}

fn is_error_display(v: &Vec<char>) -> (r: bool)
    ensures
        r == (v@ == error_text()),
{
    same_text(v, &error_chars())
}

fn is_zero_display(v: &Vec<char>) -> (r: bool)
    ensures
        r == (v@ == zero_text()),
{
    let r = v.len() == 1 && v[0] == '0';
    proof {
        if r {
            assert(v@ =~= zero_text());
        }
    }
    r
}

fn append_text(out: &mut Vec<char>, more: Vec<char>)
    ensures
        final(out)@ == old(out)@ + more@,
{
    let mut more = more;
    out.append(&mut more);
}

fn trace_chars(a: Decimal, op: char, b: Decimal) -> (v: Vec<char>)
    requires
        a.wf(),
        b.wf(),
    ensures
        v@ == binary_trace(a, op, b),
{
    let mut v = format_decimal(a);
    v.push(' ');
    append_text(&mut v, symbol_chars(op));
    v.push(' ');
    append_text(&mut v, format_decimal(b));
    v
}

fn call_trace_chars(name: Vec<char>, v: Decimal) -> (r: Vec<char>)
    requires
        v.wf(),
    ensures
        r@ == call_trace(name@, v),
{
    let mut r = name;
    r.push('(');
    append_text(&mut r, format_decimal(v));
    r.push(')');
    r
}

impl CalcApp {
    /// A calculator with display `0`, nothing pending and an empty log.
    pub fn new() -> (r: CalcApp)
        ensures
            r@ == initial_state(),
            r@.wf(),
    {
        let r = CalcApp {
            display: zero_string(),
            expression: String::new(),
            first_operand: None,
            operator: None,
            waiting_for_second: false,
            just_computed: false,
            history: Vec::new(),
            show_history: false,
        };
        assert(r@.history =~= Seq::empty());
        r
    }

    /// The name of an operator as an expression shows it.
    pub fn op_symbol(op: char) -> (r: &'static str)
        ensures
            r@ == operator_symbol(op),
    {
        proof {
            reveal_strlit("+");
            reveal_strlit("-");
            reveal_strlit("\u{00D7}");
            reveal_strlit("\u{00F7}");
            reveal_strlit("?");
        }
        let r = if op == '+' {
            "+"
        } else if op == '-' {
            "-"
        } else if op == '*' {
            "\u{00D7}"
        } else if op == '/' {
            "\u{00F7}"
        } else {
            "?"
        };
        assert(r@ =~= operator_symbol(op));
        r
    }

    /// Logs a computation, dropping the oldest entry beyond the capacity.
    pub fn add_history(&mut self, expression: String, result: String)
        requires
            old(self)@.wf(),
        ensures
            final(self)@ == after_add_history(old(self)@, expression@, result@),
            final(self)@.wf(),
    {
        push_bounded(&mut self.history, HistoryEntry::new(expression, result));
    }

    /// Resets the display and any pending operation; the log is kept.
    pub fn clear_state(&mut self)
        requires
            old(self)@.wf(),
        ensures
            final(self)@ == cleared(old(self)@),
            final(self)@.wf(),
    {
        self.display = zero_string();
        self.expression = String::new();
        self.first_operand = None;
        self.operator = None;
        self.waiting_for_second = false;
        self.just_computed = false;
    }

    /// The clear key: same as `clear_state`.
    pub fn clear(&mut self)
        requires
            old(self)@.wf(),
        ensures
            final(self)@ == cleared(old(self)@),
            final(self)@.wf(),
    {
        self.clear_state();
    }

    /// Resets the display only.
    pub fn clear_entry(&mut self)
        requires
            old(self)@.wf(),
        ensures
            final(self)@ == after_clear_entry(old(self)@),
            final(self)@.wf(),
    {
        self.display = zero_string();
    }

    fn start_fresh(&mut self)
        requires
            old(self)@.wf(),
        ensures
            final(self)@ == fresh(old(self)@),
            final(self)@.wf(),
    {
        let disp = chars_of(self.display.as_str());
        if self.just_computed || is_error_display(&disp) {
            self.clear_state();
        }
    }

    /// Types one digit.
    pub fn input_digit(&mut self, d: char)
        requires
            old(self)@.wf(),
            is_digit(d),
        ensures
            final(self)@ == after_digit(old(self)@, d),
            final(self)@.wf(),
    {
        self.start_fresh();
        let mut disp = chars_of(self.display.as_str());
        let one = vec![d];
        assert(one@ =~= seq![d]);
        proof {
            lemma_single_digit_numeral(d);
        }
        if self.waiting_for_second {
            self.display = string_of(&one);
            self.waiting_for_second = false;
        } else if is_zero_display(&disp) {
            self.display = string_of(&one);
        } else {
            proof {
                lemma_numeral_push(disp@, d);
            }
            disp.push(d);
            self.display = string_of(&disp);
        }
    }

    /// A fresh calculator around a log read back from storage; only its most
    /// recent entries are kept.
    pub fn with_history(history: Vec<HistoryEntry>) -> (r: CalcApp)
        ensures
            r@ == (CalcState { history: most_recent(entries_view(history@)), ..initial_state() }),
            r@.wf(),
    {
        let mut r = CalcApp::new();
        r.history = keep_recent(history);
        r
    }

    /// Empties the log.
    pub fn clear_history(&mut self)
        requires
            old(self)@.wf(),
        ensures
            final(self)@ == (CalcState { history: Seq::empty(), ..old(self)@ }),
            final(self)@.wf(),
    {
        self.history = Vec::new();
        assert(entries_view(self.history@) =~= Seq::empty());
    }

    /// Applies the pending operator to the pending operand and the display.
    pub fn compute(&mut self)
        requires
            old(self)@.wf(),
        ensures
            final(self)@ == after_compute(old(self)@),
            final(self)@.wf(),
    {
        match (self.first_operand, self.operator) {
            (Some(a), Some(op)) => {
                let disp = chars_of(self.display.as_str());
                match parse_decimal(&disp) {
                    Some(b) => {
                        let trace = trace_chars(a, op, b);
                        if op != '/' || b.mantissa != 0 {
                            let r = operate(op, a, b);
                            proof {
                                let f = op_value(op, a, b);
                                lemma_presented_shape(f.0, f.1, f.2);
                            }
                            let mut ex = trace_chars(a, op, b);
                            ex.push(' ');
                            ex.push('=');
                            self.add_history(string_of(&trace), string_of(&r));
                            self.display = string_of(&r);
                            self.expression = string_of(&ex);
                            assert(ex@ =~= binary_trace(a, op, b) + seq![' ', '=']);
                        } else {
                            self.display = error_string();
                            self.expression = divide_by_zero_string();
                        }
                        self.first_operand = None;
                        self.operator = None;
                        self.waiting_for_second = false;
                        self.just_computed = true;
                    },
                    None => {},
                }
            },
            _ => {},
        }
    }

    /// Chooses an operator, first completing a pending computation whose
    /// second operand has been typed.
    pub fn input_operator(&mut self, op: char)
        requires
            old(self)@.wf(),
            is_operator(op),
        ensures
            final(self)@ == after_operator(old(self)@, op),
            final(self)@.wf(),
    {
        let disp = chars_of(self.display.as_str());
        if is_error_display(&disp) {
            return;
        }
        match parse_decimal(&disp) {
            None => {},
            Some(v) => {
                if self.first_operand.is_some() && !self.waiting_for_second {
                    self.compute();
                    let after = chars_of(self.display.as_str());
                    if is_error_display(&after) {
                        return;
                    }
                }
                let now = chars_of(self.display.as_str());
                let cur = match parse_decimal(&now) {
                    Some(x) => x,
                    None => v,
                };
                let mut ex = format_decimal(cur);
                ex.push(' ');
                append_text(&mut ex, symbol_chars(op));
                assert(ex@ =~= decimal_text(cur) + seq![' '] + operator_symbol(op));
                self.expression = string_of(&ex);
                self.first_operand = Some(cur);
                self.operator = Some(op);
                self.waiting_for_second = true;
                self.just_computed = false;
            },
        }
    }

    /// Deletes the last character typed.
    pub fn backspace(&mut self)
        requires
            old(self)@.wf(),
        ensures
            final(self)@ == after_backspace(old(self)@),
            final(self)@.wf(),
    {
        let mut disp = chars_of(self.display.as_str());
        if is_error_display(&disp) || self.just_computed {
            return;
        }
        if disp.len() <= 1 {
            self.display = zero_string();
            return;
        }
        let ghost before = disp@;
        disp.pop();
        assert(disp@ =~= before.drop_last());
        if disp.len() == 1 && disp[0] == '-' {
            assert(disp@ =~= seq!['-']);
            self.display = zero_string();
        } else {
            assert(disp@ != seq!['-']);
            proof {
                lemma_numeral_drop_last(before);
            }
            self.display = string_of(&disp);
        }
    }

    /// Adds or removes a leading minus sign.
    pub fn toggle_sign(&mut self)
        requires
            old(self)@.wf(),
        ensures
            final(self)@ == after_toggle_sign(old(self)@),
            final(self)@.wf(),
    {
        let mut disp = chars_of(self.display.as_str());
        if is_error_display(&disp) || is_zero_display(&disp) {
            return;
        }
        proof {
            lemma_numeral_negate(disp@);
        }
        if disp.len() > 0 && disp[0] == '-' {
            let ghost before = disp@;
            disp.remove(0);
            assert(disp@ =~= before.drop_first());
        } else {
            let ghost before = disp@;
            disp.insert(0, '-');
            assert(disp@ =~= seq!['-'] + before);
        }
        self.display = string_of(&disp);
    }

    /// Replaces the display by a hundredth of its value.
    pub fn percent(&mut self)
        requires
            old(self)@.wf(),
        ensures
            final(self)@ == after_percent(old(self)@),
            final(self)@.wf(),
    {
        let disp = chars_of(self.display.as_str());
        match parse_decimal(&disp) {
            Some(v) => {
                proof {
                    lemma_presented_shape(v.mantissa as int, 1, v.exponent - 2);
                }
                self.display = string_of(&percent_of(v));
            },
            None => {},
        }
    }

    fn show_unary(&mut self, trace: Vec<char>, r: Vec<char>)
        requires
            old(self)@.wf(),
            is_numeral(r@) || r@ == error_text(),
        ensures
            final(self)@ == unary_result(old(self)@, trace@, r@),
            final(self)@.wf(),
    {
        self.add_history(string_of(&trace), string_of(&r));
        self.expression = string_of(&trace);
        self.display = string_of(&r);
        self.just_computed = true;
    }

    fn show_unary_error(&mut self, reason: String)
        requires
            old(self)@.wf(),
        ensures
            final(self)@ == unary_error(old(self)@, reason@),
            final(self)@.wf(),
    {
        self.display = error_string();
        self.expression = reason;
        self.just_computed = true;
    }

    /// Replaces the display by the reciprocal of its value.
    pub fn reciprocal(&mut self)
        requires
            old(self)@.wf(),
        ensures
            final(self)@ == after_reciprocal(old(self)@),
            final(self)@.wf(),
    {
        let disp = chars_of(self.display.as_str());
        match parse_decimal(&disp) {
            None => {},
            Some(v) => {
                if v.mantissa == 0 {
                    self.show_unary_error(divide_by_zero_string());
                } else {
                    let name = vec!['1', '/'];
                    assert(name@ =~= seq!['1', '/']);
                    proof {
                        lemma_presented_shape(1, v.mantissa as int, -v.exponent);
                        lemma_presented_shape(-1, -v.mantissa, -v.exponent);
                    }
                    self.show_unary(call_trace_chars(name, v), reciprocal_of(v));
                }
            },
        }
    }

    /// Replaces the display by the square of its value.
    pub fn square(&mut self)
        requires
            old(self)@.wf(),
        ensures
            final(self)@ == after_square(old(self)@),
            final(self)@.wf(),
    {
        let disp = chars_of(self.display.as_str());
        match parse_decimal(&disp) {
            None => {},
            Some(v) => {
                let name = vec!['s', 'q', 'r'];
                assert(name@ =~= seq!['s', 'q', 'r']);
                proof {
                    let f = op_value('*', v, v);
                    lemma_presented_shape(f.0, f.1, f.2);
                }
                self.show_unary(call_trace_chars(name, v), operate('*', v, v));
            },
        }
    }

    /// Replaces the display by the square root of its value.
    pub fn square_root(&mut self)
        requires
            old(self)@.wf(),
        ensures
            final(self)@ == after_square_root(old(self)@),
            final(self)@.wf(),
    {
        let disp = chars_of(self.display.as_str());
        match parse_decimal(&disp) {
            None => {},
            Some(v) => {
                if v.mantissa < 0 {
                    self.show_unary_error(invalid_input_string());
                } else {
                    let name = vec!['\u{221A}'];
                    assert(name@ =~= seq!['\u{221A}']);
                    proof {
                        lemma_sqrt_text_shape(v);
                    }
                    self.show_unary(call_trace_chars(name, v), sqrt_of(v));
                }
            },
        }
    }

    /// Types the decimal point, at most once per number.
    pub fn input_dot(&mut self)
        requires
            old(self)@.wf(),
        ensures
            final(self)@ == after_dot(old(self)@),
            final(self)@.wf(),
    {
        self.start_fresh();
        let mut disp = chars_of(self.display.as_str());
        if self.waiting_for_second {
            let zero_dot = vec!['0', '.'];
            assert(zero_dot@ =~= seq!['0', '.']);
            proof {
                lemma_zero_point_numeral();
            }
            self.display = string_of(&zero_dot);
            self.waiting_for_second = false;
        } else {
            let mut i: usize = 0;
            while i < disp.len() && disp[i] != '.'
                invariant
                    i <= disp.len(),
                    forall|j: int| 0 <= j < i ==> disp@[j] != '.',
                decreases disp.len() - i,
            {
                i = i + 1;
            }
            if i == disp.len() {
                proof {
                    assert(!disp@.contains('.'));
                    lemma_numeral_push(disp@, '.');
                }
                disp.push('.');
                self.display = string_of(&disp);
            } else {
                assert(disp@[i as int] == '.');
            }
        }
    }
}

impl Default for CalcApp {
    fn default() -> (r: CalcApp)
        ensures
            r@ == initial_state(),
            r@.wf(),
    {
        CalcApp::new()
    }
}

} // verus!
