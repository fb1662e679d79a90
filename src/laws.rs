//! Properties that hold across sequences of operations.
use crate::decimal::{
    decimal_text, error_text, fit, lemma_pow10_positive, lemma_shown_shape, op_defined, op_text,
    parsed, pow10, round_div, scaled_round, Decimal, DIGIT_BOUND, RESULT_PLACES,
};
use crate::engine::{
    after_backspace, after_compute, after_digit, after_dot, after_operator, after_toggle_sign,
    binary_trace,
    divide_by_zero_text, fresh, initial_state, zero_text, CalcState,
};
use crate::history::{bounded_push, most_recent, MAX_HISTORY};
use crate::numeral::{
    digits_value, has_minus, is_digit, is_numeral, lemma_numeral_push, lemma_numeral_text_shape,
    lemma_zero_point_numeral, nat_digits,
    numeral_text, padded_digits, strip_zeros, unsigned_part,
};
use vstd::prelude::*;

verus! {

/// The state after typing the digits `ds` one by one from `s`.
pub open spec fn type_digits(s: CalcState, ds: Seq<char>) -> CalcState
    decreases ds.len(),
{
    if ds.len() == 0 {
        s
    } else {
        after_digit(type_digits(s, ds.drop_last()), ds.last())
    }
}

/// `ds` without its leading zeros.
pub open spec fn drop_leading_zeros(ds: Seq<char>) -> Seq<char>
    decreases ds.len(),
{
    if ds.len() > 0 && ds[0] == '0' {
        drop_leading_zeros(ds.drop_first())
    } else {
        ds
    }
}

/// What typing `ds` on a fresh calculator shows: the digits without leading
/// zeros, or `0` when nothing else is left.
pub open spec fn typed_number(ds: Seq<char>) -> Seq<char> {
    if drop_leading_zeros(ds).len() == 0 {
        zero_text()
    } else {
        drop_leading_zeros(ds)
    }
}

proof fn lemma_drop_leading_zeros_push(ds: Seq<char>, d: char)
    ensures
        drop_leading_zeros(ds.push(d)) == if drop_leading_zeros(ds).len() == 0 {
            drop_leading_zeros(seq![d])
        } else {
            drop_leading_zeros(ds).push(d)
        },
    decreases ds.len(),
{
    if ds.len() == 0 {
        assert(ds.push(d) =~= seq![d]);
    } else if ds[0] == '0' {
        assert(ds.push(d).drop_first() =~= ds.drop_first().push(d));
        lemma_drop_leading_zeros_push(ds.drop_first(), d);
    } else {
        assert(ds.push(d)[0] == ds[0]);
    }
}

proof fn lemma_drop_leading_zeros_shape(ds: Seq<char>)
    ensures
        drop_leading_zeros(ds).len() > 0 ==> drop_leading_zeros(ds)[0] != '0',
        forall|i: int|
            0 <= i < drop_leading_zeros(ds).len() ==> exists|j: int|
                0 <= j < ds.len() && ds[j] == #[trigger] drop_leading_zeros(ds)[i],
    decreases ds.len(),
{
    if ds.len() > 0 && ds[0] == '0' {
        lemma_drop_leading_zeros_shape(ds.drop_first());
        let t = drop_leading_zeros(ds);
        assert forall|i: int| 0 <= i < t.len() implies exists|j: int|
            0 <= j < ds.len() && ds[j] == #[trigger] t[i] by {
            let j = choose|j: int| 0 <= j < ds.drop_first().len() && ds.drop_first()[j] == t[i];
            assert(ds[j + 1] == t[i]);
        }
    } else {
        assert forall|i: int| 0 <= i < ds.len() implies exists|j: int|
            0 <= j < ds.len() && ds[j] == #[trigger] drop_leading_zeros(ds)[i] by {
            assert(ds[i] == drop_leading_zeros(ds)[i]);
        }
    }
}

proof fn lemma_typing_digits(ds: Seq<char>)
    requires
        forall|i: int| 0 <= i < ds.len() ==> is_digit(#[trigger] ds[i]),
    ensures
        type_digits(initial_state(), ds) == (CalcState {
            display: typed_number(ds),
            ..initial_state()
        }),
    decreases ds.len(),
{
    if ds.len() > 0 {
        let prev = ds.drop_last();
        let d = ds.last();
        assert(is_digit(ds[ds.len() - 1]));
        lemma_typing_digits(prev);
        lemma_drop_leading_zeros_push(prev, d);
        assert(ds =~= prev.push(d));
        lemma_drop_leading_zeros_shape(prev);
        let shown = typed_number(prev);
        assert(shown != error_text()) by {
            if shown == error_text() {
                assert(shown[0] == 'E');
                if drop_leading_zeros(prev).len() > 0 {
                    let j = choose|j: int| 0 <= j < prev.len() && prev[j] == drop_leading_zeros(prev)[0];
                    assert(is_digit(ds[j]));
                }
            }
        }
        if drop_leading_zeros(prev).len() == 0 {
            assert(shown == zero_text());
            if d == '0' {
                let one = seq![d];
                assert(one[0] == '0');
                assert(one.drop_first() =~= Seq::<char>::empty());
                assert(drop_leading_zeros(Seq::<char>::empty()) == Seq::<char>::empty());
                assert(drop_leading_zeros(one) == drop_leading_zeros(one.drop_first()));
            }
        } else {
            assert(shown != zero_text()) by {
                assert(drop_leading_zeros(prev)[0] != '0');
            }
        }
    }
}

/// Digits typed on a fresh calculator show as typed, without leading zeros:
/// `0` then `7` shows `7`.
pub proof fn law_typed_digits(ds: Seq<char>)
    requires
        forall|i: int| 0 <= i < ds.len() ==> is_digit(#[trigger] ds[i]),
    ensures
        type_digits(initial_state(), ds).display == typed_number(ds),
{
    lemma_typing_digits(ds);
}

/// A second decimal point right after the first changes nothing: the
/// display holds exactly one point.
pub proof fn law_dot_idempotent(s: CalcState)
    requires
        s.wf(),
    ensures
        after_dot(after_dot(s)) == after_dot(s),
        after_dot(s).display.contains('.'),
        is_numeral(after_dot(s).display),
{
    let t = after_dot(s);
    let u = fresh(s);
    if u.waiting_for_second {
        assert(t.display[1] == '.');
        lemma_zero_point_numeral();
    } else if !u.display.contains('.') {
        assert(t.display[t.display.len() - 1] == '.');
        assert(u.display != error_text()) by {
            if u.display == error_text() {
                assert(s.display == error_text() && !s.just_computed);
            }
        }
        lemma_numeral_push(u.display, '.');
    } else {
        assert(u.display != error_text()) by {
            if u.display == error_text() {
                let j = choose|j: int| 0 <= j < u.display.len() && u.display[j] == '.';
                assert(error_text()[j] != '.');
            }
        }
    }
    assert(t.display != error_text()) by {
        if t.display == error_text() {
            let j = choose|j: int| 0 <= j < t.display.len() && t.display[j] == '.';
            assert(error_text()[j] != '.');
        }
    }
}

/// Choosing an operator with nothing pending records the displayed value as
/// the first operand, ready for the second.
pub proof fn law_operator_records_operand(s: CalcState, op: char, a: Decimal)
    requires
        s.first_operand is None,
        s.display != error_text(),
        parsed(s.display) == Some(a),
    ensures
        after_operator(s, op).first_operand == Some(a),
        after_operator(s, op).operator == Some(op),
        after_operator(s, op).waiting_for_second,
        after_operator(s, op).display == s.display,
{
}

/// With `a` and `op` pending and `b` on the display, computing shows the
/// rounded `a op b` and logs it; dividing by zero shows `Error` instead.
pub proof fn law_compute(s: CalcState, a: Decimal, op: char, b: Decimal)
    requires
        s.first_operand == Some(a),
        s.operator == Some(op),
        parsed(s.display) == Some(b),
    ensures
        op_defined(op, b) ==> {
            &&& after_compute(s).display == op_text(op, a, b)
            &&& after_compute(s).history == bounded_push(
                s.history,
                (binary_trace(a, op, b), op_text(op, a, b)),
            )
        },
        !op_defined(op, b) ==> {
            &&& after_compute(s).display == error_text()
            &&& after_compute(s).expression == divide_by_zero_text()
            &&& after_compute(s).history == s.history
        },
        after_compute(s).first_operand is None,
        after_compute(s).operator is None,
{
}

/// The log after appending the entries `es` one by one to `h`.
pub open spec fn log_all<T>(h: Seq<T>, es: Seq<T>) -> Seq<T>
    decreases es.len(),
{
    if es.len() == 0 {
        h
    } else {
        bounded_push(log_all(h, es.drop_last()), es.last())
    }
}

/// The log never holds more than `MAX_HISTORY` entries, and after any run
/// of appends to an empty log it holds the most recent ones in order: after
/// eleven, the first is gone and the other ten remain.
pub proof fn law_history_bounded<T>(es: Seq<T>)
    ensures
        log_all(Seq::empty(), es) == most_recent(es),
        log_all(Seq::empty(), es).len() <= MAX_HISTORY,
    decreases es.len(),
{
    if es.len() > 0 {
        let prev = es.drop_last();
        law_history_bounded(prev);
        assert(es =~= prev.push(es.last()));
        if prev.len() >= MAX_HISTORY {
            assert(most_recent(prev).push(es.last()).drop_first() =~= most_recent(es));
        } else {
            assert(most_recent(prev).push(es.last()) =~= most_recent(es));
        }
    } else {
        assert(most_recent(es) =~= es);
    }
}

/// Deleting the only character leaves `0`; the display never becomes empty.
pub proof fn law_backspace_single(s: CalcState)
    requires
        s.display.len() == 1,
        !s.just_computed,
    ensures
        after_backspace(s).display == zero_text(),
{
}

/// Backspace never leaves an empty display.
pub proof fn law_backspace_nonempty(s: CalcState)
    requires
        s.display.len() > 0,
    ensures
        after_backspace(s).display.len() > 0,
{
}

/// Changing the sign twice restores a nonzero number.
pub proof fn law_toggle_sign_involutive(s: CalcState)
    requires
        is_numeral(s.display),
        digits_value(unsigned_part(s.display)) != 0,
    ensures
        after_toggle_sign(after_toggle_sign(s)) == s,
{
    let d = s.display;
    assert(d != error_text()) by {
        if d == error_text() {
            assert(!has_minus(d));
            assert(unsigned_part(d)[0] == 'E');
        }
    }
    assert(d != zero_text()) by {
        if d == zero_text() {
            assert(unsigned_part(d) =~= d);
            assert(d.drop_last() =~= Seq::<char>::empty());
            assert(digits_value(d) == digits_value(Seq::<char>::empty()) * 10 + 0);
        }
    }
    let t = after_toggle_sign(s);
    if has_minus(d) {
        let e = d.drop_first();
        assert(e == unsigned_part(d));
        assert(e != zero_text()) by {
            if e == zero_text() {
                assert(e.drop_last() =~= Seq::<char>::empty());
                assert(digits_value(e) == digits_value(Seq::<char>::empty()) * 10 + 0);
            }
        }
        assert(e != error_text()) by {
            if e == error_text() {
                assert(e[0] == 'E');
            }
        }
        assert(!has_minus(e)) by {
            assert(e[0] != '-');
        }
        assert(seq!['-'] + e =~= d);
    } else {
        let e = seq!['-'] + d;
        assert(e != error_text()) by {
            if e == error_text() {
                assert(e[0] == '-');
            }
        }
        assert(e != zero_text()) by {
            if e == zero_text() {
                assert(e[0] == '-');
            }
        }
        assert(has_minus(e));
        assert(e.drop_first() =~= d);
    }
}

proof fn lemma_round_div_one(x: int)
    ensures
        round_div(x, 1) == x,
{
    if x >= 0 {
        assert((2 * x + 1) / 2 == x);
    } else {
        assert((2 * (-x) + 1) / 2 == -x);
    }
}

proof fn lemma_strip_zero_padding(k: nat)
    ensures
        strip_zeros(padded_digits(0, k)) == Seq::<char>::empty(),
    decreases k,
{
    if k > 0 {
        lemma_strip_zero_padding((k - 1) as nat);
        let p = padded_digits(0, k);
        assert(p == padded_digits(0, (k - 1) as nat).push('0'));
        assert(p.drop_last() =~= padded_digits(0, (k - 1) as nat));
    }
}

/// A whole number scaled by `10^j` and shown with `j` places reads as the
/// whole number itself.
proof fn lemma_scaled_integer_text(n: int, j: nat)
    ensures
        numeral_text(n * pow10(j), j) == numeral_text(n, 0),
{
    let a: nat = if n < 0 {
        (-n) as nat
    } else {
        n as nat
    };
    let p = pow10(j);
    lemma_pow10_positive(j);
    assert(pow10(0) == 1);
    let q = n * p;
    assert(q < 0 <==> n < 0) by (nonlinear_arith)
        requires
            q == n * p,
            p >= 1,
    ;
    let b: nat = if q < 0 {
        (-q) as nat
    } else {
        q as nat
    };
    assert(b == a * p) by (nonlinear_arith)
        requires
            q == n * p,
            p >= 1,
            b == (if q < 0 {
                -q
            } else {
                q
            }),
            a == (if n < 0 {
                -n
            } else {
                n
            }),
    ;
    vstd::arithmetic::div_mod::lemma_div_multiples_vanish(a as int, p as int);
    vstd::arithmetic::div_mod::lemma_mod_multiples_basic(a as int, p as int);
    assert(b / p == a && b % p == 0) by {
        assert(a * p == p * a) by (nonlinear_arith);
    }
    assert(a / 1 == a && a % 1 == 0);
    lemma_strip_zero_padding(j);
    assert(strip_zeros(padded_digits(0, 0)) == Seq::<char>::empty());
}

proof fn lemma_fit_integer(n: int, k: nat)
    requires
        -DIGIT_BOUND < n < DIGIT_BOUND,
        k <= RESULT_PLACES,
    ensures
        fit(n, 1, 0, k as int) matches Some((q, j)) && j >= 0 && q == n * pow10(j as nat),
    decreases k,
{
    lemma_round_div_one(n * pow10(k));
    assert(!(k < -(crate::decimal::MAX_EXP as int)));
    assert(0 + k as int == k as int);
    assert(scaled_round(n, 1, k as int) == round_div(n * pow10(k), 1));
    let q = n * pow10(k);
    assert(fit(n, 1, 0, k as int) == if -DIGIT_BOUND < q < DIGIT_BOUND {
        Some((q, k as int))
    } else {
        fit(n, 1, 0, k as int - 1)
    });
    if k == 0 {
        assert(pow10(k) == 1);
        assert(n * 1 == n);
        assert(q == n);
    } else {
        if !(-DIGIT_BOUND < q < DIGIT_BOUND) {
            lemma_fit_integer(n, (k - 1) as nat);
            assert((k - 1) as nat as int == k as int - 1);
        }
    }
}

/// Whole numbers are shown exactly: their digits, after a minus sign when
/// negative, with no decimal point.
pub proof fn law_format_integer(n: int)
    requires
        -DIGIT_BOUND < n < DIGIT_BOUND,
    ensures
        decimal_text(Decimal { mantissa: n as i128, exponent: 0 }) == (if n < 0 {
            seq!['-']
        } else {
            Seq::empty()
        }) + nat_digits((if n < 0 {
            -n
        } else {
            n
        }) as nat),
{
    assert(pow10(0) == 1);
    lemma_fit_integer(n, RESULT_PLACES as nat);
    if let Some((q, j)) = fit(n, 1, 0, RESULT_PLACES as int) {
        lemma_scaled_integer_text(n, j as nat);
    }
    lemma_strip_zero_padding(0);
    lemma_pow10_positive(0);
    assert(numeral_text(n, 0) =~= (if n < 0 {
        seq!['-']
    } else {
        Seq::empty()
    }) + nat_digits((if n < 0 {
        -n
    } else {
        n
    }) as nat));
}

/// Where ten decimal places leave at most eighteen significant digits, a
/// number is shown rounded to ten places, halves away from zero; the text
/// then drops trailing zeros and a bare point.
pub proof fn law_format_ten_places(n: Decimal)
    requires
        -DIGIT_BOUND < scaled_round(n.mantissa as int, 1, n.exponent + 10) < DIGIT_BOUND,
    ensures
        decimal_text(n) == numeral_text(scaled_round(n.mantissa as int, 1, n.exponent + 10), 10),
{
    assert(!(10 < -(crate::decimal::MAX_EXP as int)));
    assert(RESULT_PLACES as int == 10);
}

/// A shown number never ends in a zero after its decimal point, nor in a
/// bare point: `1.5000` shows as `1.5`.
pub proof fn law_format_strips_zeros(n: Decimal)
    requires
        decimal_text(n) != error_text(),
    ensures
        decimal_text(n).contains('.') ==> decimal_text(n).last() != '0' && decimal_text(
            n,
        ).last() != '.',
{
    let f = fit(n.mantissa as int, 1, n.exponent as int, RESULT_PLACES as int);
    if let Some((q, k)) = f {
        lemma_shown_shape(q, k);
    }
}

} // verus!
