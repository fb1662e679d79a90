//! Decimal numerals as text.
use crate::decimal::{
    lemma_pow10_add, lemma_pow10_positive, lemma_round_div_from_parts, lemma_round_div_lower,
    pow10, pow10_exec, round_div, DIGIT_BOUND,
};
use vstd::prelude::*;

verus! {

pub open spec fn is_digit(c: char) -> bool {
    '0' <= c && c <= '9'
}

pub open spec fn digit_value(c: char) -> nat {
    (c as u32 - '0' as u32) as nat
}

pub open spec fn digit_char(n: nat) -> char {
    ((n + 48) as u8) as char
}

/// Decimal digits of `n`, most significant first, without leading zeros.
pub open spec fn nat_digits(n: nat) -> Seq<char>
    decreases n,
{
    if n < 10 {
        seq![digit_char(n)]
    } else {
        nat_digits(n / 10).push(digit_char(n % 10))
    }
}

/// The last `k` decimal digits of `n`, zero-padded on the left.
pub open spec fn padded_digits(n: nat, k: nat) -> Seq<char>
    decreases k,
{
    if k == 0 {
        Seq::empty()
    } else {
        padded_digits(n / 10, (k - 1) as nat).push(digit_char(n % 10))
    }
}

/// `s` without its trailing `'0'` characters.
pub open spec fn strip_zeros(s: Seq<char>) -> Seq<char>
    decreases s.len(),
{
    if s.len() > 0 && s.last() == '0' {
        strip_zeros(s.drop_last())
    } else {
        s
    }
}

/// The text of `q / 10^k`: a minus sign when negative, the integer part, and
/// the fractional digits without trailing zeros, after a point only when
/// any remain.
pub open spec fn numeral_text(q: int, k: nat) -> Seq<char> {
    let a: nat = if q < 0 {
        (-q) as nat
    } else {
        q as nat
    };
    let sign: Seq<char> = if q < 0 {
        seq!['-']
    } else {
        Seq::empty()
    };
    let whole = nat_digits(a / pow10(k));
    let frac = strip_zeros(padded_digits(a % pow10(k), k));
    if frac.len() == 0 {
        sign + whole
    } else {
        sign + whole + seq!['.'] + frac
    }
}

/// A run of digits with at most one decimal point, starting with a digit.
pub open spec fn unsigned_numeral(b: Seq<char>) -> bool {
    &&& b.len() > 0
    &&& is_digit(b[0])
    &&& forall|i: int| 0 <= i < b.len() ==> is_digit(#[trigger] b[i]) || b[i] == '.'
    &&& forall|i: int, j: int|
        0 <= i < b.len() && 0 <= j < b.len() && #[trigger] b[i] == '.' && #[trigger] b[j] == '.'
            ==> i == j
}

pub open spec fn has_minus(s: Seq<char>) -> bool {
    s.len() > 0 && s[0] == '-'
}

/// `s` without its leading minus sign.
pub open spec fn unsigned_part(s: Seq<char>) -> Seq<char> {
    if has_minus(s) {
        s.drop_first()
    } else {
        s
    }
}

/// A decimal numeral: an optional minus sign, then digits with at most one
/// decimal point, such as `7`, `-0.25`, `3.` or `007`.
pub open spec fn is_numeral(s: Seq<char>) -> bool {
    unsigned_numeral(unsigned_part(s))
}

/// The integer spelled by the digits of `s`, the decimal point skipped.
pub open spec fn digits_value(s: Seq<char>) -> nat
    decreases s.len(),
{
    if s.len() == 0 {
        0
    } else if is_digit(s.last()) {
        digits_value(s.drop_last()) * 10 + digit_value(s.last())
    } else {
        digits_value(s.drop_last())
    }
}

/// Number of characters after the decimal point of `s` (zero without one).
pub open spec fn fraction_len(s: Seq<char>) -> nat
    decreases s.len(),
{
    if s.len() == 0 || s.last() == '.' || !s.drop_last().contains('.') {
        0
    } else {
        fraction_len(s.drop_last()) + 1
    }
}

/// The numeral's value is `numeral_mantissa(s) / 10^numeral_scale(s)`.
pub open spec fn numeral_mantissa(s: Seq<char>) -> int {
    if has_minus(s) {
        -digits_value(unsigned_part(s))
    } else {
        digits_value(unsigned_part(s)) as int
    }
}

pub open spec fn numeral_scale(s: Seq<char>) -> nat {
    fraction_len(unsigned_part(s))
}

fn digit_char_exec(n: u8) -> (c: char)
    requires
        n < 10,
    ensures
        c == digit_char(n as nat),
        is_digit(c),
        digit_value(c) == n,
{
    (n + 48) as char
}

fn digit_value_exec(c: char) -> (n: u8)
    requires
        is_digit(c),
    ensures
        n == digit_value(c),
        n < 10,
{
    (c as u32 - 48) as u8
}

pub fn nat_digits_exec(n: u128) -> (v: Vec<char>)
    ensures
        v@ == nat_digits(n as nat),
{
    let mut v: Vec<char> = Vec::new();
    v.push(digit_char_exec((n % 10) as u8));
    let mut m: u128 = n / 10;
    while m > 0
        invariant
            nat_digits(n as nat) == (if m > 0 {
                nat_digits(m as nat)
            } else {
                Seq::empty()
            }) + v@,
        decreases m,
    {
        let c = digit_char_exec((m % 10) as u8);
        let ghost before = v@;
        v.insert(0, c);
        proof {
            if m >= 10 {
                assert(nat_digits(m as nat) == nat_digits((m / 10) as nat).push(c));
                assert(nat_digits((m / 10) as nat).push(c) + before =~= nat_digits(
                    (m / 10) as nat,
                ) + v@);
            } else {
                assert(nat_digits(m as nat) == seq![c]);
                assert(seq![c] + before =~= Seq::<char>::empty() + v@);
            }
        }
        m = m / 10;
    }
    assert(Seq::<char>::empty() + v@ =~= v@);
    v
}

pub fn padded_digits_exec(n: u128, k: u32) -> (v: Vec<char>)
    ensures
        v@ == padded_digits(n as nat, k as nat),
{
    let mut v: Vec<char> = Vec::new();
    let mut m: u128 = n;
    let mut i: u32 = 0;
    assert(padded_digits(n as nat, k as nat) =~= padded_digits(m as nat, (k - i) as nat) + v@);
    while i < k
        invariant
            i <= k,
            padded_digits(n as nat, k as nat) == padded_digits(m as nat, (k - i) as nat) + v@,
        decreases k - i,
    {
        let c = digit_char_exec((m % 10) as u8);
        let ghost before = v@;
        v.insert(0, c);
        proof {
            assert(padded_digits(m as nat, (k - i) as nat) == padded_digits(
                (m / 10) as nat,
                (k - i - 1) as nat,
            ).push(c));
            assert(padded_digits((m / 10) as nat, (k - i - 1) as nat).push(c) + before
                =~= padded_digits((m / 10) as nat, (k - i - 1) as nat) + v@);
        }
        m = m / 10;
        i = i + 1;
    }
    assert(padded_digits(m as nat, 0) + v@ =~= v@);
    v
}

fn strip_zeros_exec(v: &mut Vec<char>)
    ensures
        final(v)@ == strip_zeros(old(v)@),
{
    while v.len() > 0 && v[v.len() - 1] == '0'
        invariant
            strip_zeros(old(v)@) == strip_zeros(v@),
        decreases v.len(),
    {
        let ghost before = v@;
        v.pop();
        assert(v@ =~= before.drop_last());
    }
}

/// Writes out `q / 10^k` where `q` is `a`, negated when `negative`.
pub fn write_numeral(negative: bool, a: u128, k: u32) -> (v: Vec<char>)
    requires
        k <= 36,
        negative ==> a > 0,
    ensures
        v@ == numeral_text(if negative {
            -(a as int)
        } else {
            a as int
        }, k as nat),
{
    let p: u128 = pow10_exec(k);
    proof {
        lemma_pow10_positive(k as nat);
    }
    let mut out: Vec<char> = Vec::new();
    if negative {
        out.push('-');
    }
    let mut whole = nat_digits_exec(a / p);
    let mut frac = padded_digits_exec(a % p, k);
    strip_zeros_exec(&mut frac);
    let ghost sign = out@;
    let ghost w = whole@;
    let ghost f = frac@;
    out.append(&mut whole);
    if frac.len() > 0 {
        out.push('.');
        out.append(&mut frac);
        assert(out@ =~= sign + w + seq!['.'] + f);
    }
    proof {
        if negative {
            assert(sign =~= seq!['-']);
        } else {
            assert(sign =~= Seq::<char>::empty());
        }
    }
    out
}

proof fn lemma_digit_char(n: nat)
    requires
        n < 10,
    ensures
        is_digit(digit_char(n)),
        digit_char(n) == '0' <==> n == 0,
{
}

pub proof fn lemma_nat_digits_shape(n: nat)
    ensures
        nat_digits(n).len() >= 1,
        forall|i: int| 0 <= i < nat_digits(n).len() ==> is_digit(#[trigger] nat_digits(n)[i]),
    decreases n,
{
    lemma_digit_char(n % 10);
    if n >= 10 {
        lemma_nat_digits_shape(n / 10);
    } else {
        lemma_digit_char(n);
    }
}

pub proof fn lemma_padded_digits_shape(n: nat, k: nat)
    ensures
        padded_digits(n, k).len() == k,
        forall|i: int| 0 <= i < k ==> is_digit(#[trigger] padded_digits(n, k)[i]),
    decreases k,
{
    if k > 0 {
        lemma_padded_digits_shape(n / 10, (k - 1) as nat);
        lemma_digit_char(n % 10);
    }
}

pub proof fn lemma_strip_zeros_shape(s: Seq<char>)
    ensures
        strip_zeros(s).len() <= s.len(),
        forall|i: int| 0 <= i < strip_zeros(s).len() ==> #[trigger] strip_zeros(s)[i] == s[i],
        strip_zeros(s).len() > 0 ==> strip_zeros(s).last() != '0',
    decreases s.len(),
{
    if s.len() > 0 && s.last() == '0' {
        lemma_strip_zeros_shape(s.drop_last());
    }
}

/// Every shown number is a numeral; one with a decimal point ends in a
/// nonzero digit.
pub proof fn lemma_numeral_text_shape(q: int, k: nat)
    ensures
        is_numeral(numeral_text(q, k)),
        numeral_text(q, k).contains('.') ==> numeral_text(q, k).last() != '0'
            && is_digit(numeral_text(q, k).last()),
{
    let a: nat = if q < 0 {
        (-q) as nat
    } else {
        q as nat
    };
    lemma_pow10_positive(k);
    let whole = nat_digits(a / pow10(k));
    let padded = padded_digits(a % pow10(k), k);
    let frac = strip_zeros(padded);
    lemma_nat_digits_shape(a / pow10(k));
    lemma_padded_digits_shape(a % pow10(k), k);
    lemma_strip_zeros_shape(padded);
    let body = if frac.len() == 0 {
        whole
    } else {
        whole + seq!['.'] + frac
    };
    let t = numeral_text(q, k);
    if q < 0 {
        assert(t =~= seq!['-'] + body);
        assert(has_minus(t));
        assert(unsigned_part(t) =~= body);
    } else {
        assert(t =~= body);
        assert(!has_minus(t)) by {
            assert(t[0] == whole[0]);
        }
    }
    assert(unsigned_part(t) == body);
    if frac.len() == 0 {
        assert(forall|i: int| 0 <= i < body.len() ==> is_digit(#[trigger] body[i]));
        assert(!t.contains('.')) by {
            if t.contains('.') {
                let j = choose|j: int| 0 <= j < t.len() && t[j] == '.';
                if q < 0 {
                    assert(t[j] == body[j - 1]);
                } else {
                    assert(t[j] == body[j]);
                }
            }
        }
    } else {
        let w = whole.len() as int;
        assert forall|i: int| 0 <= i < body.len() implies is_digit(#[trigger] body[i]) || body[i]
            == '.' by {
            if i < w {
                assert(body[i] == whole[i]);
            } else if i > w {
                assert(body[i] == frac[i - w - 1]);
                assert(frac[i - w - 1] == padded[i - w - 1]);
            }
        }
        assert forall|i: int, j: int|
            0 <= i < body.len() && 0 <= j < body.len() && #[trigger] body[i] == '.'
                && #[trigger] body[j] == '.' implies i == j by {
            if i < w {
                assert(body[i] == whole[i]);
            } else if i > w {
                assert(body[i] == padded[i - w - 1]);
            }
            if j < w {
                assert(body[j] == whole[j]);
            } else if j > w {
                assert(body[j] == padded[j - w - 1]);
            }
        }
        assert(t.last() == frac.last());
        assert(frac.last() == padded[frac.len() - 1]);
    }
    assert(body[0] == whole[0]);
}

/// `0` and a single digit are numerals.
pub proof fn lemma_single_digit_numeral(d: char)
    requires
        is_digit(d),
    ensures
        is_numeral(seq![d]),
{
    assert(!has_minus(seq![d]));
    assert(unsigned_part(seq![d]) == seq![d]);
}

pub proof fn lemma_zero_point_numeral()
    ensures
        is_numeral(seq!['0', '.']),
{
    let z = seq!['0', '.'];
    assert(!has_minus(z));
    assert(unsigned_part(z) == z);
    assert forall|i: int, j: int|
        0 <= i < z.len() && 0 <= j < z.len() && #[trigger] z[i] == '.' && #[trigger] z[j] == '.'
            implies i == j by {
        assert(z[0] == '0');
    }
}

/// Appending a digit, or a first decimal point, keeps a numeral.
pub proof fn lemma_numeral_push(s: Seq<char>, c: char)
    requires
        is_numeral(s),
        is_digit(c) || (c == '.' && !s.contains('.')),
    ensures
        is_numeral(s.push(c)),
{
    let b = unsigned_part(s);
    let t = s.push(c);
    if has_minus(s) {
        assert(t[0] == '-');
        assert(unsigned_part(t) =~= b.push(c));
    } else {
        assert(t[0] == s[0]);
        assert(unsigned_part(t) =~= b.push(c));
    }
    let bc = b.push(c);
    if c == '.' {
        assert forall|i: int| 0 <= i < b.len() implies b[i] != '.' by {
            if has_minus(s) {
                assert(s[i + 1] == b[i]);
            } else {
                assert(s[i] == b[i]);
            }
        }
    }
    assert forall|i: int, j: int|
        0 <= i < bc.len() && 0 <= j < bc.len() && #[trigger] bc[i] == '.' && #[trigger] bc[j]
            == '.' implies i == j by {
        if i < b.len() {
            assert(bc[i] == b[i]);
        }
        if j < b.len() {
            assert(bc[j] == b[j]);
        }
    }
    assert forall|i: int| 0 <= i < bc.len() implies is_digit(#[trigger] bc[i]) || bc[i] == '.' by {
        if i < b.len() {
            assert(bc[i] == b[i]);
        }
    }
}

/// Dropping the last character keeps a numeral, unless at most a sign is left.
pub proof fn lemma_numeral_drop_last(s: Seq<char>)
    requires
        is_numeral(s),
        s.len() >= 2,
        s.drop_last() != seq!['-'],
    ensures
        is_numeral(s.drop_last()),
{
    let b = unsigned_part(s);
    let t = s.drop_last();
    if has_minus(s) {
        assert(t[0] == '-');
        assert(unsigned_part(t) =~= b.drop_last());
        if t.len() == 1 {
            assert(t =~= seq!['-']);
        }
    } else {
        assert(t[0] == s[0]);
        assert(unsigned_part(t) =~= b.drop_last());
    }
    let bt = b.drop_last();
    assert(bt[0] == b[0]);
    assert forall|i: int| 0 <= i < bt.len() implies is_digit(#[trigger] bt[i]) || bt[i] == '.' by {
        assert(bt[i] == b[i]);
    }
    assert forall|i: int, j: int|
        0 <= i < bt.len() && 0 <= j < bt.len() && #[trigger] bt[i] == '.' && #[trigger] bt[j]
            == '.' implies i == j by {
        assert(bt[i] == b[i]);
        assert(bt[j] == b[j]);
    }
}

/// A numeral with its sign changed is a numeral.
pub proof fn lemma_numeral_negate(s: Seq<char>)
    requires
        is_numeral(s),
    ensures
        has_minus(s) ==> is_numeral(s.drop_first()),
        !has_minus(s) ==> is_numeral(seq!['-'] + s),
{
    let b = unsigned_part(s);
    if has_minus(s) {
        let t = s.drop_first();
        assert(t == b);
        assert(!has_minus(t)) by {
            assert(is_digit(b[0]));
        }
    } else {
        let t = seq!['-'] + s;
        assert(has_minus(t));
        assert(t.drop_first() =~= s);
    }
}

proof fn lemma_prefix_step(b: Seq<char>, i: int)
    requires
        0 <= i < b.len(),
    ensures
        b.take(i + 1).drop_last() =~= b.take(i),
        b.take(i + 1).last() == b[i],
        b.take(i + 1).len() == i + 1,
{
}

proof fn lemma_no_dot_no_fraction(s: Seq<char>)
    requires
        !s.contains('.'),
    ensures
        fraction_len(s) == 0,
{
    if s.len() > 0 {
        assert(s.last() != '.') by {
            assert(s[s.len() - 1] == s.last());
        }
        if s.drop_last().contains('.') {
            let j = choose|j: int| 0 <= j < s.drop_last().len() && s.drop_last()[j] == '.';
            assert(s[j] == '.');
        }
    }
}

/// Reads a numeral: its sign, its digits without the decimal point, and the
/// number of digits after the point; `None` for text that is no numeral.
pub fn scan_numeral(s: &Vec<char>) -> (r: Option<(bool, Vec<char>, usize)>)
    ensures
        r.is_some() <==> is_numeral(s@),
        r matches Some((neg, ds, k)) ==> {
            &&& neg == has_minus(s@)
            &&& all_digits(ds@)
            &&& digits_value(ds@) == digits_value(unsigned_part(s@))
            &&& k == numeral_scale(s@)
            &&& k <= ds@.len()
        },
{
    let neg = s.len() > 0 && s[0] == '-';
    let start: usize = if neg {
        1
    } else {
        0
    };
    let ghost b = unsigned_part(s@);
    assert(b =~= s@.skip(start as int));
    if start >= s.len() {
        return None;
    }
    if !(s[start] >= '0' && s[start] <= '9') {
        return None;
    }
    let mut i: usize = start;
    let mut ds: Vec<char> = Vec::new();
    let mut k: usize = 0;
    let mut seen_dot = false;
    assert(b.take(0) =~= Seq::<char>::empty());
    while i < s.len()
        invariant
            start <= i <= s.len(),
            b =~= s@.skip(start as int),
            b == unsigned_part(s@),
            b.len() > 0,
            is_digit(b[0]),
            forall|j: int| 0 <= j < i - start ==> is_digit(#[trigger] b[j]) || b[j] == '.',
            forall|j1: int, j2: int|
                0 <= j1 < i - start && 0 <= j2 < i - start && #[trigger] b[j1] == '.'
                    && #[trigger] b[j2] == '.' ==> j1 == j2,
            seen_dot == b.take(i - start).contains('.'),
            all_digits(ds@),
            digits_value(ds@) == digits_value(b.take(i - start)),
            k == fraction_len(b.take(i - start)),
            k <= ds@.len(),
        decreases s.len() - i,
    {
        let c = s[i];
        let ghost j = i - start;
        proof {
            lemma_prefix_step(b, j);
            assert(b[j] == c);
        }
        if c == '.' {
            if seen_dot {
                proof {
                    let j0 = choose|j0: int| 0 <= j0 < b.take(j).len() && b.take(j)[j0] == '.';
                    assert(b[j0] == '.' && b[j] == '.' && j0 != j);
                    assert(!unsigned_numeral(b));
                }
                return None;
            }
            seen_dot = true;
            proof {
                assert forall|j1: int| 0 <= j1 < j implies b[j1] != '.' by {
                    if b[j1] == '.' {
                        assert(b.take(j)[j1] == '.');
                    }
                }
                lemma_no_dot_no_fraction(b.take(j));
                assert(b.take(j + 1).contains('.')) by {
                    assert(b.take(j + 1)[j] == '.');
                }
                assert(fraction_len(b.take(j + 1)) == 0);
                assert(digits_value(b.take(j + 1)) == digits_value(b.take(j)));
            }
        } else if c >= '0' && c <= '9' {
            proof {
                assert(digits_value(b.take(j + 1)) == digits_value(b.take(j)) * 10 + digit_value(
                    c,
                ));
                if seen_dot {
                    assert(b.take(j + 1).drop_last().contains('.'));
                    assert(fraction_len(b.take(j + 1)) == fraction_len(b.take(j)) + 1);
                } else {
                    assert(!b.take(j + 1).drop_last().contains('.'));
                    assert(fraction_len(b.take(j + 1)) == 0);
                }
                assert(b.take(j + 1).contains('.') == seen_dot) by {
                    if b.take(j + 1).contains('.') {
                        let t = b.take(j + 1);
                        let j0 = choose|j0: int| 0 <= j0 < t.len() && t[j0] == '.';
                        assert(j0 < j);
                        assert(b.take(j)[j0] == '.');
                    }
                }
            }
            let ghost before = ds@;
            ds.push(c);
            proof {
                assert(ds@.drop_last() =~= before);
                assert(digits_value(ds@) == digits_value(before) * 10 + digit_value(c));
            }
            if seen_dot {
                assert(k < ds.len());
                k = k + 1;
            }
        } else {
            proof {
                assert(!is_digit(b[j]) && b[j] != '.');
                assert(!unsigned_numeral(b));
            }
            return None;
        }
        i = i + 1;
    }
    assert(b.take(i - start) =~= b);
    Some((neg, ds, k))
}

/// Every character is a decimal digit.
pub open spec fn all_digits(s: Seq<char>) -> bool {
    forall|i: int| 0 <= i < s.len() ==> is_digit(#[trigger] s[i])
}

/// The digits split at `i`: the leading part shifted, plus the rest.
pub proof fn lemma_digits_value_split(s: Seq<char>, i: int)
    requires
        all_digits(s),
        0 <= i <= s.len(),
    ensures
        digits_value(s) == digits_value(s.take(i)) * pow10((s.len() - i) as nat) + digits_value(
            s.skip(i),
        ),
    decreases s.len(),
{
    if i == s.len() {
        assert(s.take(i) =~= s);
        assert(s.skip(i) =~= Seq::<char>::empty());
        assert(digits_value(Seq::<char>::empty()) == 0);
        assert(pow10(0) == 1);
        assert(digits_value(s) * 1 == digits_value(s));
    } else {
        let t = s.drop_last();
        lemma_digits_value_split(t, i);
        assert(t.take(i) =~= s.take(i));
        assert(t.skip(i) =~= s.skip(i).drop_last());
        assert(s.skip(i).last() == s.last());
        assert(is_digit(s[s.len() - 1]));
        let p = digits_value(s.take(i));
        let m = pow10((t.len() - i) as nat);
        assert(digits_value(t) == digits_value(t.take(i)) * m + digits_value(t.skip(i)));
        assert(digits_value(t.take(i)) == p);
        assert(pow10((s.len() - i) as nat) == 10 * m);
        let rest = digits_value(t.skip(i));
        let d = digit_value(s.last());
        assert(digits_value(s) == digits_value(t) * 10 + d);
        assert(s.skip(i).len() > 0);
        assert(is_digit(s.skip(i).last()));
        assert(digits_value(s.skip(i)) == digits_value(s.skip(i).drop_last()) * 10 + digit_value(
            s.skip(i).last(),
        ));
        assert(digits_value(s.skip(i)) == rest * 10 + d);
        assert((p * m + rest) * 10 + d == p * (10 * m) + (rest * 10 + d)) by (nonlinear_arith);
        assert(digits_value(s) == p * pow10((s.len() - i) as nat) + digits_value(s.skip(i)));
    }
}

/// `k` digits spell less than `10^k`.
pub proof fn lemma_digits_value_bound(s: Seq<char>)
    requires
        all_digits(s),
    ensures
        digits_value(s) < pow10(s.len()),
    decreases s.len(),
{
    if s.len() == 0 {
        assert(pow10(0) == 1);
    } else {
        let t = s.drop_last();
        lemma_digits_value_bound(t);
        assert(is_digit(s[s.len() - 1]));
        assert(pow10(s.len()) == 10 * pow10(t.len()));
        assert(digits_value(s) == digits_value(t) * 10 + digit_value(s.last()));
        assert(digits_value(t) * 10 + digit_value(s.last()) < 10 * pow10(t.len())) by (
        nonlinear_arith)
            requires
                digits_value(t) < pow10(t.len()),
                digit_value(s.last()) < 10,
        ;
    }
}

/// The leading digit of a digit string, in place.
pub proof fn lemma_digits_value_head(s: Seq<char>)
    requires
        all_digits(s),
        s.len() > 0,
    ensures
        digits_value(s) == digit_value(s[0]) * pow10((s.len() - 1) as nat) + digits_value(
            s.skip(1),
        ),
{
    lemma_digits_value_split(s, 1);
    let h = s.take(1);
    assert(h.drop_last() =~= Seq::<char>::empty());
    assert(h.last() == s[0]);
    assert(is_digit(s[0]));
    assert(digits_value(h) == digits_value(h.drop_last()) * 10 + digit_value(s[0]));
}

/// `round_div(N, 10^j)` for the number `N` that the digits spell, when under
/// `DIGIT_BOUND`; `None` when it is not.
pub fn round_digits(ds: &Vec<char>, j: u128) -> (r: Option<u128>)
    requires
        all_digits(ds@),
    ensures
        match r {
            Some(q) => q == round_div(digits_value(ds@) as int, pow10(j as nat) as int) && q
                < DIGIT_BOUND,
            None => round_div(digits_value(ds@) as int, pow10(j as nat) as int) >= DIGIT_BOUND,
        },
{
    let ghost s = ds@;
    let ghost n_val: int = digits_value(s) as int;
    let ghost pj: int = pow10(j as nat) as int;
    let n = ds.len();
    proof {
        lemma_pow10_positive(j as nat);
        lemma_digits_value_bound(s);
    }
    if j > n as u128 {
        proof {
            lemma_pow10_add(n as nat, (j - n) as nat);
            lemma_pow10_positive((j - n) as nat);
            assert(pow10((j - n) as nat) == 10 * pow10((j - n - 1) as nat));
            lemma_pow10_positive((j - n - 1) as nat);
            assert(2 * n_val < pj) by (nonlinear_arith)
                requires
                    n_val < pow10(n as nat),
                    pj == pow10(n as nat) * pow10((j - n) as nat),
                    pow10((j - n) as nat) >= 10,
                    pow10(n as nat) >= 1,
            ;
            lemma_round_div_from_parts(n_val, pj, 0, n_val);
        }
        return Some(0);
    }
    let i: usize = n - j as usize;
    let mut p: u128 = 0;
    let mut fits = true;
    let mut idx: usize = 0;
    assert(s.take(0) =~= Seq::<char>::empty());
    while idx < i
        invariant
            idx <= i <= n,
            n == s.len(),
            s == ds@,
            all_digits(s),
            fits ==> p == digits_value(s.take(idx as int)) && p < DIGIT_BOUND,
            !fits ==> digits_value(s.take(idx as int)) >= DIGIT_BOUND,
        decreases i - idx,
    {
        let d = digit_value_exec(ds[idx]);
        proof {
            lemma_prefix_step(s, idx as int);
            assert(is_digit(s[idx as int]));
            assert(digits_value(s.take(idx + 1)) == digits_value(s.take(idx as int)) * 10 + d);
        }
        if fits {
            if p > (DIGIT_BOUND - 1 - d as u128) / 10 {
                fits = false;
                assert(p * 10 + d >= DIGIT_BOUND) by (nonlinear_arith)
                    requires
                        p > (DIGIT_BOUND - 1 - d) / 10,
                        d < 10,
                ;
            } else {
                assert(p * 10 + d < DIGIT_BOUND) by (nonlinear_arith)
                    requires
                        p <= (DIGIT_BOUND - 1 - d) / 10,
                        d < 10,
                ;
                p = p * 10 + d as u128;
            }
        }
        idx = idx + 1;
    }
    let ghost pre: int = digits_value(s.take(i as int)) as int;
    let ghost tail: int = digits_value(s.skip(i as int)) as int;
    proof {
        lemma_digits_value_split(s, i as int);
        assert(s.len() - i == j);
        assert(n_val == pre * pj + tail);
        assert(all_digits(s.skip(i as int)));
        lemma_digits_value_bound(s.skip(i as int));
        assert(0 <= tail < pj);
    }
    if !fits {
        proof {
            assert(pre * pj <= n_val) by (nonlinear_arith)
                requires
                    n_val == pre * pj + tail,
                    tail >= 0,
            ;
            lemma_round_div_lower(pre, n_val, pj);
        }
        return None;
    }
    let up: bool = j > 0 && ds[i] >= '5';
    proof {
        lemma_round_div_from_parts(n_val, pj, pre, tail);
        if j > 0 {
            let t = s.skip(i as int);
            lemma_digits_value_head(t);
            assert(t[0] == s[i as int]);
            assert(is_digit(s[i as int]));
            let d0 = digit_value(s[i as int]) as int;
            let low = digits_value(t.skip(1)) as int;
            let pl = pow10((j - 1) as nat) as int;
            assert(pj == 10 * pl);
            assert(all_digits(t.skip(1)));
            lemma_digits_value_bound(t.skip(1));
            assert(t.skip(1).len() == j - 1);
            assert(tail == d0 * pl + low);
            assert((2 * tail >= pj) == (d0 >= 5)) by (nonlinear_arith)
                requires
                    tail == d0 * pl + low,
                    0 <= low < pl,
                    pj == 10 * pl,
                    0 <= d0 < 10,
            ;
            assert((s[i as int] >= '5') == (d0 >= 5));
        } else {
            assert(pj == 1);
        }
    }
    if up {
        if p + 1 >= DIGIT_BOUND {
            return None;
        }
        Some(p + 1)
    } else {
        Some(p)
    }
}

/// `n` nines.
pub open spec fn nines(n: nat) -> Seq<char> {
    Seq::new(n, |i: int| '9')
}

pub fn nines_exec(n: u32) -> (v: Vec<char>)
    ensures
        v@ == nines(n as nat),
{
    let mut v: Vec<char> = Vec::new();
    let mut i: u32 = 0;
    while i < n
        invariant
            i <= n,
            v@ == nines(i as nat),
        decreases n - i,
    {
        v.push('9');
        assert(v@ =~= nines((i + 1) as nat));
        i = i + 1;
    }
    v
}

pub proof fn lemma_nines_value(n: nat)
    ensures
        all_digits(nines(n)),
        digits_value(nines(n)) == pow10(n) - 1,
    decreases n,
{
    if n == 0 {
        assert(pow10(0) == 1);
    } else {
        lemma_nines_value((n - 1) as nat);
        assert(nines(n).drop_last() =~= nines((n - 1) as nat));
        assert(nines(n).last() == '9');
        assert(pow10(n) == 10 * pow10((n - 1) as nat));
    }
}

pub proof fn lemma_nat_digits_value(x: nat)
    ensures
        all_digits(nat_digits(x)),
        digits_value(nat_digits(x)) == x,
    decreases x,
{
    lemma_nat_digits_shape(x);
    lemma_digit_char(x % 10);
    if x >= 10 {
        lemma_nat_digits_value(x / 10);
        let s = nat_digits(x);
        assert(s == nat_digits(x / 10).push(digit_char(x % 10)));
        assert(s.drop_last() =~= nat_digits(x / 10));
        assert(s.last() == digit_char(x % 10));
        assert(digit_value(digit_char(x % 10)) == x % 10);
        assert(digits_value(s) == digits_value(s.drop_last()) * 10 + digit_value(s.last()));
    } else {
        lemma_digit_char(x);
        let s = nat_digits(x);
        assert(s == seq![digit_char(x)]);
        assert(s.drop_last() =~= Seq::<char>::empty());
        assert(digit_value(digit_char(x)) == x);
        assert(digits_value(s) == digits_value(s.drop_last()) * 10 + digit_value(s.last()));
    }
}

pub proof fn lemma_padded_digits_value(x: nat, k: nat)
    ensures
        all_digits(padded_digits(x, k)),
        digits_value(padded_digits(x, k)) == x % pow10(k),
    decreases k,
{
    lemma_padded_digits_shape(x, k);
    if k == 0 {
        assert(pow10(0) == 1);
    } else {
        lemma_padded_digits_value(x / 10, (k - 1) as nat);
        lemma_digit_char(x % 10);
        assert(digit_value(digit_char(x % 10)) == x % 10);
        let p = pow10((k - 1) as nat);
        lemma_pow10_positive((k - 1) as nat);
        assert(padded_digits(x, k).drop_last() == padded_digits(x / 10, (k - 1) as nat));
        let hi = (x / 10) % p;
        vstd::arithmetic::div_mod::lemma_fundamental_div_mod(x as int, 10);
        vstd::arithmetic::div_mod::lemma_fundamental_div_mod((x / 10) as int, p as int);
        vstd::arithmetic::div_mod::lemma_mod_bound((x / 10) as int, p as int);
        let r = hi * 10 + x % 10;
        assert(0 <= r < 10 * p) by (nonlinear_arith)
            requires
                0 <= hi < p,
                0 <= x % 10 < 10,
                r == hi * 10 + x % 10,
        ;
        assert(x == ((x / 10) / p) * (10 * p) + r) by (nonlinear_arith)
            requires
                x == 10 * (x / 10) + x % 10,
                x / 10 == p * ((x / 10) / p) + hi,
                r == hi * 10 + x % 10,
        ;
        vstd::arithmetic::div_mod::lemma_fundamental_div_mod_converse_mod(
            x as int,
            (10 * p) as int,
            ((x / 10) / p) as int,
            r as int,
        );
    }
}

pub proof fn lemma_digits_value_concat(a: Seq<char>, b: Seq<char>)
    requires
        all_digits(a),
        all_digits(b),
    ensures
        all_digits(a + b),
        digits_value(a + b) == digits_value(a) * pow10(b.len()) + digits_value(b),
{
    let c = a + b;
    assert(all_digits(c)) by {
        assert forall|i: int| 0 <= i < c.len() implies is_digit(#[trigger] c[i]) by {
            if i < a.len() {
                assert(c[i] == a[i]);
            } else {
                assert(c[i] == b[i - a.len()]);
            }
        }
    }
    lemma_digits_value_split(c, a.len() as int);
    assert(c.take(a.len() as int) =~= a);
    assert(c.skip(a.len() as int) =~= b);
}

} // verus!
