//! Exact decimal numbers and the rounding used to present results.
use crate::numeral::{
    lemma_padded_digits_shape, all_digits, digit_char, digits_value, is_digit, is_numeral, lemma_digits_value_concat,
    lemma_nat_digits_value, lemma_nines_value, lemma_numeral_text_shape,
    lemma_padded_digits_value, nat_digits, nat_digits_exec, nines_exec, numeral_mantissa,
    numeral_scale, numeral_text, padded_digits, padded_digits_exec, round_digits, scan_numeral,
    write_numeral,
};
use crate::text::string_of;
use vstd::prelude::*;

verus! {

/// Powers of ten.
pub open spec fn pow10(n: nat) -> nat
    decreases n,
{
    if n == 0 {
        1
    } else {
        10 * pow10((n - 1) as nat)
    }
}

/// `n / d` rounded to the nearest integer, halves away from zero (`d > 0`).
pub open spec fn round_div(n: int, d: int) -> int {
    if n >= 0 {
        (2 * n + d) / (2 * d)
    } else {
        -((2 * (-n) + d) / (2 * d))
    }
}

/// Exclusive bound on the magnitude of every mantissa: numbers carry at most
/// eighteen significant digits.
pub const DIGIT_BOUND: u128 = 1_000_000_000_000_000_000;

/// Largest exponent of a number: every value stays below `10^308`.
pub const MAX_EXP: i32 = 290;

/// Smallest exponent of a number: finer places are rounded away.
pub const MIN_EXP: i32 = -340;

/// Number of decimal places that results are rounded to.
pub const RESULT_PLACES: u32 = 10;

/// Largest denominator that the exact operations produce.
pub const DENOM_BOUND: u128 = 1_000_000_000_000_000_000_000_000_000_000_000_000;

/// Bound on the numerators that the exact operations produce.
pub const NUM_BOUND: u128 = 100_000_000_000_000_000_000_000_000_000_000_000_000;

/// Powers of ten are positive.
pub proof fn lemma_pow10_positive(n: nat)
    ensures
        pow10(n) >= 1,
    decreases n,
{
    if n > 0 {
        lemma_pow10_positive((n - 1) as nat);
    }
}

/// Exponents add.
pub proof fn lemma_pow10_add(a: nat, b: nat)
    ensures
        pow10(a + b) == pow10(a) * pow10(b),
    decreases b,
{
    if b > 0 {
        lemma_pow10_add(a, (b - 1) as nat);
        assert((a + b - 1) as nat == a + (b - 1) as nat);
        assert(pow10(a + b) == 10 * pow10((a + b - 1) as nat));
        assert(pow10(a) * pow10(b) == pow10(a) * (10 * pow10((b - 1) as nat)));
        assert(pow10(a) * (10 * pow10((b - 1) as nat)) == 10 * (pow10(a) * pow10(
            (b - 1) as nat,
        ))) by (nonlinear_arith);
    } else {
        assert(pow10(0) == 1);
        assert(a + b == a);
    }
}

/// Larger exponents give larger powers.
pub proof fn lemma_pow10_monotone(a: nat, b: nat)
    requires
        a <= b,
    ensures
        pow10(a) <= pow10(b),
{
    lemma_pow10_add(a, (b - a) as nat);
    lemma_pow10_positive((b - a) as nat);
    lemma_pow10_positive(a);
    assert(pow10(a) * pow10((b - a) as nat) >= pow10(a)) by (nonlinear_arith)
        requires
            pow10((b - a) as nat) >= 1,
            pow10(a) >= 1,
    ;
}

/// The powers that the bounds are made of.
pub proof fn lemma_pow10_values()
    ensures
        pow10(1) == 10,
        pow10(2) == 100,
        pow10(10) == 10_000_000_000,
        pow10(18) == DIGIT_BOUND,
        pow10(36) == DENOM_BOUND,
        pow10(38) == NUM_BOUND,
{
    reveal_with_fuel(pow10, 39);
}

/// `10^n` as a machine integer.
pub fn pow10_exec(n: u32) -> (r: u128)
    requires
        n <= 38,
    ensures
        r == pow10(n as nat),
        r <= NUM_BOUND,
        n <= 36 ==> r <= DENOM_BOUND,
{
    proof {
        lemma_pow10_values();
    }
    let mut r: u128 = 1;
    let mut i: u32 = 0;
    while i < n
        invariant
            i <= n <= 38,
            r == pow10(i as nat),
            pow10(38) == NUM_BOUND,
        decreases n - i,
    {
        proof {
            lemma_pow10_monotone(i as nat, 37);
            assert(pow10(38) == 10 * pow10(37));
        }
        r = r * 10;
        i = i + 1;
    }
    proof {
        lemma_pow10_monotone(n as nat, 38);
        if n <= 36 {
            lemma_pow10_monotone(n as nat, 36);
        }
    }
    r
}

/// A lower bound of `n / d` is a lower bound of its floor.
proof fn lemma_le_floor(x: int, n: int, d: int)
    requires
        d > 0,
        x * d <= n,
    ensures
        x <= n / d,
{
    vstd::arithmetic::div_mod::lemma_fundamental_div_mod(n, d);
    let q = n / d;
    let r = n % d;
    assert(0 <= r < d) by {
        vstd::arithmetic::div_mod::lemma_mod_bound(n, d);
    }
    if x > q {
        assert(x * d >= (q + 1) * d) by (nonlinear_arith)
            requires
                x >= q + 1,
                d > 0,
        ;
        assert((q + 1) * d == d * q + d) by (nonlinear_arith);
    }
}

/// Rounding never goes below a lower bound of the exact quotient.
pub proof fn lemma_round_div_lower(x: int, n: int, d: int)
    requires
        d > 0,
        x >= 0,
        n >= 0,
        x * d <= n,
    ensures
        x <= round_div(n, d),
{
    assert(x * (2 * d) <= 2 * n + d) by (nonlinear_arith)
        requires
            x * d <= n,
            d > 0,
    ;
    lemma_le_floor(x, 2 * n + d, 2 * d);
}

/// From `n == q * d + r` with `0 <= r < d`, the rounded quotient is `q` or `q + 1`.
pub proof fn lemma_round_div_from_parts(n: int, d: int, q: int, r: int)
    requires
        d > 0,
        q >= 0,
        0 <= r < d,
        n == q * d + r,
    ensures
        round_div(n, d) == if 2 * r >= d {
            q + 1
        } else {
            q
        },
{
    let up: int = if 2 * r >= d {
        1
    } else {
        0
    };
    let rest: int = if 2 * r >= d {
        2 * r - d
    } else {
        2 * r + d
    };
    assert(2 * n + d == (q + up) * (2 * d) + rest) by (nonlinear_arith)
        requires
            n == q * d + r,
            up == 0 || up == 1,
            up == 1 ==> rest == 2 * r - d,
            up == 0 ==> rest == 2 * r + d,
    ;
    assert(0 <= rest < 2 * d);
    vstd::arithmetic::div_mod::lemma_fundamental_div_mod_converse_div(
        2 * n + d,
        2 * d,
        q + up,
        rest,
    );
}

/// `round_div(a * 10^k, d)` when it stays under `DIGIT_BOUND`; `None` when it does not.
pub fn div_round_scaled(a: u128, k: u32, d: u128) -> (r: Option<u128>)
    requires
        0 < d <= DENOM_BOUND,
    ensures
        match r {
            Some(q) => q == round_div(a * pow10(k as nat), d as int) && q < DIGIT_BOUND,
            None => round_div(a * pow10(k as nat), d as int) >= DIGIT_BOUND,
        },
{
    let ghost n: int = a * pow10(k as nat);
    proof {
        lemma_pow10_positive(k as nat);
        assert(a * pow10(k as nat) >= a) by (nonlinear_arith)
            requires
                pow10(k as nat) >= 1,
        ;
    }
    let mut q: u128 = a / d;
    let mut r: u128 = a % d;
    proof {
        vstd::arithmetic::div_mod::lemma_fundamental_div_mod(a as int, d as int);
        assert(q * d + r == a) by (nonlinear_arith)
            requires
                a == d * (a / d) + (a % d),
                q == a / d,
                r == a % d,
        ;
    }
    if q >= DIGIT_BOUND {
        proof {
            lemma_round_div_lower(q as int, n, d as int);
        }
        return None;
    }
    let mut i: u32 = 0;
    assert(pow10(0) == 1);
    while i < k
        invariant
            0 < d <= DENOM_BOUND,
            i <= k,
            q * d + r == a * pow10(i as nat),
            r < d,
            q < DIGIT_BOUND,
            n == a * pow10(k as nat),
        decreases k - i,
    {
        let r10: u128 = r * 10;
        let digit: u128 = r10 / d;
        let nr: u128 = r10 % d;
        proof {
            vstd::arithmetic::div_mod::lemma_fundamental_div_mod(r10 as int, d as int);
            assert(digit * d + nr == r10) by (nonlinear_arith)
                requires
                    r10 == d * (r10 / d) + (r10 % d),
                    digit == r10 / d,
                    nr == r10 % d,
            ;
            assert(digit < 10) by (nonlinear_arith)
                requires
                    digit * d + nr == r10,
                    r10 == r * 10,
                    r < d,
                    nr >= 0,
            ;
            assert(pow10((i + 1) as nat) == 10 * pow10(i as nat));
        }
        let nq: u128 = q * 10 + digit;
        proof {
            assert(nq * d + nr == a * pow10((i + 1) as nat)) by (nonlinear_arith)
                requires
                    nq == q * 10 + digit,
                    digit * d + nr == r * 10,
                    q * d + r == a * pow10(i as nat),
                    pow10((i + 1) as nat) == 10 * pow10(i as nat),
            ;
        }
        if nq >= DIGIT_BOUND {
            proof {
                lemma_pow10_add((i + 1) as nat, (k - i - 1) as nat);
                lemma_pow10_positive((k - i - 1) as nat);
                let m = a * pow10((i + 1) as nat);
                assert(a * pow10(k as nat) == m * pow10((k - i - 1) as nat)) by (nonlinear_arith)
                    requires
                        pow10(k as nat) == pow10((i + 1) as nat) * pow10((k - i - 1) as nat),
                        m == a * pow10((i + 1) as nat),
                ;
                assert(m * pow10((k - i - 1) as nat) >= m) by (nonlinear_arith)
                    requires
                        pow10((k - i - 1) as nat) >= 1,
                        m >= 0,
                ;
                lemma_round_div_lower(nq as int, n, d as int);
            }
            return None;
        }
        q = nq;
        r = nr;
        i = i + 1;
    }
    proof {
        lemma_round_div_from_parts(n, d as int, q as int, r as int);
    }
    if r >= d - r {
        if q + 1 >= DIGIT_BOUND {
            return None;
        }
        Some(q + 1)
    } else {
        Some(q)
    }
}

/// `n * 10^t / d` rounded to the nearest integer, halves away from zero (`d > 0`).
pub open spec fn scaled_round(n: int, d: int, t: int) -> int {
    if t >= 0 {
        round_div(n * pow10(t as nat), d)
    } else {
        round_div(n, d * pow10((-t) as nat))
    }
}

/// Rounds `n * 10^e / d` (`d > 0`) at `10^-j` for `j` from `k` down to
/// `-MAX_EXP`, stopping at the first place where fewer than nineteen digits
/// remain: that rounded value scaled by `10^j`, and `j`.
pub open spec fn fit(n: int, d: int, e: int, k: int) -> Option<(int, int)>
    decreases k + 291,
{
    if k < -(MAX_EXP as int) {
        None
    } else {
        let q = scaled_round(n, d, e + k);
        if -DIGIT_BOUND < q < DIGIT_BOUND {
            Some((q, k))
        } else {
            fit(n, d, e, k - 1)
        }
    }
}

/// The text of `q * 10^-k`.
pub open spec fn shown(q: int, k: int) -> Seq<char> {
    if k >= 0 {
        numeral_text(q, k as nat)
    } else {
        numeral_text(q * pow10((-k) as nat), 0)
    }
}

/// Text for an error in place of a number.
pub open spec fn error_text() -> Seq<char> {
    seq!['E', 'r', 'r', 'o', 'r']
}

/// How the number `n * 10^e / d` (`d > 0`) is shown: rounded to ten places,
/// or to fewer (tens, hundreds, ... included) where needed to keep eighteen
/// significant digits, in fixed notation; `Error` at `10^308` and beyond.
pub open spec fn presented(n: int, d: int, e: int) -> Seq<char> {
    match fit(n, d, e, RESULT_PLACES as int) {
        Some((q, k)) => shown(q, k),
        None => error_text(),
    }
}

/// The value `mantissa * 10^exponent`.
#[derive(Clone, Copy, Debug, PartialEq, Eq, Structural)]
pub struct Decimal {
    pub mantissa: i128,
    pub exponent: i32,
}

/// Moves trailing zeros of the mantissa into the exponent; zero is `0 * 10^0`.
pub open spec fn normalize(m: int, e: int) -> (int, int)
    decreases MAX_EXP - e,
{
    if m == 0 {
        (0, 0)
    } else if e < MAX_EXP && m % 10 == 0 {
        normalize(m / 10, e + 1)
    } else {
        (m, e)
    }
}

pub open spec fn decimal_of(p: (int, int)) -> Decimal {
    Decimal { mantissa: p.0 as i128, exponent: p.1 as i32 }
}

impl Decimal {
    /// At most eighteen significant digits, an exponent in range, and no
    /// trailing zero left in the mantissa.
    pub open spec fn wf(self) -> bool {
        &&& -DIGIT_BOUND < self.mantissa < DIGIT_BOUND
        &&& MIN_EXP <= self.exponent <= MAX_EXP
        &&& self.mantissa == 0 ==> self.exponent == 0
        &&& self.mantissa != 0 && self.exponent < MAX_EXP ==> self.mantissa % 10 != 0
    }

    /// The number `mantissa / 10^scale`.
    pub fn new(mantissa: i128, scale: u32) -> (r: Decimal)
        requires
            -DIGIT_BOUND < mantissa < DIGIT_BOUND,
            scale <= -MIN_EXP,
        ensures
            r.wf(),
            r == decimal_of(normalize(mantissa as int, -(scale as int))),
    {
        normalized(mantissa, -(scale as i32))
    }
}

/// `m * 10^e` in lowest terms.
pub fn normalized(mantissa: i128, exponent: i32) -> (r: Decimal)
    requires
        -DIGIT_BOUND < mantissa < DIGIT_BOUND,
        MIN_EXP <= exponent <= MAX_EXP,
    ensures
        r.wf(),
        r == decimal_of(normalize(mantissa as int, exponent as int)),
{
    if mantissa == 0 {
        return Decimal { mantissa: 0, exponent: 0 };
    }
    let mut m = mantissa;
    let mut e = exponent;
    while e < MAX_EXP && m % 10 == 0
        invariant
            -DIGIT_BOUND < m < DIGIT_BOUND,
            m != 0,
            MIN_EXP <= e <= MAX_EXP,
            normalize(mantissa as int, exponent as int) == normalize(m as int, e as int),
        decreases MAX_EXP - e,
    {
        m = m / 10;
        e = e + 1;
    }
    Decimal { mantissa: m, exponent: e }
}

/// What a display's text stands for: the numeral's value rounded to eighteen
/// significant digits, places finer than `10^MIN_EXP` rounded away; `None`
/// for text that is no numeral, or a value of `10^308` or more.
pub open spec fn parsed(s: Seq<char>) -> Option<Decimal> {
    if is_numeral(s) {
        let f = numeral_scale(s) as int;
        let k0 = if f < -MIN_EXP {
            f
        } else {
            -MIN_EXP as int
        };
        match fit(numeral_mantissa(s), 1, -f, k0) {
            Some((q, k)) => Some(decimal_of(normalize(q, -k))),
            None => None,
        }
    } else {
        None
    }
}

/// Rounding is symmetric about zero.
proof fn lemma_round_div_negate(n: int, d: int)
    requires
        d > 0,
        n >= 0,
    ensures
        round_div(-n, d) == -round_div(n, d),
{
    if n == 0 {
        assert(round_div(0, d) == 0) by {
            vstd::arithmetic::div_mod::lemma_basic_div(d, 2 * d);
        }
    }
}

proof fn lemma_scaled_round_negate(n: int, d: int, t: int)
    requires
        d > 0,
        n >= 0,
    ensures
        scaled_round(-n, d, t) == -scaled_round(n, d, t),
{
    if t >= 0 {
        let p = pow10(t as nat);
        lemma_pow10_positive(t as nat);
        assert(-n * p == -(n * p)) by (nonlinear_arith);
        assert(n * p >= 0) by (nonlinear_arith)
            requires
                n >= 0,
                p >= 1,
        ;
        lemma_round_div_negate(n * p, d);
    } else {
        let p = pow10((-t) as nat);
        lemma_pow10_positive((-t) as nat);
        assert(d * p > 0) by (nonlinear_arith)
            requires
                d > 0,
                p >= 1,
        ;
        lemma_round_div_negate(n, d * p);
    }
}

/// Reads a numeral such as `-12.5`, rounded to the precision of a number.
pub fn parse_decimal(text: &Vec<char>) -> (r: Option<Decimal>)
    ensures
        r == parsed(text@),
        r matches Some(d) ==> d.wf(),
{
    match scan_numeral(text) {
        None => None,
        Some((neg, ds, f)) => {
            let ghost n: int = numeral_mantissa(text@);
            let ghost nv: int = digits_value(ds@) as int;
            let ghost fe: int = f as int;
            let mut k: i64 = if f < 340 {
                f as i64
            } else {
                340
            };
            let ghost k0: int = k as int;
            loop
                invariant
                    -291 <= k <= k0,
                    k0 <= fe,
                    k0 <= 340,
                    k0 == (if fe < -MIN_EXP {
                        fe
                    } else {
                        -MIN_EXP as int
                    }),
                    f == fe,
                    is_numeral(text@),
                    n == numeral_mantissa(text@),
                    fe == numeral_scale(text@),
                    all_digits(ds@),
                    nv == digits_value(ds@),
                    n == (if neg {
                        -nv
                    } else {
                        nv
                    }),
                    fit(n, 1, -fe, k0) == fit(n, 1, -fe, k as int),
                decreases k + 291,
            {
                if k < -290 {
                    return None;
                }
                assert(k >= 0 ==> k as usize <= f);
                let j: u128 = if k >= 0 {
                    (f - k as usize) as u128
                } else {
                    f as u128 + (-k) as u128
                };
                let r = round_digits(&ds, j);
                proof {
                    assert(-fe + k < 0 || -fe + k == 0);
                    assert(j == fe - k);
                    assert(1 * pow10(j as nat) == pow10(j as nat));
                    if -fe + k == 0 {
                        assert(pow10(0) == 1);
                        assert(nv * 1 == nv);
                    }
                    lemma_scaled_round_negate(nv, 1, -fe + k);
                }
                match r {
                    Some(q) => {
                        let m: i128 = if neg {
                            -(q as i128)
                        } else {
                            q as i128
                        };
                        return Some(normalized(m, -(k as i32)));
                    },
                    None => {
                        k = k - 1;
                    },
                }
            }
        },
    }
}

/// `scaled_round(n, d, t)` when it stays under `DIGIT_BOUND`; `None` when it does not.
pub fn scaled_round_exec(n: u128, d: u128, t: i64) -> (r: Option<u128>)
    requires
        n < NUM_BOUND,
        0 < d <= DENOM_BOUND,
        -4000 <= t <= 4000,
    ensures
        match r {
            Some(q) => q == scaled_round(n as int, d as int, t as int) && q < DIGIT_BOUND,
            None => scaled_round(n as int, d as int, t as int) >= DIGIT_BOUND,
        },
{
    proof {
        lemma_pow10_values();
    }
    if t >= 0 {
        return div_round_scaled(n, t as u32, d);
    }
    let j: u32 = (-t) as u32;
    let ghost dp: int = d * pow10(j as nat);
    proof {
        lemma_pow10_positive(j as nat);
        assert(dp >= pow10(j as nat)) by (nonlinear_arith)
            requires
                dp == d * pow10(j as nat),
                d >= 1,
                pow10(j as nat) >= 1,
        ;
    }
    if j >= 39 {
        proof {
            lemma_pow10_monotone(39, j as nat);
            reveal_with_fuel(pow10, 40);
            assert(2 * n < dp);
            lemma_round_div_from_parts(n as int, dp, 0, n as int);
        }
        return Some(0);
    }
    let p = pow10_exec(j);
    let m: u128 = (2 * n) / p;
    let q: u128 = (m + d) / (2 * d);
    proof {
        let x: int = 2 * n + d * p;
        assert(dp == d * p);
        assert(2 * dp == p * (2 * d)) by (nonlinear_arith)
            requires
                dp == d * p,
        ;
        vstd::arithmetic::div_mod::lemma_div_denominator(x, p as int, 2 * d);
        vstd::arithmetic::div_mod::lemma_hoist_over_denominator(2 * n, d as int, p as nat);
        assert(x / (p as int) == (m + d) as int) by {
            assert(d * p == d as int * p as int);
        }
    }
    if q >= DIGIT_BOUND {
        return None;
    }
    Some(q)
}

/// Writes the text of `q * 10^-k`, `q` negated when `negative`.
fn write_shown(negative: bool, q: u128, k: i64) -> (v: Vec<char>)
    requires
        -1000 <= k <= 36,
        negative ==> q > 0,
    ensures
        v@ == shown(if negative {
            -(q as int)
        } else {
            q as int
        }, k as int),
{
    let ghost sq: int = if negative {
        -(q as int)
    } else {
        q as int
    };
    if k >= 0 {
        return write_numeral(negative, q, k as u32);
    }
    let mut v = write_numeral(negative, q, 0);
    let j: i64 = -k;
    let mut i: i64 = 0;
    assert(pow10(0) == 1);
    assert(sq * 1 == sq);
    while i < j
        invariant
            0 <= i <= j,
            negative ==> q > 0,
            sq == (if negative {
                -(q as int)
            } else {
                q as int
            }),
            v@ == numeral_text(sq * pow10(i as nat), 0),
        decreases j - i,
    {
        proof {
            lemma_pow10_positive(i as nat);
            let x = sq * pow10(i as nat);
            assert(pow10((i + 1) as nat) == 10 * pow10(i as nat));
            assert(sq * pow10((i + 1) as nat) == x * 10) by (nonlinear_arith)
                requires
                    x == sq * pow10(i as nat),
                    pow10((i + 1) as nat) == 10 * pow10(i as nat),
            ;
            lemma_numeral_text_times_ten(x);
            assert((x != 0) == (q != 0)) by (nonlinear_arith)
                requires
                    x == sq * pow10(i as nat),
                    pow10(i as nat) >= 1,
                    sq == q || sq == -q,
            ;
        }
        if q > 0 {
            v.push('0');
        }
        i = i + 1;
    }
    v
}

proof fn lemma_numeral_text_times_ten(x: int)
    ensures
        x != 0 ==> numeral_text(x * 10, 0) == numeral_text(x, 0).push('0'),
        x == 0 ==> numeral_text(x * 10, 0) == numeral_text(x, 0),
{
    assert(pow10(0) == 1);
    let a: nat = if x < 0 {
        (-x) as nat
    } else {
        x as nat
    };
    let b: nat = if x * 10 < 0 {
        (-(x * 10)) as nat
    } else {
        (x * 10) as nat
    };
    assert(b == a * 10);
    assert(a / 1 == a && a % 1 == 0);
    assert(b / 1 == b && b % 1 == 0);
    assert(padded_digits(0, 0) == Seq::<char>::empty());
    assert(crate::numeral::strip_zeros(Seq::<char>::empty()) == Seq::<char>::empty());
    if x != 0 {
        assert(b >= 10);
        assert(b / 10 == a);
        assert(b % 10 == 0);
        assert(nat_digits(b) == nat_digits(a).push(digit_char(0)));
        assert(digit_char(0) == '0');
        if x < 0 {
            assert(seq!['-'] + nat_digits(b) =~= (seq!['-'] + nat_digits(a)).push('0'));
        } else {
            assert(Seq::<char>::empty() + nat_digits(b) =~= (Seq::<char>::empty() + nat_digits(
                a,
            )).push('0'));
        }
    }
}

/// Text for `n * 10^e / d`, where `n` is `a`, negated when `negative`.
pub fn present_fraction(negative: bool, a: u128, d: u128, e: i64) -> (r: Vec<char>)
    requires
        a < NUM_BOUND,
        0 < d <= DENOM_BOUND,
        -3000 <= e <= 3000,
        negative ==> a > 0,
    ensures
        r@ == presented(if negative {
            -(a as int)
        } else {
            a as int
        }, d as int, e as int),
{
    let ghost n: int = if negative {
        -(a as int)
    } else {
        a as int
    };
    let mut k: i64 = RESULT_PLACES as i64;
    loop
        invariant
            -291 <= k <= RESULT_PLACES,
            a < NUM_BOUND,
            0 < d <= DENOM_BOUND,
            -3000 <= e <= 3000,
            negative ==> a > 0,
            n == (if negative {
                -(a as int)
            } else {
                a as int
            }),
            fit(n, d as int, e as int, RESULT_PLACES as int) == fit(n, d as int, e as int, k as int),
        decreases k + 291,
    {
        if k < -290 {
            return error_chars();
        }
        let r = scaled_round_exec(a, d, e + k);
        proof {
            lemma_scaled_round_negate(a as int, d as int, (e + k) as int);
        }
        match r {
            Some(q) => {
                return write_shown(negative && q > 0, q, k);
            },
            None => {
                k = k - 1;
            },
        }
    }
}

/// Text for `N * 10^e`, `N` spelled by the digits `ds` and at least
/// `DIGIT_BOUND`, negated when `negative`.
fn present_digits(negative: bool, ds: &Vec<char>, e: i64) -> (r: Vec<char>)
    requires
        all_digits(ds@),
        digits_value(ds@) >= DIGIT_BOUND,
        -3000 <= e <= 3000,
    ensures
        r@ == presented(if negative {
            -(digits_value(ds@) as int)
        } else {
            digits_value(ds@) as int
        }, 1, e as int),
{
    let ghost nv: int = digits_value(ds@) as int;
    let ghost n: int = if negative {
        -nv
    } else {
        nv
    };
    let mut k: i64 = RESULT_PLACES as i64;
    loop
        invariant
            -291 <= k <= RESULT_PLACES,
            -3000 <= e <= 3000,
            all_digits(ds@),
            nv == digits_value(ds@),
            nv >= DIGIT_BOUND,
            n == (if negative {
                -nv
            } else {
                nv
            }),
            fit(n, 1, e as int, RESULT_PLACES as int) == fit(n, 1, e as int, k as int),
        decreases k + 291,
    {
        if k < -290 {
            return error_chars();
        }
        let t: i64 = e + k;
        proof {
            lemma_scaled_round_negate(nv, 1, t as int);
        }
        if t >= 0 {
            proof {
                lemma_pow10_positive(t as nat);
                assert(nv * pow10(t as nat) >= nv) by (nonlinear_arith)
                    requires
                        nv >= 0,
                        pow10(t as nat) >= 1,
                ;
                assert(nv * pow10(t as nat) * 1 <= nv * pow10(t as nat));
                lemma_round_div_lower(nv * pow10(t as nat), nv * pow10(t as nat), 1);
            }
            k = k - 1;
        } else {
            let r = round_digits(ds, (-t) as u128);
            proof {
                assert(1 * pow10((-t) as nat) == pow10((-t) as nat));
            }
            match r {
                Some(q) => {
                    return write_shown(negative && q > 0, q, k);
                },
                None => {
                    k = k - 1;
                },
            }
        }
    }
}

pub fn error_chars() -> (r: Vec<char>)
    ensures
        r@ == error_text(),
{
    let mut v: Vec<char> = Vec::new();
    v.push('E');
    v.push('r');
    v.push('r');
    v.push('o');
    v.push('r');
    assert(v@ =~= error_text());
    v
}

/// A shown number is a numeral, unless it is `Error`.
pub proof fn lemma_presented_shape(n: int, d: int, e: int)
    ensures
        is_numeral(presented(n, d, e)) || presented(n, d, e) == error_text(),
{
    if let Some((q, k)) = fit(n, d, e, RESULT_PLACES as int) {
        lemma_shown_shape(q, k);
    }
}

pub proof fn lemma_shown_shape(q: int, k: int)
    ensures
        is_numeral(shown(q, k)),
        shown(q, k).contains('.') ==> shown(q, k).last() != '0' && is_digit(shown(q, k).last()),
{
    if k >= 0 {
        lemma_numeral_text_shape(q, k as nat);
    } else {
        lemma_numeral_text_shape(q * pow10((-k) as nat), 0);
    }
}

/// The four binary operators: `+`, `-`, `*` and `/`.
pub open spec fn is_operator(op: char) -> bool {
    op == '+' || op == '-' || op == '*' || op == '/'
}

/// The exponent that an exact sum is written over: the smaller exponent of
/// its nonzero terms.
pub open spec fn sum_exponent(ma: int, ea: int, mb: int, eb: int) -> int {
    if ma == 0 {
        eb
    } else if mb == 0 {
        ea
    } else if ea <= eb {
        ea
    } else {
        eb
    }
}

/// The exact sum `ma * 10^ea + mb * 10^eb` as numerator, denominator and exponent.
pub open spec fn sum_value(ma: int, ea: int, mb: int, eb: int) -> (int, int, int) {
    let lo = sum_exponent(ma, ea, mb, eb);
    let ta = if ma == 0 {
        0
    } else {
        ma * pow10((ea - lo) as nat)
    };
    let tb = if mb == 0 {
        0
    } else {
        mb * pow10((eb - lo) as nat)
    };
    (ta + tb, 1, lo)
}

/// The exact value of `a op b` as numerator, positive denominator and exponent.
pub open spec fn op_value(op: char, a: Decimal, b: Decimal) -> (int, int, int) {
    if op == '+' {
        sum_value(a.mantissa as int, a.exponent as int, b.mantissa as int, b.exponent as int)
    } else if op == '-' {
        sum_value(a.mantissa as int, a.exponent as int, -b.mantissa, b.exponent as int)
    } else if op == '*' {
        (a.mantissa * b.mantissa, 1, a.exponent + b.exponent)
    } else if b.mantissa > 0 {
        (a.mantissa as int, b.mantissa as int, a.exponent - b.exponent)
    } else {
        (-a.mantissa, -b.mantissa, a.exponent - b.exponent)
    }
}

/// Division by zero is the one operation without a result.
pub open spec fn op_defined(op: char, b: Decimal) -> bool {
    op != '/' || b.mantissa != 0
}

/// How the result of `a op b` is shown.
pub open spec fn op_text(op: char, a: Decimal, b: Decimal) -> Seq<char> {
    let v = op_value(op, a, b);
    presented(v.0, v.1, v.2)
}

/// Text for a signed numerator.
fn present_signed(n: i128, d: u128, e: i64) -> (r: Vec<char>)
    requires
        -NUM_BOUND < n < NUM_BOUND,
        0 < d <= DENOM_BOUND,
        -3000 <= e <= 3000,
    ensures
        r@ == presented(n as int, d as int, e as int),
{
    if n < 0 {
        present_fraction(true, (-n) as u128, d, e)
    } else {
        present_fraction(false, n as u128, d, e)
    }
}

proof fn lemma_mantissa_product(m: int, p: int)
    requires
        -DIGIT_BOUND < m < DIGIT_BOUND,
        1 <= p <= 10_000_000_000_000_000_000,
    ensures
        -10 * DENOM_BOUND < m * p < 10 * DENOM_BOUND,
{
    assert(-10 * DENOM_BOUND < m * p < 10 * DENOM_BOUND) by (nonlinear_arith)
        requires
            -1_000_000_000_000_000_000 < m < 1_000_000_000_000_000_000,
            1 <= p <= 10_000_000_000_000_000_000,
    ;
}

/// Text for the exact sum `ma * 10^ea + mb * 10^eb`.
fn sum_text(ma: i128, ea: i32, mb: i128, eb: i32) -> (r: Vec<char>)
    requires
        -DIGIT_BOUND < ma < DIGIT_BOUND,
        -DIGIT_BOUND < mb < DIGIT_BOUND,
        -1000 <= ea <= 1000,
        -1000 <= eb <= 1000,
    ensures
        ({
            let v = sum_value(ma as int, ea as int, mb as int, eb as int);
            r@ == presented(v.0, v.1, v.2)
        }),
{
    proof {
        lemma_pow10_values();
    }
    if ma == 0 {
        proof {
            assert(pow10(0) == 1);
        }
        return present_signed(mb, 1, eb as i64);
    }
    if mb == 0 {
        proof {
            assert(pow10(0) == 1);
        }
        return present_signed(ma, 1, ea as i64);
    }
    let lo: i32 = if ea <= eb {
        ea
    } else {
        eb
    };
    let ga: i32 = ea - lo;
    let gb: i32 = eb - lo;
    if ga <= 19 && gb <= 19 {
        let pa = pow10_exec(ga as u32);
        let pb = pow10_exec(gb as u32);
        proof {
            lemma_pow10_monotone(ga as nat, 19);
            lemma_pow10_monotone(gb as nat, 19);
            reveal_with_fuel(pow10, 20);
            lemma_pow10_positive(ga as nat);
            lemma_pow10_positive(gb as nat);
            lemma_mantissa_product(ma as int, pa as int);
            lemma_mantissa_product(mb as int, pb as int);
        }
        let n: i128 = ma * pa as i128 + mb * pb as i128;
        return present_signed(n, 1, lo as i64);
    }
    // One term lies at least twenty places above the other: spell the exact
    // sum out digit by digit.
    let (big, small, g) = if ga > 19 {
        (ma, mb, ga)
    } else {
        (mb, ma, gb)
    };
    let ds = far_sum_digits(big, small, g as u32);
    proof {
        assert(pow10(0) == 1);
        if ga > 19 {
            assert(gb == 0);
            assert(mb * pow10(0) == mb);
        } else {
            assert(ga == 0);
            assert(ma * pow10(0) == ma);
        }
    }
    present_digits(big < 0, &ds, lo as i64)
}

/// The digits of `|big * 10^g + small|` where `big` lies far above `small`.
fn far_sum_digits(big: i128, small: i128, g: u32) -> (ds: Vec<char>)
    requires
        -DIGIT_BOUND < big < DIGIT_BOUND,
        -DIGIT_BOUND < small < DIGIT_BOUND,
        big != 0,
        small != 0,
        20 <= g <= 3000,
    ensures
        all_digits(ds@),
        digits_value(ds@) >= DIGIT_BOUND,
        digits_value(ds@) == (if big < 0 {
            -(big * pow10(g as nat) + small)
        } else {
            big * pow10(g as nat) + small
        }),
{
    let ghost p: int = pow10(g as nat) as int;
    proof {
        lemma_pow10_values();
        lemma_pow10_add(20, (g - 20) as nat);
        lemma_pow10_positive((g - 20) as nat);
        reveal_with_fuel(pow10, 21);
        assert(p >= 100_000_000_000_000_000_000) by (nonlinear_arith)
            requires
                p == pow10(20) * pow10((g - 20) as nat),
                pow10(20) == 100_000_000_000_000_000_000,
                pow10((g - 20) as nat) >= 1,
        ;
    }
    let big_abs: u128 = if big < 0 {
        (-big) as u128
    } else {
        big as u128
    };
    let small_abs: u128 = if small < 0 {
        (-small) as u128
    } else {
        small as u128
    };
    let mut ds: Vec<char>;
    if (big < 0) == (small < 0) {
        ds = nat_digits_exec(big_abs);
        let mut low = padded_digits_exec(small_abs, g);
        let ghost hi_s = ds@;
        let ghost low_s = low@;
        proof {
            lemma_nat_digits_value(big_abs as nat);
            lemma_padded_digits_value(small_abs as nat, g as nat);
            lemma_padded_digits_shape(small_abs as nat, g as nat);
            lemma_pow10_monotone(18, g as nat);
            vstd::arithmetic::div_mod::lemma_small_mod(small_abs as nat, p as nat);
            lemma_digits_value_concat(hi_s, low_s);
        }
        ds.append(&mut low);
        assert(ds@ =~= hi_s + low_s);
    } else {
        ds = nat_digits_exec(big_abs - 1);
        let mut nines = nines_exec(g - 18);
        let mut low = padded_digits_exec(DIGIT_BOUND - small_abs, 18);
        let ghost hi_s = ds@;
        let ghost mid_s = nines@;
        let ghost low_s = low@;
        proof {
            lemma_nat_digits_value((big_abs - 1) as nat);
            lemma_nines_value((g - 18) as nat);
            lemma_padded_digits_value((DIGIT_BOUND - small_abs) as nat, 18);
            lemma_padded_digits_shape((DIGIT_BOUND - small_abs) as nat, 18);
            vstd::arithmetic::div_mod::lemma_small_mod(
                (DIGIT_BOUND - small_abs) as nat,
                DIGIT_BOUND as nat,
            );
            lemma_digits_value_concat(mid_s, low_s);
            lemma_pow10_add(18, (g - 18) as nat);
            lemma_digits_value_concat(hi_s, mid_s + low_s);
            let q18 = pow10((g - 18) as nat) as int;
            assert(p == DIGIT_BOUND * q18);
            assert(low_s.len() == 18);
            assert(mid_s.len() + low_s.len() == g);
            assert(digits_value(mid_s + low_s) == (q18 - 1) * DIGIT_BOUND + (DIGIT_BOUND
                - small_abs));
            assert(digits_value(mid_s + low_s) == p - small_abs) by (nonlinear_arith)
                requires
                    digits_value(mid_s + low_s) == (q18 - 1) * DIGIT_BOUND + (DIGIT_BOUND
                        - small_abs),
                    p == DIGIT_BOUND * q18,
            ;
            assert(digits_value(hi_s + (mid_s + low_s)) == (big_abs - 1) * p + (p - small_abs));
        }
        ds.append(&mut nines);
        ds.append(&mut low);
        assert(ds@ =~= hi_s + (mid_s + low_s));
    }
    proof {
        assert(all_digits(ds@));
        if (big < 0) == (small < 0) {
            assert(digits_value(ds@) == big_abs * p + small_abs);
        } else {
            assert(digits_value(ds@) == big_abs * p - small_abs) by (nonlinear_arith)
                requires
                    digits_value(ds@) == (big_abs - 1) * p + (p - small_abs),
            ;
        }
        assert(big_abs * p >= p) by (nonlinear_arith)
            requires
                big_abs >= 1,
                p >= 1,
        ;
        if big < 0 {
            assert(big * p == -(big_abs * p)) by (nonlinear_arith)
                requires
                    big_abs == -big,
            ;
        } else {
            assert(big * p == big_abs * p);
        }
    }
    ds
}

/// Text for the result of `a op b`.
pub fn operate(op: char, a: Decimal, b: Decimal) -> (r: Vec<char>)
    requires
        a.wf(),
        b.wf(),
        is_operator(op),
        op_defined(op, b),
    ensures
        r@ == op_text(op, a, b),
{
    proof {
        lemma_pow10_values();
    }
    if op == '+' {
        sum_text(a.mantissa, a.exponent, b.mantissa, b.exponent)
    } else if op == '-' {
        sum_text(a.mantissa, a.exponent, -b.mantissa, b.exponent)
    } else if op == '*' {
        proof {
            assert(-DENOM_BOUND < a.mantissa * b.mantissa < DENOM_BOUND) by (nonlinear_arith)
                requires
                    -1_000_000_000_000_000_000 < a.mantissa < 1_000_000_000_000_000_000,
                    -1_000_000_000_000_000_000 < b.mantissa < 1_000_000_000_000_000_000,
            ;
        }
        present_signed(a.mantissa * b.mantissa, 1, a.exponent as i64 + b.exponent as i64)
    } else if b.mantissa > 0 {
        present_signed(a.mantissa, b.mantissa as u128, a.exponent as i64 - b.exponent as i64)
    } else {
        present_signed(-a.mantissa, (-b.mantissa) as u128, a.exponent as i64 - b.exponent as i64)
    }
}

/// How the decimal `n` is shown.
pub open spec fn decimal_text(n: Decimal) -> Seq<char> {
    presented(n.mantissa as int, 1, n.exponent as int)
}

/// Text for `n`, rounded as results are.
pub fn format_decimal(n: Decimal) -> (r: Vec<char>)
    requires
        n.wf(),
    ensures
        r@ == decimal_text(n),
{
    proof {
        lemma_pow10_values();
    }
    present_signed(n.mantissa, 1, n.exponent as i64)
}

/// The text of `n` as the display shows numbers: rounded to ten places, or
/// to fewer where needed to keep eighteen significant digits, in fixed
/// notation, with trailing zeros and a bare decimal point dropped.
pub fn format_number(n: Decimal) -> (r: String)
    requires
        n.wf(),
    ensures
        r@ == decimal_text(n),
{
    string_of(&format_decimal(n))
}

/// How a hundredth of `n` is shown.
pub open spec fn percent_text(n: Decimal) -> Seq<char> {
    presented(n.mantissa as int, 1, n.exponent - 2)
}

/// Text for `n / 100`.
pub fn percent_of(n: Decimal) -> (r: Vec<char>)
    requires
        n.wf(),
    ensures
        r@ == percent_text(n),
{
    proof {
        lemma_pow10_values();
    }
    present_signed(n.mantissa, 1, n.exponent as i64 - 2)
}

/// How `1 / n` is shown (`n` nonzero).
pub open spec fn reciprocal_text(n: Decimal) -> Seq<char> {
    if n.mantissa > 0 {
        presented(1, n.mantissa as int, -n.exponent)
    } else {
        presented(-1, -n.mantissa, -n.exponent)
    }
}

/// Text for `1 / n`.
pub fn reciprocal_of(n: Decimal) -> (r: Vec<char>)
    requires
        n.wf(),
        n.mantissa != 0,
    ensures
        r@ == reciprocal_text(n),
{
    proof {
        lemma_pow10_values();
    }
    if n.mantissa > 0 {
        present_signed(1, n.mantissa as u128, -(n.exponent as i64))
    } else {
        present_signed(-1, (-n.mantissa) as u128, -(n.exponent as i64))
    }
}

/// `s` is the integer square root of `f`: `s*s <= f < (s+1)*(s+1)`.
pub open spec fn is_floor_sqrt(f: nat, s: nat) -> bool {
    s * s <= f < (s + 1) * (s + 1)
}

pub open spec fn floor_sqrt(f: nat) -> nat {
    choose|s: nat| is_floor_sqrt(f, s)
}

/// `4 * m * 10^t`, rounded down.
pub open spec fn four_scaled(m: nat, t: int) -> nat {
    if t >= 0 {
        4 * m * pow10(t as nat)
    } else {
        (4 * m) / pow10((-t) as nat)
    }
}

/// The square root of `m * 10^t` rounded half up: the `q` with
/// `(2q - 1)^2 <= 4 * m * 10^t < (2q + 1)^2`.
pub open spec fn root_rounded(m: nat, t: int) -> nat {
    (floor_sqrt(four_scaled(m, t)) + 1) / 2
}

/// The first place `10^-j`, for `j` from `k` down to `-MAX_EXP`, at which the
/// square root of `m * 10^e`, rounded there, keeps fewer than nineteen
/// digits: that rounded value scaled by `10^j`, and `j`.
pub open spec fn sqrt_fit(m: nat, e: int, k: int) -> Option<(int, int)>
    decreases k + 291,
{
    if k < -(MAX_EXP as int) {
        None
    } else {
        let q = root_rounded(m, e + 2 * k);
        if q < DIGIT_BOUND {
            Some((q as int, k))
        } else {
            sqrt_fit(m, e, k - 1)
        }
    }
}

/// How the square root of a nonnegative `n` is shown.
pub open spec fn sqrt_text(n: Decimal) -> Seq<char> {
    match sqrt_fit(n.mantissa as nat, n.exponent as int, RESULT_PLACES as int) {
        Some((q, k)) => shown(q, k),
        None => error_text(),
    }
}

/// A shown square root is a numeral, unless it is `Error`.
pub proof fn lemma_sqrt_text_shape(n: Decimal)
    ensures
        is_numeral(sqrt_text(n)) || sqrt_text(n) == error_text(),
{
    if let Some((q, k)) = sqrt_fit(n.mantissa as nat, n.exponent as int, RESULT_PLACES as int) {
        lemma_shown_shape(q, k);
    }
}

/// Only one integer is the floor root.
proof fn lemma_floor_sqrt_unique(f: nat, s1: nat, s2: nat)
    requires
        is_floor_sqrt(f, s1),
        is_floor_sqrt(f, s2),
    ensures
        s1 == s2,
{
    if s1 < s2 {
        assert((s1 + 1) * (s1 + 1) <= s2 * s2) by (nonlinear_arith)
            requires
                s1 + 1 <= s2,
        ;
    } else if s2 < s1 {
        assert((s2 + 1) * (s2 + 1) <= s1 * s1) by (nonlinear_arith)
            requires
                s2 + 1 <= s1,
        ;
    }
}

/// Root bound: `10^19`, whose square lies above every radicand used here.
pub const ROOT_BOUND: u128 = 10_000_000_000_000_000_000;

/// The integer square root of `f`.
fn floor_sqrt_exec(f: u128) -> (s: u128)
    requires
        f < NUM_BOUND,
    ensures
        s == floor_sqrt(f as nat),
        s < ROOT_BOUND,
{
    let mut lo: u128 = 0;
    let mut hi: u128 = ROOT_BOUND;
    assert(f < hi * hi);
    while hi - lo > 1
        invariant
            lo < hi <= ROOT_BOUND,
            lo * lo <= f,
            f < hi * hi,
        decreases hi - lo,
    {
        let mid: u128 = lo + (hi - lo) / 2;
        assert(mid * mid <= ROOT_BOUND * ROOT_BOUND) by (nonlinear_arith)
            requires
                mid <= 10_000_000_000_000_000_000,
        ;
        if mid * mid <= f {
            lo = mid;
        } else {
            hi = mid;
        }
    }
    proof {
        assert(hi == lo + 1);
        assert(is_floor_sqrt(f as nat, lo as nat));
        lemma_floor_sqrt_unique(f as nat, lo as nat, floor_sqrt(f as nat));
    }
    lo
}

/// `root_rounded(m, t)` when it stays under `DIGIT_BOUND`; `None` when it does not.
fn root_rounded_exec(m: u128, t: i64) -> (r: Option<u128>)
    requires
        m < DIGIT_BOUND,
        -4000 <= t <= 4000,
    ensures
        match r {
            Some(q) => q == root_rounded(m as nat, t as int) && q < DIGIT_BOUND,
            None => root_rounded(m as nat, t as int) >= DIGIT_BOUND,
        },
{
    proof {
        lemma_pow10_values();
    }
    let ghost fv: nat = four_scaled(m as nat, t as int);
    let f: u128;
    if t >= 0 {
        let too_big: bool;
        if t >= 38 {
            too_big = m > 0;
            proof {
                lemma_pow10_monotone(38, t as nat);
                if m > 0 {
                    assert(fv >= NUM_BOUND) by (nonlinear_arith)
                        requires
                            fv == 4 * m * pow10(t as nat),
                            m >= 1,
                            pow10(t as nat) >= NUM_BOUND,
                    ;
                } else {
                    assert(fv == 0) by (nonlinear_arith)
                        requires
                            fv == 4 * m * pow10(t as nat),
                            m == 0,
                    ;
                }
            }
            f = 0;
        } else {
            let p = pow10_exec(t as u32);
            proof {
                lemma_pow10_positive(t as nat);
            }
            too_big = m > (NUM_BOUND - 1) / (4 * p);
            proof {
                if too_big {
                    assert(fv >= NUM_BOUND) by (nonlinear_arith)
                        requires
                            fv == 4 * m * p,
                            m > (NUM_BOUND - 1) / (4 * p),
                            p >= 1,
                    ;
                } else {
                    assert(4 * m * p < NUM_BOUND) by (nonlinear_arith)
                        requires
                            m <= (NUM_BOUND - 1) / (4 * p),
                            p >= 1,
                    ;
                }
            }
            if too_big {
                f = 0;
            } else {
                f = 4 * m * p;
            }
        }
        if too_big {
            proof {
                let s = floor_sqrt(fv);
                lemma_floor_sqrt_exists(fv);
                assert(s >= ROOT_BOUND) by (nonlinear_arith)
                    requires
                        fv < (s + 1) * (s + 1),
                        fv >= NUM_BOUND,
                ;
            }
            return None;
        }
    } else {
        let j: u32 = (-t) as u32;
        if j >= 20 {
            proof {
                lemma_pow10_monotone(20, j as nat);
                reveal_with_fuel(pow10, 21);
                vstd::arithmetic::div_mod::lemma_basic_div((4 * m) as int, pow10(j as nat) as int);
            }
            f = 0;
        } else {
            let p = pow10_exec(j);
            proof {
                lemma_pow10_positive(j as nat);
            }
            f = (4 * m) / p;
        }
    }
    assert(f == fv);
    let s = floor_sqrt_exec(f);
    let q: u128 = (s + 1) / 2;
    if q >= DIGIT_BOUND {
        return None;
    }
    Some(q)
}

proof fn lemma_floor_sqrt_exists(f: nat)
    ensures
        is_floor_sqrt(f, floor_sqrt(f)),
    decreases f,
{
    if f == 0 {
        assert(0 * 0 <= 0nat && 0nat < (0nat + 1) * (0nat + 1)) by (nonlinear_arith);
        assert(is_floor_sqrt(0, 0));
    } else {
        lemma_floor_sqrt_exists((f - 1) as nat);
        let s = floor_sqrt((f - 1) as nat);
        if (s + 1) * (s + 1) <= f {
            assert(is_floor_sqrt(f, s + 1)) by (nonlinear_arith)
                requires
                    (s + 1) * (s + 1) <= f,
                    f - 1 < (s + 1) * (s + 1),
            ;
        } else {
            assert(is_floor_sqrt(f, s));
        }
    }
}

/// Text for the square root of `n`.
pub fn sqrt_of(n: Decimal) -> (r: Vec<char>)
    requires
        n.wf(),
        n.mantissa >= 0,
    ensures
        r@ == sqrt_text(n),
{
    let m: u128 = n.mantissa as u128;
    let mut k: i64 = RESULT_PLACES as i64;
    loop
        invariant
            -291 <= k <= RESULT_PLACES,
            n.wf(),
            m == n.mantissa,
            sqrt_fit(m as nat, n.exponent as int, RESULT_PLACES as int) == sqrt_fit(
                m as nat,
                n.exponent as int,
                k as int,
            ),
        decreases k + 291,
    {
        if k < -290 {
            return error_chars();
        }
        match root_rounded_exec(m, n.exponent as i64 + 2 * k) {
            Some(q) => {
                return write_shown(false, q, k);
            },
            None => {
                k = k - 1;
            },
        }
    }
}

} // verus!
