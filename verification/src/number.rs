//! Decimal numbers as `str::parse::<f64>` reads them, and the frequencies
//! in whole kilohertz that the library derives from them.
//!
//! A number text is kept exactly (its digits and its power of ten) and is
//! rounded to whole kilohertz half away from zero; magnitudes beyond
//! `MAX_KHZ` are held at `MAX_KHZ`, and a text that reads as NaN gives 0.
//!
//! No floating point is computed: the frequency is the exact decimal value
//! rounded, where an `f64` computation (`(k / 1000.0 * 1000.0).round()`)
//! rounds the binary value nearest to the text.  The two differ only for
//! texts within `f64` precision of a half kilohertz (such as
//! `14025.49999999999999999999`, which `f64` reads as `14025.5`), and for
//! magnitudes above `MAX_KHZ`.

use vstd::prelude::*;

verus! {

/// The largest frequency magnitude, in kilohertz, that the library holds.
pub const MAX_KHZ: u64 = 1_000_000_000_000;

/// `10^n`.
pub open spec fn pow10(n: nat) -> nat
    decreases n,
{
    if n == 0 {
        1
    } else {
        10 * pow10((n - 1) as nat)
    }
}

/// An ASCII decimal digit.
pub open spec fn is_digit(c: char) -> bool {
    48 <= (c as u32) <= 57
}

/// The value of the decimal digit `c`.
pub open spec fn digit_of(c: char) -> nat {
    ((c as u32) - 48) as nat
}

/// Every character of `s` is a decimal digit.
pub open spec fn all_digits(s: Seq<char>) -> bool {
    forall|i: int| 0 <= i < s.len() ==> is_digit(#[trigger] s[i])
}

/// The value of the digit string `s` read in base ten.
pub open spec fn digits_value(s: Seq<char>) -> nat
    decreases s.len(),
{
    if s.len() == 0 {
        0
    } else {
        digits_value(s.drop_last()) * 10 + digit_of(s.last())
    }
}

/// The number of consecutive digits in `s` starting at index `i`.
pub open spec fn digit_run(s: Seq<char>, i: int) -> nat
    decreases s.len() - i,
{
    if 0 <= i < s.len() && is_digit(s[i]) {
        1 + digit_run(s, i + 1)
    } else {
        0
    }
}

/// `c` with ASCII upper-case letters turned to lower case.
pub open spec fn ascii_lower(c: char) -> char {
    if 65 <= (c as u32) <= 90 {
        ((c as u32) + 32) as char
    } else {
        c
    }
}

/// `s` equals the lower-case word `w` when ASCII case is ignored.
pub open spec fn same_ignoring_case(s: Seq<char>, w: Seq<char>) -> bool {
    s.len() == w.len() && forall|i: int| 0 <= i < s.len() ==> ascii_lower(#[trigger] s[i]) == w[i]
}

/// A leading `+` or `-` of `s`: whether it was `-`, and the text after it.
pub open spec fn split_sign(s: Seq<char>) -> (bool, Seq<char>) {
    if s.len() > 0 && (s[0] == '+' || s[0] == '-') {
        (s[0] == '-', s.drop_first())
    } else {
        (false, s)
    }
}

/// What a number text stands for.  A finite one is
/// `digits_value(digits) * 10^(exp - frac_len)`, negated when `neg`.
pub enum FloatText {
    Finite { neg: bool, digits: Seq<char>, frac_len: nat, exp: int },
    Infinite { neg: bool },
    NotANumber,
}

/// The exponent after `e` or `E`: an optional sign and at least one digit.
pub open spec fn exp_text(x: Seq<char>) -> Option<int> {
    let (n, d) = split_sign(x);
    if d.len() > 0 && all_digits(d) {
        Some(
            if n {
                -(digits_value(d) as int)
            } else {
                digits_value(d) as int
            },
        )
    } else {
        None
    }
}

/// The reading of `s` under the grammar that `str::parse::<f64>` accepts:
/// an optional sign, then `inf`, `infinity` or `nan` in any ASCII case, or
/// digits with at most one `.` and at least one digit, then optionally
/// `e` or `E`, an optional sign and at least one digit.
pub open spec fn float_text(s: Seq<char>) -> Option<FloatText> {
    let (neg, b) = split_sign(s);
    if same_ignoring_case(b, seq!['i', 'n', 'f']) || same_ignoring_case(
        b,
        seq!['i', 'n', 'f', 'i', 'n', 'i', 't', 'y'],
    ) {
        Some(FloatText::Infinite { neg })
    } else if same_ignoring_case(b, seq!['n', 'a', 'n']) {
        Some(FloatText::NotANumber)
    } else {
        float_text_body(neg, b)
    }
}

/// The reading of the unsigned finite number text `b` (see `float_text`).
pub open spec fn float_text_body(neg: bool, b: Seq<char>) -> Option<FloatText> {
    let n1 = digit_run(b, 0) as int;
    let has_dot = n1 < b.len() && b[n1] == '.';
    let f0 = if has_dot {
        n1 + 1
    } else {
        n1
    };
    let n2 = if has_dot {
        digit_run(b, f0) as int
    } else {
        0
    };
    let e0 = f0 + n2;
    let digits = b.subrange(0, n1) + b.subrange(f0, e0);
    if n1 + n2 == 0 {
        None
    } else if e0 == b.len() {
        Some(FloatText::Finite { neg, digits, frac_len: n2 as nat, exp: 0 })
    } else if b[e0] == 'e' || b[e0] == 'E' {
        match exp_text(b.subrange(e0 + 1, b.len() as int)) {
            Some(e) => Some(FloatText::Finite { neg, digits, frac_len: n2 as nat, exp: e }),
            None => None,
        }
    } else {
        None
    }
}

/// `v * 10^p` rounded to the nearest integer, halves away from zero.
pub open spec fn round_scaled(v: nat, p: int) -> nat {
    if p >= 0 {
        v * pow10(p as nat)
    } else {
        (2 * v + pow10((-p) as nat)) / (2 * pow10((-p) as nat))
    }
}

/// `v * 10^p > bound`.
pub open spec fn exceeds(v: nat, p: int, bound: nat) -> bool {
    if p >= 0 {
        v * pow10(p as nat) > bound
    } else {
        v > bound * pow10((-p) as nat)
    }
}

/// The smaller of `a` and `b`.
pub open spec fn min_nat(a: nat, b: nat) -> nat {
    if a <= b {
        a
    } else {
        b
    }
}

/// The value of `t` times `10^shift` in whole units, rounded half away from
/// zero and held within `MAX_KHZ` in magnitude; NaN gives 0.
pub open spec fn rounded_units(t: FloatText, shift: nat) -> int {
    match t {
        FloatText::Finite { neg, digits, frac_len, exp } => {
            let m = min_nat(round_scaled(digits_value(digits), exp - frac_len + shift), MAX_KHZ as nat);
            if neg {
                -m
            } else {
                m as int
            }
        },
        FloatText::Infinite { neg } => if neg {
            -(MAX_KHZ as int)
        } else {
            MAX_KHZ as int
        },
        FloatText::NotANumber => 0,
    }
}

/// The value of `t` is greater than `bound`.
pub open spec fn text_exceeds(t: FloatText, bound: nat) -> bool {
    match t {
        FloatText::Finite { neg, digits, frac_len, exp } => !neg && exceeds(
            digits_value(digits),
            exp - frac_len,
            bound,
        ),
        FloatText::Infinite { neg } => !neg,
        FloatText::NotANumber => false,
    }
}


// ---------------------------------------------------------------------------
// Arithmetic on digit strings.

/// One more than the largest magnitude held: values from here on are "too large".
pub open spec fn cap() -> nat {
    MAX_KHZ as nat + 1
}

/// The whole part of `v * 10^p`.
pub open spec fn floor_scaled(v: nat, p: int) -> nat {
    if p >= 0 {
        v * pow10(p as nat)
    } else {
        v / pow10((-p) as nat)
    }
}

/// The part of `v` below the unit when `v * 10^p` is taken with `p < 0`,
/// in units of `10^p` (zero when `p >= 0`).
pub open spec fn rem_scaled(v: nat, p: int) -> nat {
    if p >= 0 {
        0
    } else {
        v % pow10((-p) as nat)
    }
}

/// The fractional part of `v * 10^p` is at least one half.
pub open spec fn half_scaled(v: nat, p: int) -> bool {
    p < 0 && 2 * rem_scaled(v, p) >= pow10((-p) as nat)
}

proof fn lemma_pow10_pos(n: nat)
    ensures
        pow10(n) >= 1,
    decreases n,
{
    if n > 0 {
        lemma_pow10_pos((n - 1) as nat);
    }
}

proof fn lemma_pow10_mono(a: nat, b: nat)
    requires
        a <= b,
    ensures
        pow10(a) <= pow10(b),
    decreases b,
{
    if a < b {
        lemma_pow10_mono(a, (b - 1) as nat);
        lemma_pow10_pos((b - 1) as nat);
    }
}

proof fn lemma_digits_value_concat(a: Seq<char>, b: Seq<char>)
    ensures
        digits_value(a + b) == digits_value(a) * pow10(b.len()) + digits_value(b),
    decreases b.len(),
{
    if b.len() == 0 {
        assert(a + b =~= a);
        assert(pow10(0) == 1);
        assert(digits_value(a) * 1 == digits_value(a));
    } else {
        let b1 = b.drop_last();
        assert((a + b).drop_last() =~= a + b1);
        assert((a + b).last() == b.last());
        assert(pow10(b.len()) == 10 * pow10(b1.len()));
        assert(digits_value(a + b) == digits_value((a + b).drop_last()) * 10 + digit_of((a + b).last()));
        assert(digits_value(b) == digits_value(b1) * 10 + digit_of(b.last()));
        lemma_digits_value_concat(a, b1);
        let x = digits_value(a);
        let y = pow10(b1.len());
        let z = digits_value(b1);
        let d = digit_of(b.last());
        assert((x * y + z) * 10 + d == x * (10 * y) + (z * 10 + d)) by (nonlinear_arith);
        assert(digits_value(a + b) == (x * y + z) * 10 + d);
        assert(digits_value(a) * pow10(b.len()) + digits_value(b) == x * (10 * y) + (z * 10 + d));
    }
}

proof fn lemma_digits_value_bound(s: Seq<char>)
    requires
        all_digits(s),
    ensures
        digits_value(s) < pow10(s.len()),
    decreases s.len(),
{
    if s.len() > 0 {
        let s1 = s.drop_last();
        assert(all_digits(s1)) by {
            assert forall|i: int| 0 <= i < s1.len() implies is_digit(#[trigger] s1[i]) by {
                assert(s1[i] == s[i]);
            }
        }
        lemma_digits_value_bound(s1);
        assert(is_digit(s[s.len() - 1]));
        assert(digit_of(s.last()) <= 9);
    }
}

proof fn lemma_digits_zero(s: Seq<char>)
    requires
        all_digits(s),
    ensures
        (digits_value(s) == 0) == (forall|i: int| 0 <= i < s.len() ==> digit_of(#[trigger] s[i]) == 0),
    decreases s.len(),
{
    if s.len() > 0 {
        let s1 = s.drop_last();
        assert(all_digits(s1)) by {
            assert forall|i: int| 0 <= i < s1.len() implies is_digit(#[trigger] s1[i]) by {
                assert(s1[i] == s[i]);
            }
        }
        lemma_digits_zero(s1);
        assert(is_digit(s[s.len() - 1]));
        if digits_value(s) == 0 {
            assert forall|i: int| 0 <= i < s.len() implies digit_of(#[trigger] s[i]) == 0 by {
                if i < s.len() - 1 {
                    assert(s1[i] == s[i]);
                }
            }
        }
        if forall|i: int| 0 <= i < s.len() ==> digit_of(#[trigger] s[i]) == 0 {
            assert forall|i: int| 0 <= i < s1.len() implies digit_of(#[trigger] s1[i]) == 0 by {
                assert(s1[i] == s[i]);
            }
            assert(digit_of(s[s.len() - 1]) == 0);
        }
    }
}

proof fn lemma_digits_half(s: Seq<char>)
    requires
        all_digits(s),
        s.len() >= 1,
    ensures
        (2 * digits_value(s) >= pow10(s.len())) == (digit_of(s[0]) >= 5),
{
    let a = s.subrange(0, 1);
    let b = s.subrange(1, s.len() as int);
    assert(a + b =~= s);
    lemma_digits_value_concat(a, b);
    assert(a.drop_last() =~= Seq::<char>::empty());
    assert(a.last() == s[0]);
    assert(digits_value(a.drop_last()) == 0);
    assert(digits_value(a) == digit_of(s[0]));
    assert(all_digits(b)) by {
        assert forall|i: int| 0 <= i < b.len() implies is_digit(#[trigger] b[i]) by {
            assert(b[i] == s[i + 1]);
        }
    }
    lemma_digits_value_bound(b);
    assert(is_digit(s[0]));
    let d = digit_of(s[0]);
    let y = pow10(b.len());
    let z = digits_value(b);
    assert(pow10(s.len()) == 10 * y);
    assert(d >= 5 ==> 2 * (d * y + z) >= 10 * y) by (nonlinear_arith)
        requires
            z >= 0,
            y >= 0,
    ;
    assert(d < 5 ==> 2 * (d * y + z) < 10 * y) by (nonlinear_arith)
        requires
            z < y,
            d >= 0,
    ;
}

/// `round_scaled` is the whole part plus one when the rest is at least a half.
proof fn lemma_round_split(v: nat, p: int)
    ensures
        round_scaled(v, p) == floor_scaled(v, p) + (if half_scaled(v, p) {
            1nat
        } else {
            0nat
        }),
{
    if p < 0 {
        let k = (-p) as nat;
        let d = pow10(k);
        lemma_pow10_pos(k);
        let q = v / d;
        let r = v % d;
        vstd::arithmetic::div_mod::lemma_fundamental_div_mod(v as int, d as int);
        vstd::arithmetic::div_mod::lemma_mod_pos_bound(v as int, d as int);
        let b: int = if 2 * r >= d {
            1
        } else {
            0
        };
        let r2: int = if b == 1 {
            2 * r - d
        } else {
            (2 * r + d) as int
        };
        assert(0 <= r2 < 2 * d);
        assert(2 * v + d == (q + b) * (2 * d) + r2) by (nonlinear_arith)
            requires
                v == d * q + r,
                b == 1 ==> r2 == 2 * r - d,
                b == 0 ==> r2 == 2 * r + d,
                b == 0 || b == 1,
        ;
        vstd::arithmetic::div_mod::lemma_fundamental_div_mod_converse(
            (2 * v + d) as int,
            (2 * d) as int,
            q + b,
            r2,
        );
    }
}

/// `exceeds` in terms of the whole part and the rest.
proof fn lemma_exceeds_split(v: nat, p: int, bound: nat)
    ensures
        exceeds(v, p, bound) == (floor_scaled(v, p) > bound || (floor_scaled(v, p) == bound
            && rem_scaled(v, p) > 0)),
{
    if p < 0 {
        let k = (-p) as nat;
        let d = pow10(k);
        lemma_pow10_pos(k);
        let q = v / d;
        let r = v % d;
        vstd::arithmetic::div_mod::lemma_fundamental_div_mod(v as int, d as int);
        vstd::arithmetic::div_mod::lemma_mod_pos_bound(v as int, d as int);
        assert(q > bound ==> v > bound * d) by (nonlinear_arith)
            requires
                v == d * q + r,
                r >= 0,
                d >= 1,
        ;
        assert(q == bound ==> (v > bound * d) == (r > 0)) by (nonlinear_arith)
            requires
                v == d * q + r,
        ;
        assert(q < bound ==> v <= bound * d) by (nonlinear_arith)
            requires
                v == d * q + r,
                r < d,
        ;
    }
}

/// Exponents far beyond the digits give the same held result.
proof fn lemma_far_exponents(v: nat, len: nat, p1: int, p2: int)
    requires
        v < pow10(len),
        (p1 >= 13 && p2 >= 13) || (p1 <= -(len + 1) && p2 <= -(len + 1)),
    ensures
        min_nat(floor_scaled(v, p1), cap()) == min_nat(floor_scaled(v, p2), cap()),
        half_scaled(v, p1) == half_scaled(v, p2),
        rem_scaled(v, p1) == rem_scaled(v, p2),
{
    if p1 >= 13 {
        lemma_far_positive(v, p1);
        lemma_far_positive(v, p2);
    } else {
        lemma_far_negative(v, len, p1);
        lemma_far_negative(v, len, p2);
    }
}

proof fn lemma_far_positive(v: nat, p: int)
    requires
        p >= 13,
    ensures
        min_nat(floor_scaled(v, p), cap()) == (if v == 0 {
            0
        } else {
            cap()
        }),
        !half_scaled(v, p),
        rem_scaled(v, p) == 0,
{
    lemma_pow10_mono(13, p as nat);
    assert(pow10(13) == 10000000000000) by {
        reveal_with_fuel(pow10, 14);
    }
    assert(cap() < 10000000000000);
    let f = pow10(p as nat);
    if v > 0 {
        assert(v * f >= f) by (nonlinear_arith)
            requires
                v >= 1,
        ;
    } else {
        assert(v * f == 0) by (nonlinear_arith)
            requires
                v == 0,
        ;
    }
}

proof fn lemma_far_negative(v: nat, len: nat, p: int)
    requires
        v < pow10(len),
        p <= -(len + 1),
    ensures
        floor_scaled(v, p) == 0,
        !half_scaled(v, p),
        rem_scaled(v, p) == v,
{
    let k = (-p) as nat;
    lemma_pow10_mono(len + 1, k);
    assert(pow10(len + 1) == 10 * pow10(len));
    assert(v < pow10(k));
    vstd::arithmetic::div_mod::lemma_fundamental_div_mod_converse(v as int, pow10(k) as int, 0, v as int);
}


proof fn lemma_sat_step(x: nat, d: nat, c: nat)
    ensures
        min_nat(10 * min_nat(x, c) + d, c) == min_nat(10 * x + d, c),
{
}

proof fn lemma_all_digits_sub(s: Seq<char>, lo: int, hi: int)
    requires
        all_digits(s),
        0 <= lo <= hi <= s.len(),
    ensures
        all_digits(s.subrange(lo, hi)),
{
    assert forall|i: int| 0 <= i < hi - lo implies is_digit(#[trigger] s.subrange(lo, hi)[i]) by {
        assert(s.subrange(lo, hi)[i] == s[lo + i]);
    }
}

/// Whether `c` is an ASCII decimal digit.
pub fn is_digit_char(c: char) -> (r: bool)
    ensures
        r == is_digit(c),
{
    let u = c as u32;
    48 <= u && u <= 57
}

/// `digits_value(d[lo..hi])`, held at `limit` when it is larger.
fn digits_value_held(d: &[char], lo: usize, hi: usize, limit: u128) -> (r: u128)
    requires
        lo <= hi <= d.len(),
        all_digits(d@.subrange(lo as int, hi as int)),
        limit <= 0x1_0000_0000_0000_0000_0000_0000_0000,
    ensures
        r == min_nat(digits_value(d@.subrange(lo as int, hi as int)), limit as nat),
{
    let mut acc: u128 = 0;
    let mut i = lo;
    assert(d@.subrange(lo as int, lo as int) =~= Seq::<char>::empty());
    while i < hi
        invariant
            lo <= i <= hi,
            hi <= d.len(),
            all_digits(d@.subrange(lo as int, hi as int)),
            limit <= 0x1_0000_0000_0000_0000_0000_0000_0000,
            acc == min_nat(digits_value(d@.subrange(lo as int, i as int)), limit as nat),
        decreases hi - i,
    {
        let c = d[i];
        proof {
            let t = d@.subrange(lo as int, i + 1);
            assert(t.drop_last() =~= d@.subrange(lo as int, i as int));
            assert(t.last() == c);
            assert(d@.subrange(lo as int, hi as int)[i - lo] == c);
            lemma_sat_step(digits_value(d@.subrange(lo as int, i as int)), digit_of(c), limit as nat);
        }
        let dg = ((c as u32) - 48) as u128;
        let next = acc * 10 + dg;
        acc = if next < limit {
            next
        } else {
            limit
        };
        i = i + 1;
    }
    acc
}

/// Whether every digit of `d[lo..hi]` is `0`.
fn all_zero(d: &[char], lo: usize, hi: usize) -> (r: bool)
    requires
        lo <= hi <= d.len(),
        all_digits(d@.subrange(lo as int, hi as int)),
    ensures
        r == (digits_value(d@.subrange(lo as int, hi as int)) == 0),
{
    let ghost t = d@.subrange(lo as int, hi as int);
    proof {
        lemma_digits_zero(t);
    }
    let mut i = lo;
    while i < hi
        invariant
            lo <= i <= hi,
            hi <= d.len(),
            t == d@.subrange(lo as int, hi as int),
            all_digits(t),
            (digits_value(t) == 0) == (forall|j: int| 0 <= j < t.len() ==> digit_of(#[trigger] t[j]) == 0),
            forall|j: int| 0 <= j < i - lo ==> digit_of(#[trigger] t[j]) == 0,
        decreases hi - i,
    {
        assert(t[i - lo] == d@[i as int]);
        if (d[i] as u32) != 48 {
            assert(is_digit(t[i - lo]));
            assert(digit_of(t[i - lo]) != 0);
            return false;
        }
        i = i + 1;
    }
    true
}

/// The whole part of `digits_value(d) * 10^p` (held at `cap()`), whether its
/// fractional part is at least a half, and whether that part is zero.
fn scale_digits(d: &[char], p: i128) -> (r: (u64, bool, bool))
    requires
        all_digits(d@),
        p > -0x1_0000_0000_0000_0000_0000_0000_0000,
    ensures
        r.0 == min_nat(floor_scaled(digits_value(d@), p as int), cap()),
        r.1 == half_scaled(digits_value(d@), p as int),
        r.2 == (rem_scaled(digits_value(d@), p as int) == 0),
{
    let ghost v = digits_value(d@);
    let len = d.len();
    assert(d@.subrange(0, len as int) =~= d@);
    proof {
        lemma_digits_value_bound(d@);
    }
    if p >= 0 {
        let c: u128 = MAX_KHZ as u128 + 1;
        let mut a = digits_value_held(d, 0, len, c);
        let mut j: i128 = 0;
        assert(pow10(0) == 1);
        assert(v * pow10(0) == v);
        while j < p && a != 0 && a < c
            invariant
                0 <= j <= p,
                c == cap(),
                a == min_nat(v * pow10(j as nat), cap()),
            decreases p - j,
        {
            proof {
                assert(pow10((j + 1) as nat) == 10 * pow10(j as nat));
                assert(v * pow10((j + 1) as nat) == 10 * (v * pow10(j as nat))) by (nonlinear_arith)
                    requires
                        pow10((j + 1) as nat) == 10 * pow10(j as nat),
                ;
                lemma_sat_step(v * pow10(j as nat), 0, cap());
            }
            let next = a * 10;
            a = if next < c {
                next
            } else {
                c
            };
            j = j + 1;
        }
        proof {
            if j < p {
                lemma_pow10_mono(j as nat, p as nat);
                if a == 0 {
                    lemma_pow10_pos(j as nat);
                    assert(v == 0) by (nonlinear_arith)
                        requires
                            v * pow10(j as nat) == 0,
                            pow10(j as nat) >= 1,
                    ;
                    assert(v * pow10(p as nat) == 0) by (nonlinear_arith)
                        requires
                            v == 0,
                    ;
                } else {
                    assert(v * pow10(j as nat) <= v * pow10(p as nat)) by (nonlinear_arith)
                        requires
                            pow10(j as nat) <= pow10(p as nat),
                    ;
                }
            }
        }
        (a as u64, false, true)
    } else {
        let k: i128 = -p;
        let m: i128 = len as i128 - k;
        if m < 0 {
            proof {
                lemma_far_negative(v, len as nat, p as int);
            }
            let z = all_zero(d, 0, len);
            (0, false, z)
        } else {
            let mu = m as usize;
            let ghost a_s = d@.subrange(0, mu as int);
            let ghost b_s = d@.subrange(mu as int, len as int);
            proof {
                assert(a_s + b_s =~= d@);
                lemma_digits_value_concat(a_s, b_s);
                lemma_all_digits_sub(d@, 0, mu as int);
                lemma_all_digits_sub(d@, mu as int, len as int);
                lemma_digits_value_bound(b_s);
                assert(b_s.len() == k);
                lemma_pow10_pos(k as nat);
                vstd::arithmetic::div_mod::lemma_fundamental_div_mod_converse(
                    v as int,
                    pow10(k as nat) as int,
                    digits_value(a_s) as int,
                    digits_value(b_s) as int,
                );
                lemma_digits_half(b_s);
                assert(b_s[0] == d@[mu as int]);
            }
            let c: u128 = MAX_KHZ as u128 + 1;
            let a = digits_value_held(d, 0, mu, c);
            let half = (d[mu] as u32) >= 53;
            let z = all_zero(d, mu, len);
            (a as u64, half, z)
        }
    }
}


// ---------------------------------------------------------------------------
// Reading number texts.

/// The bound at which exponents are held: beyond it, every text with digits
/// this library can hold gives the same result.
pub const EXP_LIMIT: i128 = 0x10_0000_0000_0000_0000_0000_0000;

/// `e` held within `[-EXP_LIMIT, EXP_LIMIT]`.
pub open spec fn held_exp(e: int) -> int {
    if e > EXP_LIMIT {
        EXP_LIMIT as int
    } else if e < -EXP_LIMIT {
        -EXP_LIMIT
    } else {
        e
    }
}

/// The kind of a number text.
pub enum NumberKind {
    Finite,
    Infinite,
    NotANumber,
}

/// A number text read apart: its sign and kind, and for a finite one its
/// digits (without the point), how many of them follow the point, and its
/// exponent (held at `EXP_LIMIT`).
pub struct NumberParts {
    pub neg: bool,
    pub kind: NumberKind,
    pub digits: Vec<char>,
    pub frac_len: usize,
    pub exp: i128,
}

/// `p` holds the reading `t`.
pub open spec fn parts_match(p: NumberParts, t: FloatText) -> bool {
    match t {
        FloatText::Finite { neg, digits, frac_len, exp } => {
            &&& p.kind is Finite
            &&& p.neg == neg
            &&& p.digits@ == digits
            &&& all_digits(digits)
            &&& p.frac_len == frac_len
            &&& p.exp == held_exp(exp)
        },
        FloatText::Infinite { neg } => p.kind is Infinite && p.neg == neg,
        FloatText::NotANumber => p.kind is NotANumber,
    }
}

/// Whether `b` equals the lower-case word `w` when ASCII case is ignored.
fn same_ignoring_case_exec(b: &[char], w: &[char]) -> (r: bool)
    ensures
        r == same_ignoring_case(b@, w@),
{
    if b.len() != w.len() {
        return false;
    }
    let mut i: usize = 0;
    while i < b.len()
        invariant
            i <= b.len(),
            b.len() == w.len(),
            forall|j: int| 0 <= j < i ==> ascii_lower(#[trigger] b@[j]) == w@[j],
        decreases b.len() - i,
    {
        let c = b[i];
        let u = c as u32;
        let lower = if 65 <= u && u <= 90 {
            ((u + 32) as u8) as char
        } else {
            c
        };
        assert(lower == ascii_lower(c));
        if lower != w[i] {
            return false;
        }
        i = i + 1;
    }
    true
}

proof fn lemma_digit_run(b: Seq<char>, i: int, j: int)
    requires
        0 <= i <= j <= b.len(),
        forall|k: int| i <= k < j ==> is_digit(#[trigger] b[k]),
    ensures
        digit_run(b, i) == (j - i) + digit_run(b, j),
    decreases j - i,
{
    if i < j {
        lemma_digit_run(b, i + 1, j);
    }
}

/// The number of consecutive digits in `b` from index `i`.
fn digit_run_exec(b: &[char], i: usize) -> (r: usize)
    requires
        i <= b.len(),
    ensures
        r == digit_run(b@, i as int),
        i + r <= b.len(),
        all_digits(b@.subrange(i as int, i + r)),
{
    let mut j = i;
    while j < b.len() && is_digit_char(b[j])
        invariant
            i <= j <= b.len(),
            forall|k: int| i <= k < j ==> is_digit(#[trigger] b@[k]),
        decreases b.len() - j,
    {
        j = j + 1;
    }
    proof {
        lemma_digit_run(b@, i as int, j as int);
        lemma_all_digits_range(b@, i as int, j as int);
    }
    j - i
}

proof fn lemma_all_digits_range(b: Seq<char>, i: int, j: int)
    requires
        0 <= i <= j <= b.len(),
        forall|k: int| i <= k < j ==> is_digit(#[trigger] b[k]),
    ensures
        all_digits(b.subrange(i, j)),
{
    assert forall|k: int| 0 <= k < j - i implies is_digit(#[trigger] b.subrange(i, j)[k]) by {
        assert(b.subrange(i, j)[k] == b[i + k]);
    }
}

/// Whether every character of `v` is a decimal digit.
fn all_digits_exec(v: &[char]) -> (r: bool)
    ensures
        r == all_digits(v@),
{
    let mut i: usize = 0;
    while i < v.len()
        invariant
            i <= v.len(),
            forall|k: int| 0 <= k < i ==> is_digit(#[trigger] v@[k]),
        decreases v.len() - i,
    {
        if !is_digit_char(v[i]) {
            return false;
        }
        i = i + 1;
    }
    true
}

/// A leading sign of `s` read off: whether it was `-`, and the rest.
fn take_sign(s: &[char]) -> (r: (bool, Vec<char>))
    ensures
        r.0 == split_sign(s@).0,
        r.1@ == split_sign(s@).1,
{
    if s.len() > 0 && (s[0] == '+' || s[0] == '-') {
        let rest = crate::text::sub_chars(s, 1, s.len());
        assert(s@.drop_first() =~= s@.subrange(1, s@.len() as int));
        (s[0] == '-', rest)
    } else {
        let rest = crate::text::sub_chars(s, 0, s.len());
        assert(s@ =~= s@.subrange(0, s@.len() as int));
        (false, rest)
    }
}

/// Reads the exponent text after `e` (see `exp_text`), held at `EXP_LIMIT`.
fn parse_exponent(x: &[char]) -> (r: Option<i128>)
    ensures
        r is None <==> exp_text(x@) is None,
        r matches Some(e) ==> e == held_exp(exp_text(x@)->0),
{
    let (eneg, xs) = take_sign(x);
    if xs.len() == 0 || !all_digits_exec(&xs) {
        return None;
    }
    assert(xs@.subrange(0, xs.len() as int) =~= xs@);
    let mag = digits_value_held(&xs, 0, xs.len(), EXP_LIMIT as u128);
    if eneg {
        Some(-(mag as i128))
    } else {
        Some(mag as i128)
    }
}

/// Reads the number text `s` (see `float_text`).
pub fn parse_number(s: &[char]) -> (r: Option<NumberParts>)
    ensures
        r is None <==> float_text(s@) is None,
        r matches Some(p) ==> parts_match(p, float_text(s@)->0),
{
    let (sign, b) = take_sign(s);
    let inf_word = vec!['i', 'n', 'f'];
    let infinity_word = vec!['i', 'n', 'f', 'i', 'n', 'i', 't', 'y'];
    let nan_word = vec!['n', 'a', 'n'];
    assert(inf_word@ =~= seq!['i', 'n', 'f']);
    assert(infinity_word@ =~= seq!['i', 'n', 'f', 'i', 'n', 'i', 't', 'y']);
    assert(nan_word@ =~= seq!['n', 'a', 'n']);
    if same_ignoring_case_exec(&b, &inf_word) || same_ignoring_case_exec(&b, &infinity_word) {
        return Some(
            NumberParts { neg: sign, kind: NumberKind::Infinite, digits: Vec::new(), frac_len: 0, exp: 0 },
        );
    }
    if same_ignoring_case_exec(&b, &nan_word) {
        return Some(
            NumberParts { neg: sign, kind: NumberKind::NotANumber, digits: Vec::new(), frac_len: 0, exp: 0 },
        );
    }
    finite_number(sign, &b)
}

/// Reads the unsigned finite number text `b`, that is no `inf` or `nan` word.
fn finite_number(sign: bool, b: &[char]) -> (r: Option<NumberParts>)
    requires
        !same_ignoring_case(b@, seq!['i', 'n', 'f']),
        !same_ignoring_case(b@, seq!['i', 'n', 'f', 'i', 'n', 'i', 't', 'y']),
        !same_ignoring_case(b@, seq!['n', 'a', 'n']),
    ensures
        ({
            let t = float_text_body(sign, b@);
            &&& r is None <==> t is None
            &&& r matches Some(p) ==> parts_match(p, t->0)
        }),
{
    let n1 = digit_run_exec(b, 0);
    let has_dot = n1 < b.len() && b[n1] == '.';
    let f0 = if has_dot {
        n1 + 1
    } else {
        n1
    };
    let n2 = if has_dot {
        digit_run_exec(b, f0)
    } else {
        0
    };
    proof {
        if !has_dot {
            assert(b@.subrange(f0 as int, f0 as int) =~= Seq::<char>::empty());
        }
    }
    let e0 = f0 + n2;
    if n1 + n2 == 0 {
        return None;
    }
    let int_part = crate::text::sub_chars(b, 0, n1);
    let frac_part = crate::text::sub_chars(b, f0, e0);
    let digits = crate::text::concat_chars(&int_part, &frac_part);
    proof {
        let ds = b@.subrange(0, n1 as int) + b@.subrange(f0 as int, e0 as int);
        assert(all_digits(ds)) by {
            assert forall|k: int| 0 <= k < ds.len() implies is_digit(#[trigger] ds[k]) by {
                if k < n1 {
                    assert(ds[k] == b@.subrange(0, n1 as int)[k]);
                } else {
                    assert(ds[k] == b@.subrange(f0 as int, e0 as int)[k - n1]);
                }
            }
        }
    }
    if e0 == b.len() {
        return Some(
            NumberParts { neg: sign, kind: NumberKind::Finite, digits, frac_len: n2, exp: 0 },
        );
    }
    if b[e0] != 'e' && b[e0] != 'E' {
        return None;
    }
    let x = crate::text::sub_chars(b, e0 + 1, b.len());
    match parse_exponent(&x) {
        Some(exp) => Some(NumberParts { neg: sign, kind: NumberKind::Finite, digits, frac_len: n2, exp }),
        None => None,
    }
}

/// The value of `p` times `10^shift`, rounded half away from zero and held
/// within `MAX_KHZ` in magnitude; NaN gives 0.
fn parts_units(p: &NumberParts, shift: u8, Ghost(t): Ghost<FloatText>) -> (r: i64)
    requires
        parts_match(*p, t),
        shift <= 3,
    ensures
        r == rounded_units(t, shift as nat),
{
    match p.kind {
        NumberKind::Finite => {
            let pp: i128 = p.exp - p.frac_len as i128 + shift as i128;
            let (f, h, _) = scale_digits(&p.digits, pp);
            proof {
                if let FloatText::Finite { neg, digits, frac_len, exp } = t {
                    let v = digits_value(digits);
                    let truep = exp - frac_len + shift;
                    lemma_digits_value_bound(digits);
                    assert(digits.len() == p.digits.len());
                    assert(frac_len == p.frac_len);
                    if exp != held_exp(exp) {
                        lemma_far_exponents(v, digits.len(), truep, pp as int);
                    }
                    lemma_round_split(v, truep);
                }
            }
            let up: u64 = if h {
                f + 1
            } else {
                f
            };
            let m: u64 = if up < MAX_KHZ {
                up
            } else {
                MAX_KHZ
            };
            if p.neg {
                -(m as i64)
            } else {
                m as i64
            }
        },
        NumberKind::Infinite => {
            if p.neg {
                -(MAX_KHZ as i64)
            } else {
                MAX_KHZ as i64
            }
        },
        NumberKind::NotANumber => 0,
    }
}

/// Whether the value of `p` is greater than `bound`.
fn parts_exceed(p: &NumberParts, bound: u64, Ghost(t): Ghost<FloatText>) -> (r: bool)
    requires
        parts_match(*p, t),
        bound < MAX_KHZ,
    ensures
        r == text_exceeds(t, bound as nat),
{
    match p.kind {
        NumberKind::Finite => {
            let pp: i128 = p.exp - p.frac_len as i128;
            let (f, _, exact) = scale_digits(&p.digits, pp);
            proof {
                if let FloatText::Finite { neg, digits, frac_len, exp } = t {
                    let v = digits_value(digits);
                    let truep = exp - frac_len;
                    lemma_digits_value_bound(digits);
                    assert(digits.len() == p.digits.len());
                    assert(frac_len == p.frac_len);
                    if exp != held_exp(exp) {
                        lemma_far_exponents(v, digits.len(), truep, pp as int);
                    }
                    lemma_exceeds_split(v, truep, bound as nat);
                }
            }
            !p.neg && (f > bound || (f == bound && !exact))
        },
        NumberKind::Infinite => !p.neg,
        NumberKind::NotANumber => false,
    }
}

/// The frequency in whole kilohertz that a kilohertz text gives
/// (`str::parse::<f64>` then rounding to the kilohertz), `None` when the
/// text is no number.
pub open spec fn khz_text_value(s: Seq<char>) -> Option<int> {
    match float_text(s) {
        Some(t) => Some(rounded_units(t, 0)),
        None => None,
    }
}

/// The frequency in whole kilohertz that a HamAlert frequency reading
/// gives: values above 1000 are taken as kilohertz, others as megahertz;
/// no reading gives 0.
pub open spec fn hamalert_khz(t: Option<FloatText>) -> int {
    match t {
        Some(t) => if text_exceeds(t, 1000) {
            rounded_units(t, 0)
        } else {
            rounded_units(t, 3)
        },
        None => 0,
    }
}

/// The frequency in kilohertz written by the kilohertz text `s`.
pub fn khz_from_text(s: &[char]) -> (r: Option<i64>)
    ensures
        r matches Some(k) ==> khz_text_value(s@) == Some(k as int),
        r is None ==> khz_text_value(s@) is None,
{
    match parse_number(s) {
        Some(p) => Some(parts_units(&p, 0, Ghost(float_text(s@)->0))),
        None => None,
    }
}

/// The frequency in kilohertz of a HamAlert frequency text (megahertz, or
/// kilohertz when above 1000); a text that is no number gives 0.
pub fn hamalert_khz_from_text(s: &[char]) -> (r: i64)
    ensures
        r == hamalert_khz(float_text(s@)),
{
    match parse_number(s) {
        Some(p) => {
            let ghost t = float_text(s@)->0;
            if parts_exceed(&p, 1000, Ghost(t)) {
                parts_units(&p, 0, Ghost(t))
            } else {
                parts_units(&p, 3, Ghost(t))
            }
        },
        None => 0,
    }
}


/// Rounding to whole units is off by at most half a unit, and halves go up:
/// for `p < 0`, `(2r - 1) * 10^-p <= 2v < (2r + 1) * 10^-p` where `r` is the
/// rounded value of `v * 10^p`; for `p >= 0` nothing is lost.
pub proof fn law_rounding_within_half(v: nat, p: int)
    ensures
        p >= 0 ==> round_scaled(v, p) == v * pow10(p as nat),
        p < 0 ==> ({
            let d = pow10((-p) as nat);
            let r = round_scaled(v, p);
            &&& (2 * r - 1) * d <= 2 * v
            &&& 2 * v < (2 * r + 1) * d
        }),
{
    if p < 0 {
        let k = (-p) as nat;
        let d = pow10(k);
        lemma_pow10_pos(k);
        let r = round_scaled(v, p);
        let n = 2 * v + d;
        vstd::arithmetic::div_mod::lemma_fundamental_div_mod(n as int, (2 * d) as int);
        vstd::arithmetic::div_mod::lemma_mod_pos_bound(n as int, (2 * d) as int);
        assert((2 * r - 1) * d <= 2 * v && 2 * v < (2 * r + 1) * d) by (nonlinear_arith)
            requires
                n == 2 * d * r + n % (2 * d),
                0 <= n % (2 * d) < 2 * d,
                n == 2 * v + d,
        ;
    }
}

proof fn lemma_whole_number_text(s: Seq<char>)
    requires
        s.len() > 0,
        all_digits(s),
    ensures
        float_text(s) == Some(FloatText::Finite { neg: false, digits: s, frac_len: 0, exp: 0 }),
{
    let (neg, b) = split_sign(s);
    assert(is_digit(s[0]));
    assert(b == s);
    assert(!same_ignoring_case(b, seq!['i', 'n', 'f'])) by {
        if b.len() == 3 {
            assert(is_digit(b[0]));
            assert(ascii_lower(b[0]) == b[0]);
        }
    }
    assert(!same_ignoring_case(b, seq!['i', 'n', 'f', 'i', 'n', 'i', 't', 'y'])) by {
        if b.len() == 8 {
            assert(is_digit(b[0]));
            assert(ascii_lower(b[0]) == b[0]);
        }
    }
    assert(!same_ignoring_case(b, seq!['n', 'a', 'n'])) by {
        if b.len() == 3 {
            assert(is_digit(b[0]));
            assert(ascii_lower(b[0]) == b[0]);
        }
    }
    lemma_digit_run(s, 0, s.len() as int);
    assert(s.subrange(0, s.len() as int) + s.subrange(s.len() as int, s.len() as int) =~= s);
}

/// A whole number of kilohertz is read exactly.
pub proof fn law_whole_numbers_exact(s: Seq<char>)
    requires
        s.len() > 0,
        all_digits(s),
        digits_value(s) <= MAX_KHZ,
    ensures
        khz_text_value(s) == Some(digits_value(s) as int),
{
    lemma_whole_number_text(s);
    assert(pow10(0) == 1);
    assert(digits_value(s) * 1 == digits_value(s));
}

/// A HamAlert frequency given as a whole number is read as kilohertz when
/// it is above 1000 and as megahertz (times 1000 in kilohertz) when it is
/// 1000 or less: `14074` is 14074 kHz, `14` is 14000 kHz, `1000` is
/// 1000000 kHz.
pub proof fn law_hamalert_whole_numbers(s: Seq<char>)
    requires
        s.len() > 0,
        all_digits(s),
        digits_value(s) <= MAX_KHZ,
    ensures
        digits_value(s) > 1000 ==> hamalert_khz(float_text(s)) == digits_value(s) as int,
        digits_value(s) <= 1000 ==> hamalert_khz(float_text(s)) == 1000 * digits_value(s),
{
    lemma_whole_number_text(s);
    assert(pow10(0) == 1);
    assert(pow10(3) == 1000) by {
        reveal_with_fuel(pow10, 4);
    }
    assert(digits_value(s) * 1 == digits_value(s));
}

} // verus!
