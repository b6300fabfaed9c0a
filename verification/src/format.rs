//! Decimal and hexadecimal rendering of integers, as `format!` renders them.

use vstd::prelude::*;

verus! {

/// The ASCII character of the decimal digit `d`.
pub open spec fn digit_char(d: nat) -> char {
    (48 + d) as char
}

/// The lowercase ASCII character of the hexadecimal digit `d`.
pub open spec fn hex_char(d: nat) -> char {
    if d < 10 {
        (48 + d) as char
    } else {
        (87 + d) as char
    }
}

/// `n` in decimal without leading zeros (`"0"` for zero).
pub open spec fn nat_text(n: nat) -> Seq<char>
    decreases n,
{
    if n < 10 {
        seq![digit_char(n)]
    } else {
        nat_text(n / 10).push(digit_char(n % 10))
    }
}

/// `i` in decimal, with a leading `-` when negative (`{}` of an integer).
pub open spec fn int_text(i: int) -> Seq<char> {
    if i < 0 {
        seq!['-'] + nat_text((-i) as nat)
    } else {
        nat_text(i as nat)
    }
}

/// The low 20 bits of `v` as five lowercase hexadecimal digits (`{:05x}`).
pub open spec fn hex5(v: nat) -> Seq<char> {
    seq![
        hex_char(v / 65536 % 16),
        hex_char(v / 4096 % 16),
        hex_char(v / 256 % 16),
        hex_char(v / 16 % 16),
        hex_char(v % 16),
    ]
}

proof fn lemma_nat_text_digits(n: nat)
    ensures
        nat_text(n).len() >= 1,
        forall|i: int| 0 <= i < nat_text(n).len() ==> 48 <= (#[trigger] nat_text(n)[i]) as u32 <= 57,
    decreases n,
{
    if n >= 10 {
        lemma_nat_text_digits(n / 10);
        let t = nat_text(n / 10);
        assert forall|i: int| 0 <= i < nat_text(n).len() implies 48 <= (#[trigger] nat_text(n)[i]) as u32 <= 57 by {
            if i < t.len() {
                assert(nat_text(n)[i] == t[i]);
            }
        }
    }
}

proof fn lemma_nat_text_injective(a: nat, b: nat)
    requires
        nat_text(a) == nat_text(b),
    ensures
        a == b,
    decreases a,
{
    lemma_nat_text_digits(a / 10);
    lemma_nat_text_digits(b / 10);
    if a < 10 && b < 10 {
        assert(nat_text(a)[0] == digit_char(a));
        assert(nat_text(b)[0] == digit_char(b));
    } else if a < 10 {
        assert(nat_text(b).len() >= 2);
    } else if b < 10 {
        assert(nat_text(a).len() >= 2);
    } else {
        assert(nat_text(a).last() == digit_char(a % 10));
        assert(nat_text(b).last() == digit_char(b % 10));
        assert(nat_text(a).drop_last() =~= nat_text(a / 10));
        assert(nat_text(b).drop_last() =~= nat_text(b / 10));
        lemma_nat_text_injective(a / 10, b / 10);
    }
}

/// Different integers are written differently.
pub proof fn lemma_int_text_injective(a: int, b: int)
    requires
        int_text(a) == int_text(b),
    ensures
        a == b,
{
    if a < 0 && b < 0 {
        assert(int_text(a).drop_first() =~= nat_text((-a) as nat));
        assert(int_text(b).drop_first() =~= nat_text((-b) as nat));
        lemma_nat_text_injective((-a) as nat, (-b) as nat);
    } else if a < 0 {
        lemma_nat_text_digits(b as nat);
        assert(int_text(a)[0] == '-');
        assert(48 <= int_text(b)[0] as u32);
    } else if b < 0 {
        lemma_nat_text_digits(a as nat);
        assert(int_text(b)[0] == '-');
        assert(48 <= int_text(a)[0] as u32);
    } else {
        lemma_nat_text_injective(a as nat, b as nat);
    }
}

proof fn lemma_hex_char_injective(a: nat, b: nat)
    requires
        a < 16,
        b < 16,
        hex_char(a) == hex_char(b),
    ensures
        a == b,
{
    assert(hex_char(a) as u32 == if a < 10 { 48 + a } else { 87 + a });
    assert(hex_char(b) as u32 == if b < 10 { 48 + b } else { 87 + b });
}

/// Different numbers below 2^20 are written differently in five
/// hexadecimal digits.
pub proof fn lemma_hex5_injective(a: nat, b: nat)
    requires
        a < 0x10_0000,
        b < 0x10_0000,
        hex5(a) == hex5(b),
    ensures
        a == b,
{
    assert(hex5(a)[0] == hex5(b)[0]);
    assert(hex5(a)[1] == hex5(b)[1]);
    assert(hex5(a)[2] == hex5(b)[2]);
    assert(hex5(a)[3] == hex5(b)[3]);
    assert(hex5(a)[4] == hex5(b)[4]);
    lemma_hex_char_injective(a / 65536 % 16, b / 65536 % 16);
    lemma_hex_char_injective(a / 4096 % 16, b / 4096 % 16);
    lemma_hex_char_injective(a / 256 % 16, b / 256 % 16);
    lemma_hex_char_injective(a / 16 % 16, b / 16 % 16);
    lemma_hex_char_injective(a % 16, b % 16);
    assert(a == (a / 65536 % 16) * 65536 + (a / 4096 % 16) * 4096 + (a / 256 % 16) * 256 + (a / 16 % 16) * 16 + a % 16) by (nonlinear_arith)
        requires a < 0x10_0000;
    assert(b == (b / 65536 % 16) * 65536 + (b / 4096 % 16) * 4096 + (b / 256 % 16) * 256 + (b / 16 % 16) * 16 + b % 16) by (nonlinear_arith)
        requires b < 0x10_0000;
}

/// A frequency of `khz` kilohertz written in megahertz with three decimals
/// (`{:.3}` of `khz / 1000`).
pub open spec fn mhz_text(khz: int) -> Seq<char> {
    let m: nat = if khz < 0 {
        (-khz) as nat
    } else {
        khz as nat
    };
    let frac = m % 1000;
    (if khz < 0 {
        seq!['-']
    } else {
        Seq::<char>::empty()
    }) + nat_text(m / 1000) + seq!['.', digit_char(frac / 100), digit_char(frac / 10 % 10), digit_char(frac % 10)]
}

proof fn lemma_digit_char_injective(a: nat, b: nat)
    requires
        a < 10,
        b < 10,
        digit_char(a) == digit_char(b),
    ensures
        a == b,
{
    assert(digit_char(a) as u32 == 48 + a);
    assert(digit_char(b) as u32 == 48 + b);
}

/// Different frequencies are written differently in megahertz with three
/// decimals.
pub proof fn lemma_mhz_text_injective(a: int, b: int)
    requires
        mhz_text(a) == mhz_text(b),
    ensures
        a == b,
{
    let ma: nat = if a < 0 { (-a) as nat } else { a as nat };
    let mb: nat = if b < 0 { (-b) as nat } else { b as nat };
    let sa = if a < 0 { seq!['-'] } else { Seq::<char>::empty() };
    let sb = if b < 0 { seq!['-'] } else { Seq::<char>::empty() };
    let fa = ma % 1000;
    let fb = mb % 1000;
    let da = seq!['.', digit_char(fa / 100), digit_char(fa / 10 % 10), digit_char(fa % 10)];
    let db = seq!['.', digit_char(fb / 100), digit_char(fb / 10 % 10), digit_char(fb % 10)];
    let pa = sa + nat_text(ma / 1000);
    let pb = sb + nat_text(mb / 1000);
    let t = mhz_text(a);
    assert(t == pa + da);
    assert(mhz_text(b) == pb + db);
    assert(pa.len() == pb.len());
    assert(pa =~= t.subrange(0, pa.len() as int));
    assert(pb =~= t.subrange(0, pa.len() as int));
    assert(da =~= t.subrange(pa.len() as int, t.len() as int));
    assert(db =~= t.subrange(pa.len() as int, t.len() as int));
    assert(da[1] == db[1] && da[2] == db[2] && da[3] == db[3]);
    lemma_digit_char_injective(fa / 100, fb / 100);
    lemma_digit_char_injective(fa / 10 % 10, fb / 10 % 10);
    lemma_digit_char_injective(fa % 10, fb % 10);
    assert(fa == (fa / 100) * 100 + (fa / 10 % 10) * 10 + fa % 10) by (nonlinear_arith)
        requires fa < 1000;
    assert(fb == (fb / 100) * 100 + (fb / 10 % 10) * 10 + fb % 10) by (nonlinear_arith)
        requires fb < 1000;
    lemma_nat_text_digits(ma / 1000);
    lemma_nat_text_digits(mb / 1000);
    if a < 0 && b >= 0 {
        assert(pa[0] == '-');
        assert(pb[0] == nat_text(mb / 1000)[0]);
    } else if b < 0 && a >= 0 {
        assert(pb[0] == '-');
        assert(pa[0] == nat_text(ma / 1000)[0]);
    } else {
        if a < 0 {
            assert(nat_text(ma / 1000) =~= pa.drop_first());
            assert(nat_text(mb / 1000) =~= pb.drop_first());
        } else {
            assert(nat_text(ma / 1000) =~= pa);
            assert(nat_text(mb / 1000) =~= pb);
        }
        lemma_nat_text_injective(ma / 1000, mb / 1000);
        assert(ma == (ma / 1000) * 1000 + fa) by (nonlinear_arith)
            requires fa == ma % 1000;
        assert(mb == (mb / 1000) * 1000 + fb) by (nonlinear_arith)
            requires fb == mb % 1000;
    }
}

/// The character of the decimal digit `d`.
pub fn digit_char_exec(d: u64) -> (c: char)
    requires
        d < 10,
    ensures
        c == digit_char(d as nat),
{
    ((48 + d) as u8) as char
}

/// The character of the hexadecimal digit `d`.
pub fn hex_char_exec(d: u64) -> (c: char)
    requires
        d < 16,
    ensures
        c == hex_char(d as nat),
{
    if d < 10 {
        ((48 + d) as u8) as char
    } else {
        ((87 + d) as u8) as char
    }
}

/// Appends `nat_text(n)` to `out`.
pub fn push_nat_text(out: &mut Vec<char>, n: u64)
    ensures
        final(out)@ == old(out)@ + nat_text(n as nat),
    decreases n,
{
    if n < 10 {
        out.push(digit_char_exec(n));
        assert(nat_text(n as nat) =~= seq![digit_char(n as nat)]);
    } else {
        let ghost before = out@;
        push_nat_text(out, n / 10);
        out.push(digit_char_exec(n % 10));
        assert(out@ =~= before + nat_text(n as nat));
    }
}

/// Appends `int_text(i)` to `out`.
pub fn push_int_text(out: &mut Vec<char>, i: i64)
    ensures
        final(out)@ == old(out)@ + int_text(i as int),
{
    let ghost before = out@;
    if i < 0 {
        out.push('-');
        let m: u64 = (-(i as i128)) as u64;
        push_nat_text(out, m);
        assert(out@ =~= before + int_text(i as int));
    } else {
        push_nat_text(out, i as u64);
    }
}

/// Appends `hex5(v)` to `out`.
pub fn push_hex5(out: &mut Vec<char>, v: u64)
    ensures
        final(out)@ == old(out)@ + hex5(v as nat),
{
    let ghost before = out@;
    out.push(hex_char_exec(v / 65536 % 16));
    out.push(hex_char_exec(v / 4096 % 16));
    out.push(hex_char_exec(v / 256 % 16));
    out.push(hex_char_exec(v / 16 % 16));
    out.push(hex_char_exec(v % 16));
    assert(out@ =~= before + hex5(v as nat));
}

/// Appends `mhz_text(khz)` to `out`.
pub fn push_mhz_text(out: &mut Vec<char>, khz: i64)
    ensures
        final(out)@ == old(out)@ + mhz_text(khz as int),
{
    let ghost before = out@;
    let m: u64 = if khz < 0 {
        (-(khz as i128)) as u64
    } else {
        khz as u64
    };
    if khz < 0 {
        out.push('-');
    }
    let ghost signed = out@;
    push_nat_text(out, m / 1000);
    let frac = m % 1000;
    out.push('.');
    out.push(digit_char_exec(frac / 100));
    out.push(digit_char_exec(frac / 10 % 10));
    out.push(digit_char_exec(frac % 10));
    assert(out@ =~= before + mhz_text(khz as int));
}

} // verus!
