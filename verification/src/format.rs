//! Human-readable byte sizes: `512 B`, `1.5 KB`, `3.1 MB` and so on.
//!
//! Sizes of one kibibyte and more are shown with one decimal.  The decimal is
//! the one that a double-precision division of the byte count by the unit
//! would round to (the byte count is first rounded to the nearest double,
//! ties to even; the tenths are then rounded to the nearest, ties to even).
//! All of it is computed here with integers.
use vstd::prelude::*;
use vstd::string::*;
use vstd::arithmetic::div_mod::{lemma_div_is_ordered, lemma_fundamental_div_mod, lemma_div_multiples_vanish};
use vstd::arithmetic::power2::{pow2, lemma2_to64, lemma2_to64_rest, lemma_pow2_adds};

verus! {

pub const KIB: u64 = 1024;
pub const MIB: u64 = 1048576;
pub const GIB: u64 = 1073741824;
pub const TIB: u64 = 1099511627776;
pub const PIB: u64 = 1125899906842624;

/// The character of a decimal digit.
pub open spec fn digit_char(d: nat) -> char {
    if d == 0 { '0' }
    else if d == 1 { '1' }
    else if d == 2 { '2' }
    else if d == 3 { '3' }
    else if d == 4 { '4' }
    else if d == 5 { '5' }
    else if d == 6 { '6' }
    else if d == 7 { '7' }
    else if d == 8 { '8' }
    else { '9' }
}

/// The decimal notation of `n`, without leading zeros.
pub open spec fn decimal(n: nat) -> Seq<char>
    decreases n,
{
    if n < 10 {
        seq![digit_char(n)]
    } else {
        decimal(n / 10).push(digit_char(n % 10))
    }
}

/// Which unit a size is shown in: 0 for bytes, 1 for KB, ... 5 for PB.
pub open spec fn unit_rank(b: nat) -> nat {
    if b < KIB { 0 }
    else if b < MIB { 1 }
    else if b < GIB { 2 }
    else if b < TIB { 3 }
    else if b < PIB { 4 }
    else { 5 }
}

/// The number of bytes in the unit of rank `k`.
pub open spec fn unit_scale(k: nat) -> nat {
    if k == 0 { 1 }
    else if k == 1 { KIB as nat }
    else if k == 2 { MIB as nat }
    else if k == 3 { GIB as nat }
    else if k == 4 { TIB as nat }
    else { PIB as nat }
}

/// The name of the unit of rank `k`.
pub open spec fn unit_suffix(k: nat) -> Seq<char> {
    if k == 0 { seq!['B'] }
    else if k == 1 { seq!['K', 'B'] }
    else if k == 2 { seq!['M', 'B'] }
    else if k == 3 { seq!['G', 'B'] }
    else if k == 4 { seq!['T', 'B'] }
    else { seq!['P', 'B'] }
}

/// `n / d` rounded to the nearest integer, ties to the even one.
pub open spec fn round_half_even(n: nat, d: nat) -> nat
    recommends
        d > 0,
{
    let q = n / d;
    let r = n % d;
    if 2 * r < d {
        q
    } else if 2 * r > d {
        q + 1
    } else if q % 2 == 0 {
        q
    } else {
        q + 1
    }
}

/// The distance between neighbouring doubles around a 64-bit count `b`.
pub open spec fn f64_spacing(b: nat) -> nat {
    if b < 0x20_0000_0000_0000 { 1 }
    else if b < 0x40_0000_0000_0000 { 2 }
    else if b < 0x80_0000_0000_0000 { 4 }
    else if b < 0x100_0000_0000_0000 { 8 }
    else if b < 0x200_0000_0000_0000 { 16 }
    else if b < 0x400_0000_0000_0000 { 32 }
    else if b < 0x800_0000_0000_0000 { 64 }
    else if b < 0x1000_0000_0000_0000 { 128 }
    else if b < 0x2000_0000_0000_0000 { 256 }
    else if b < 0x4000_0000_0000_0000 { 512 }
    else if b < 0x8000_0000_0000_0000 { 1024 }
    else { 2048 }
}

/// The double nearest to `b` (ties to even), as an integer.
pub open spec fn as_f64(b: nat) -> nat {
    round_half_even(b, f64_spacing(b)) * f64_spacing(b)
}

/// The size in its unit, in tenths, rounded as one-decimal formatting does.
pub open spec fn tenths(b: nat) -> nat {
    round_half_even(10 * as_f64(b), unit_scale(unit_rank(b)))
}

/// The text that `format_size` gives for `b` bytes.
pub open spec fn size_text(b: nat) -> Seq<char> {
    if b < KIB {
        decimal(b) + seq![' ', 'B']
    } else {
        let t = tenths(b);
        decimal(t / 10) + seq!['.', digit_char(t % 10), ' '] + unit_suffix(unit_rank(b))
    }
}

/// Below 2^53 bytes every count is a double, so no rounding happens before
/// the division.
pub proof fn lemma_small_counts_exact(b: nat)
    requires
        b < 0x20_0000_0000_0000,
    ensures
        as_f64(b) == b,
{
    assert(f64_spacing(b) == 1);
    assert(b / 1 == b && b % 1 == 0);
}

/// From 1 KiB up to 1 PiB, the number shown reads from 1.0 to 1024.0: a size
/// is shown in the largest unit that it reaches.
pub proof fn lemma_shown_value_in_unit_range(b: nat)
    requires
        KIB <= b < PIB,
    ensures
        10 <= tenths(b) <= 10240,
{
    lemma_small_counts_exact(b);
    let u = unit_scale(unit_rank(b));
    let q = (10 * b) / u;
    assert(u <= b < 1024 * u);
    assert(10 <= q < 10240) by (nonlinear_arith)
        requires
            u <= b < 1024 * u,
            u > 0,
            q == (10 * b) / u,
    {
        assert(10 * u <= 10 * b);
        assert(10 * b < 10240 * u);
    }
}

/// Rounding to the nearest multiple never reverses the order of two numbers.
pub proof fn lemma_round_half_even_monotone(n1: nat, n2: nat, d: nat)
    requires
        n1 <= n2,
        d > 0,
    ensures
        round_half_even(n1, d) <= round_half_even(n2, d),
{
    lemma_div_is_ordered(n1 as int, n2 as int, d as int);
    lemma_fundamental_div_mod(n1 as int, d as int);
    lemma_fundamental_div_mod(n2 as int, d as int);
    let q1 = n1 / d;
    let q2 = n2 / d;
    if q1 == q2 {
        assert(n1 % d <= n2 % d);
    }
}

/// A multiple of `d` is its own nearest multiple.
pub proof fn lemma_round_half_even_exact(k: nat, d: nat)
    requires
        d > 0,
    ensures
        round_half_even(k * d, d) == k,
{
    lemma_div_multiples_vanish(k as int, d as int);
    lemma_fundamental_div_mod((k * d) as int, d as int);
    assert(k * d == d * k) by (nonlinear_arith);
}

/// Scaling by a positive factor keeps the order.
proof fn lemma_mul_monotone(x: nat, y: nat, c: nat)
    requires
        x <= y,
    ensures
        x * c <= y * c,
{
    assert(x * c <= y * c) by (nonlinear_arith)
        requires
            x <= y,
    ;
}

/// The binary exponent of the spacing of doubles around `b`.
pub open spec fn f64_exponent(b: nat) -> nat {
    if b < 0x20_0000_0000_0000 { 0 }
    else if b < 0x40_0000_0000_0000 { 1 }
    else if b < 0x80_0000_0000_0000 { 2 }
    else if b < 0x100_0000_0000_0000 { 3 }
    else if b < 0x200_0000_0000_0000 { 4 }
    else if b < 0x400_0000_0000_0000 { 5 }
    else if b < 0x800_0000_0000_0000 { 6 }
    else if b < 0x1000_0000_0000_0000 { 7 }
    else if b < 0x2000_0000_0000_0000 { 8 }
    else if b < 0x4000_0000_0000_0000 { 9 }
    else if b < 0x8000_0000_0000_0000 { 10 }
    else { 11 }
}

/// The spacing around a 64-bit count is the power of two of its exponent,
/// and the count lies in that exponent's band of doubles.
proof fn lemma_spacing_band(b: nat)
    requires
        b <= u64::MAX,
    ensures
        f64_spacing(b) == pow2(f64_exponent(b)),
        f64_exponent(b) <= 11,
        b < pow2(53 + f64_exponent(b)),
        f64_exponent(b) > 0 ==> pow2(52 + f64_exponent(b)) <= b,
{
    lemma2_to64();
    lemma2_to64_rest();
}

/// Rounding a count to the nearest double never reverses the order of two
/// counts.
pub proof fn lemma_as_f64_monotone(a: nat, b: nat)
    requires
        a <= b <= u64::MAX,
    ensures
        as_f64(a) <= as_f64(b),
{
    lemma_spacing_band(a);
    lemma_spacing_band(b);
    let ga = f64_spacing(a);
    let gb = f64_spacing(b);
    let ea = f64_exponent(a);
    let eb = f64_exponent(b);
    assert(ea <= eb);
    lemma2_to64();
    if ea == eb {
        lemma_round_half_even_monotone(a, b, ga);
        lemma_mul_monotone(round_half_even(a, ga), round_half_even(b, ga), ga);
    } else {
        let p = pow2(52 + eb);
        let k = pow2((52 + eb - ea) as nat);
        lemma_pow2_adds((52 + eb - ea) as nat, ea);
        assert(p == k * ga);
        lemma_pow2_adds(52, eb);
        assert(p == pow2(52) * gb);
        assert(pow2(53 + ea) <= p) by {
            if 53 + ea < 52 + eb {
                vstd::arithmetic::power2::lemma_pow2_strictly_increases(53 + ea, 52 + eb);
            }
        }
        lemma_round_half_even_monotone(a, p, ga);
        lemma_mul_monotone(round_half_even(a, ga), round_half_even(p, ga), ga);
        lemma_round_half_even_exact(k, ga);
        lemma_round_half_even_monotone(p, b, gb);
        lemma_mul_monotone(round_half_even(p, gb), round_half_even(b, gb), gb);
        lemma_round_half_even_exact(pow2(52), gb);
        assert(pow2(52) * gb == p);
    }
}

/// Ten times the amount that `size_text(b)` reads as, in bytes: the number
/// shown, with its decimal, times its unit.
pub open spec fn shown_tenths(b: nat) -> nat {
    if b < KIB {
        10 * b
    } else {
        tenths(b) * unit_scale(unit_rank(b))
    }
}

/// Each unit is a power of two: 1024 to the unit's rank.
proof fn lemma_unit_scale_pow2(k: nat)
    requires
        k <= 5,
    ensures
        unit_scale(k) == pow2(10 * k),
{
    lemma2_to64();
    lemma2_to64_rest();
}

/// The amount shown never decreases as the byte count grows, also where the
/// unit changes (`1024.0 KB` and `1.0 MB` read as the same amount).
pub proof fn lemma_shown_amount_monotone(a: nat, b: nat)
    requires
        a <= b <= u64::MAX,
    ensures
        shown_tenths(a) <= shown_tenths(b),
{
    let ka = unit_rank(a);
    let kb = unit_rank(b);
    lemma_as_f64_monotone(a, b);
    if ka == kb {
        if ka > 0 {
            let u = unit_scale(ka);
            lemma_round_half_even_monotone(10 * as_f64(a), 10 * as_f64(b), u);
            lemma_mul_monotone(tenths(a), tenths(b), u);
        }
    } else {
        assert(ka < kb);
        let ub = unit_scale(kb);
        lemma_small_counts_exact(ub);
        lemma_as_f64_monotone(ub, b);
        lemma_round_half_even_monotone(10 * ub, 10 * as_f64(b), ub);
        lemma_round_half_even_exact(10, ub);
        lemma_mul_monotone(10, tenths(b), ub);
        if ka > 0 {
            let ua = unit_scale(ka);
            lemma_small_counts_exact(a);
            lemma_unit_scale_pow2(ka);
            lemma_unit_scale_pow2(kb);
            let c = pow2((10 * kb - 10 * ka) as nat);
            lemma_pow2_adds((10 * kb - 10 * ka) as nat, 10 * ka);
            assert(ub == c * ua);
            assert(10 * ub == (10 * c) * ua) by (nonlinear_arith)
                requires
                    ub == c * ua,
            ;
            lemma_round_half_even_monotone(10 * a, 10 * ub, ua);
            lemma_round_half_even_exact(10 * c, ua);
            lemma_mul_monotone(tenths(a), 10 * c, ua);
        }
    }
}

fn digit_str(d: u64) -> (s: &'static str)
    requires
        d < 10,
    ensures
        s@ == seq![digit_char(d as nat)],
{
    proof {
        reveal_strlit("0");
        reveal_strlit("1");
        reveal_strlit("2");
        reveal_strlit("3");
        reveal_strlit("4");
        reveal_strlit("5");
        reveal_strlit("6");
        reveal_strlit("7");
        reveal_strlit("8");
        reveal_strlit("9");
    }
    if d == 0 { "0" }
    else if d == 1 { "1" }
    else if d == 2 { "2" }
    else if d == 3 { "3" }
    else if d == 4 { "4" }
    else if d == 5 { "5" }
    else if d == 6 { "6" }
    else if d == 7 { "7" }
    else if d == 8 { "8" }
    else { "9" }
}

/// The decimal notation of `n`.
pub fn decimal_string(n: u64) -> (s: String)
    ensures
        s@ == decimal(n as nat),
    decreases n,
{
    if n < 10 {
        let mut s = String::new();
        s.append(digit_str(n));
        s
    } else {
        let mut s = decimal_string(n / 10);
        s.append(digit_str(n % 10));
        s
    }
}

fn round_half_even_exec(n: u128, d: u128) -> (r: u128)
    requires
        0 < d <= 0x1_0000_0000_0000_0000,
        n < 0x1_0000_0000_0000_0000_0000_0000,
    ensures
        r == round_half_even(n as nat, d as nat),
        r <= n / d + 1,
{
    let q = n / d;
    let r = n % d;
    assert(q <= n) by (nonlinear_arith)
        requires
            q == n / d,
            d > 0,
    ;
    if 2 * r < d {
        q
    } else if 2 * r > d {
        q + 1
    } else if q % 2 == 0 {
        q
    } else {
        q + 1
    }
}

fn spacing(b: u64) -> (g: u64)
    ensures
        g == f64_spacing(b as nat),
        1 <= g <= 2048,
{
    if b < 0x20_0000_0000_0000 { 1 }
    else if b < 0x40_0000_0000_0000 { 2 }
    else if b < 0x80_0000_0000_0000 { 4 }
    else if b < 0x100_0000_0000_0000 { 8 }
    else if b < 0x200_0000_0000_0000 { 16 }
    else if b < 0x400_0000_0000_0000 { 32 }
    else if b < 0x800_0000_0000_0000 { 64 }
    else if b < 0x1000_0000_0000_0000 { 128 }
    else if b < 0x2000_0000_0000_0000 { 256 }
    else if b < 0x4000_0000_0000_0000 { 512 }
    else if b < 0x8000_0000_0000_0000 { 1024 }
    else { 2048 }
}

/// The double nearest to `b`, ties to even, as an integer.
fn f64_value(b: u64) -> (m: u128)
    ensures
        m == as_f64(b as nat),
        m <= b as nat + 2048,
{
    let g = spacing(b);
    let q = round_half_even_exec(b as u128, g as u128);
    assert(q * g <= b as nat + 2048) by (nonlinear_arith)
        requires
            q <= (b as nat) / (g as nat) + 1,
            1 <= g <= 2048,
    {
        assert(((b as nat) / (g as nat)) * g <= b);
    }
    q * (g as u128)
}

/// Formats a byte count for people: bytes below one kibibyte as an integer
/// (`"512 B"`), larger counts with one decimal in KB, MB, GB, TB or PB
/// (`"1.5 KB"`, `"3.1 MB"`), with 1024 bytes to the kibibyte.
pub fn format_size(bytes: u64) -> (s: String)
    ensures
        s@ == size_text(bytes as nat),
{
    if bytes < KIB {
        let mut s = decimal_string(bytes);
        proof {
            reveal_strlit(" B");
        }
        s.append(" B");
        return s;
    }
    proof {
        reveal_strlit("KB");
        reveal_strlit("MB");
        reveal_strlit("GB");
        reveal_strlit("TB");
        reveal_strlit("PB");
        reveal_strlit(".");
        reveal_strlit(" ");
    }
    let (scale, suffix): (u128, &str) = if bytes < MIB {
        (1024, "KB")
    } else if bytes < GIB {
        (1048576, "MB")
    } else if bytes < TIB {
        (1073741824, "GB")
    } else if bytes < PIB {
        (1099511627776, "TB")
    } else {
        (1125899906842624, "PB")
    };
    let m = f64_value(bytes);
    let t = round_half_even_exec(10 * m, scale);
    assert(t < 0x1_0000_0000_0000_0000) by (nonlinear_arith)
        requires
            t <= ((10 * m) as int) / (scale as int) + 1,
            m <= 0x1_0000_0000_0000_0000 + 2048,
            scale >= 1024,
    {
        assert(((10 * m) as int) / (scale as int) <= ((10 * m) as int) / 1024);
    }
    let t = t as u64;
    let mut s = decimal_string(t / 10);
    s.append(".");
    s.append(digit_str(t % 10));
    s.append(" ");
    s.append(suffix);
    s
}

} // verus!
