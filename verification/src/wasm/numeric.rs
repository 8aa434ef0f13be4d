//! Integer instructions of the interpreter as functions of their operands,
//! and the little-endian byte encodings that loads and stores use. Values
//! live on the stack as `i64`; `i32` results are widened as each
//! instruction says.
use vstd::prelude::*;
use crate::wasm::interp::InterpError;
use vstd::arithmetic::power2::pow2;

verus! {

/// Number of one bits among the low `n` bits of `x`.
pub open spec fn ones(x: nat, n: nat) -> nat
    decreases n,
{
    if n == 0 {
        0
    } else {
        (x % 2) + ones(x / 2, (n - 1) as nat)
    }
}

/// `x` rotated left by `k` bits (`k < 32`).
pub open spec fn rotl32(x: u32, k: u32) -> u32 {
    if k == 0 { x } else { (x << k) | (x >> (32 - k) as u32) }
}

/// `x` rotated right by `k` bits (`k < 32`).
pub open spec fn rotr32(x: u32, k: u32) -> u32 {
    if k == 0 { x } else { (x >> k) | (x << (32 - k) as u32) }
}

/// `x` rotated left by `k` bits (`k < 64`).
pub open spec fn rotl64(x: u64, k: u32) -> u64 {
    if k == 0 { x } else { (x << k) | (x >> (64 - k) as u32) }
}

/// `x` rotated right by `k` bits (`k < 64`).
pub open spec fn rotr64(x: u64, k: u32) -> u64 {
    if k == 0 { x } else { (x >> k) | (x << (64 - k) as u32) }
}

/// 1 for true, 0 for false.
pub open spec fn flag(b: bool) -> i64 {
    if b { 1 } else { 0 }
}

/// Whether `op` takes one operand and gives one result with no immediates.
pub open spec fn is_unop(op: u8) -> bool {
    op == 0x45 || op == 0x50 || (0x67 <= op <= 0x69) || (0x79 <= op <= 0x7B) || op == 0xA7 || op == 0xAC
        || op == 0xAD || op == 0xBC || (0xC0 <= op <= 0xC4)
}

/// Whether `op` takes two operands and gives one result with no immediates.
pub open spec fn is_binop(op: u8) -> bool {
    (0x46 <= op <= 0x4F) || (0x51 <= op <= 0x5A) || (0x6A <= op <= 0x78) || (0x7C <= op <= 0x8A)
}

/// The result of a one-operand instruction on `a`.
pub open spec fn unop(op: u8, a: i64) -> i64 {
    if op == 0x45 {
        flag(a as i32 == 0)
    } else if op == 0x50 {
        flag(a == 0)
    } else if op == 0x67 {
        (a as i32 as u32).leading_zeros() as i64
    } else if op == 0x68 {
        (a as i32 as u32).trailing_zeros() as i64
    } else if op == 0x69 {
        ones(a as i32 as u32 as nat, 32) as i64
    } else if op == 0x79 {
        vstd::std_specs::bits::u64_leading_zeros(a as u64) as i64
    } else if op == 0x7A {
        (a as u64).trailing_zeros() as i64
    } else if op == 0x7B {
        ones(a as u64 as nat, 64) as i64
    } else if op == 0xA7 || op == 0xAC || op == 0xC4 {
        a as i32 as i64
    } else if op == 0xAD || op == 0xBC {
        a as u32 as i64
    } else if op == 0xC0 || op == 0xC2 {
        a as i8 as i64
    } else {
        a as i16 as i64
    }
}

/// The result of a two-operand instruction on `a` (pushed first) and `b`:
/// comparisons give 1 or 0; arithmetic wraps; division and remainder by
/// zero fail, and so does the one 64-bit signed division that overflows;
/// the 32-bit one wraps; shift and rotate counts are taken modulo the width.
pub open spec fn binop(op: u8, a: i64, b: i64) -> Result<i64, InterpError> {
    let x = a as i32;
    let y = b as i32;
    let ux = a as u32;
    let uy = b as u32;
    let ua = a as u64;
    let ub = b as u64;
    if op == 0x46 {
        Ok(flag(x == y))
    } else if op == 0x47 {
        Ok(flag(x != y))
    } else if op == 0x48 {
        Ok(flag(x < y))
    } else if op == 0x49 {
        Ok(flag(ux < uy))
    } else if op == 0x4A {
        Ok(flag(x > y))
    } else if op == 0x4B {
        Ok(flag(ux > uy))
    } else if op == 0x4C {
        Ok(flag(x <= y))
    } else if op == 0x4D {
        Ok(flag(ux <= uy))
    } else if op == 0x4E {
        Ok(flag(x >= y))
    } else if op == 0x4F {
        Ok(flag(ux >= uy))
    } else if op == 0x51 {
        Ok(flag(a == b))
    } else if op == 0x52 {
        Ok(flag(a != b))
    } else if op == 0x53 {
        Ok(flag(a < b))
    } else if op == 0x54 {
        Ok(flag(ua < ub))
    } else if op == 0x55 {
        Ok(flag(a > b))
    } else if op == 0x56 {
        Ok(flag(ua > ub))
    } else if op == 0x57 {
        Ok(flag(a <= b))
    } else if op == 0x58 {
        Ok(flag(ua <= ub))
    } else if op == 0x59 {
        Ok(flag(a >= b))
    } else if op == 0x5A {
        Ok(flag(ua >= ub))
    } else if op == 0x6A {
        Ok(x.wrapping_add(y) as i64)
    } else if op == 0x6B {
        Ok(x.wrapping_sub(y) as i64)
    } else if op == 0x6C {
        Ok(x.wrapping_mul(y) as i64)
    } else if op == 0x6D {
        if y == 0 {
            Err(InterpError::DivisionByZero)
        } else {
            match x.checked_div(y) {
                Some(q) => Ok(q as i64),
                None => Ok(i32::MIN as i64),
            }
        }
    } else if op == 0x6E {
        if uy == 0 { Err(InterpError::DivisionByZero) } else { Ok((ux / uy) as i64) }
    } else if op == 0x6F {
        if y == 0 {
            Err(InterpError::DivisionByZero)
        } else {
            match x.checked_rem(y) {
                Some(q) => Ok(q as i64),
                None => Ok(0),
            }
        }
    } else if op == 0x70 {
        if uy == 0 { Err(InterpError::DivisionByZero) } else { Ok((ux % uy) as i64) }
    } else if op == 0x71 {
        Ok((x & y) as i64)
    } else if op == 0x72 {
        Ok((x | y) as i64)
    } else if op == 0x73 {
        Ok((x ^ y) as i64)
    } else if op == 0x74 {
        Ok(x.wrapping_shl(uy & 31) as i64)
    } else if op == 0x75 {
        Ok(x.wrapping_shr(uy & 31) as i64)
    } else if op == 0x76 {
        Ok(ux.wrapping_shr(uy & 31) as i64)
    } else if op == 0x77 {
        Ok(rotl32(ux, uy % 32) as i32 as i64)
    } else if op == 0x78 {
        Ok(rotr32(ux, uy % 32) as i32 as i64)
    } else if op == 0x7C {
        Ok(a.wrapping_add(b))
    } else if op == 0x7D {
        Ok(a.wrapping_sub(b))
    } else if op == 0x7E {
        Ok(a.wrapping_mul(b))
    } else if op == 0x7F {
        if b == 0 || (a == i64::MIN && b == -1) {
            Err(InterpError::DivisionByZero)
        } else {
            match a.checked_div(b) {
                Some(q) => Ok(q),
                None => Ok(i64::MIN),
            }
        }
    } else if op == 0x80 {
        if ub == 0 { Err(InterpError::DivisionByZero) } else { Ok((ua / ub) as i64) }
    } else if op == 0x81 {
        if b == 0 {
            Err(InterpError::DivisionByZero)
        } else {
            match a.checked_rem(b) {
                Some(q) => Ok(q),
                None => Ok(0),
            }
        }
    } else if op == 0x82 {
        if ub == 0 { Err(InterpError::DivisionByZero) } else { Ok((ua % ub) as i64) }
    } else if op == 0x83 {
        Ok(a & b)
    } else if op == 0x84 {
        Ok(a | b)
    } else if op == 0x85 {
        Ok(a ^ b)
    } else if op == 0x86 {
        Ok(a.wrapping_shl((ub & 63) as u32))
    } else if op == 0x87 {
        Ok(a.wrapping_shr((ub & 63) as u32))
    } else if op == 0x88 {
        Ok(ua.wrapping_shr((ub & 63) as u32) as i64)
    } else if op == 0x89 {
        Ok(rotl64(ua, (ub % 64) as u32) as i64)
    } else {
        Ok(rotr64(ua, (ub % 64) as u32) as i64)
    }
}

/// How the shift counts and widths of the shift instructions relate: a
/// count masked to its low bits is the count modulo the width, and a right
/// shift of a signed value is that of its bits read unsigned when it is
/// not negative, and the complement of the shift of its complement when
/// it is.
proof fn lemma_shift_bits(a: i64, s: u64, t: u32)
    ensures
        (a as u64) >> (((s & 63) as u32) % 64) == (a as u64) >> (s % 64),
        (a as u32) >> ((t & 31) % 32) == (a as u32) >> (t % 32),
        ((s & 63) as u32) % 64 == s % 64,
        (t & 31) % 32 == t % 32,
        (a as i32) as u32 == a as u32,
{
    assert(s & 63 == s % 64 && t & 31 == t % 32 && (a as i32) as u32 == a as u32) by (bit_vector);
    let k: u32 = ((s & 63) as u32) % 64;
    assert(k as u64 == s % 64);
}

/// A signed right shift is the unsigned shift of the value when it is not
/// negative, and the complement of the unsigned shift of its complement when
/// it is; a left shift moves the same bits as the unsigned one.
proof fn lemma_sar_bits(a: i64, k: u64, x: i32, t: u32)
    by (bit_vector)
    requires
        k < 64,
        t < 32,
    ensures
        a >= 0 ==> a >> k == ((a as u64) >> k) as i64,
        a < 0 ==> a >> k == (-1 - (((-1 - a) as u64) >> k)) as i64,
        x >= 0 ==> x >> t == ((x as u32) >> t) as i32,
        x < 0 ==> x >> t == (-1 - (((-1 - x) as u32) >> t)) as i32,
        a << k == ((a as u64) << k) as i64,
        x << t == ((x as u32) << t) as i32,
{
}

/// The unsigned right shifts divide the operand, read as unsigned, by 2 to
/// the count (taken modulo the width), so they bring in zero bits: the
/// result is never negative once the count is not a multiple of the width.
/// The signed right shifts agree with them on operands that are not
/// negative, and keep a negative operand negative, rounding toward minus
/// infinity (the complement of the shifted complement).
pub proof fn lemma_shr_divides(a: i64, b: i64)
    ensures
        binop(0x88, a, b) == Ok::<i64, InterpError>(((a as u64) as nat / pow2((b as u64) as nat % 64)) as u64 as i64),
        (b as u64) % 64 != 0 ==> binop(0x88, a, b).unwrap() >= 0,
        binop(0x76, a, b) == Ok::<i64, InterpError>(((a as u32) as nat / pow2((b as u32) as nat % 32)) as i64),
        binop(0x76, a, b).unwrap() >= 0,
        a >= 0 ==> binop(0x87, a, b) == binop(0x88, a, b),
        a < 0 ==> binop(0x87, a, b).unwrap() < 0,
        a < 0 ==> binop(0x87, a, b).unwrap() == -1 - (((-1 - a) as nat / pow2((b as u64) as nat % 64)) as int),
        (a as i32) >= 0 ==> binop(0x75, a, b) == binop(0x76, a, b),
        (a as i32) < 0 ==> binop(0x75, a, b).unwrap() < 0,
        (a as i32) < 0 ==> binop(0x75, a, b).unwrap() == -1 - (((-1 - (a as i32)) as nat / pow2((b as u32) as nat % 32)) as int),
{
    let ua = a as u64;
    let ub = b as u64;
    let x = a as i32;
    let uy = b as u32;
    lemma_shift_bits(a, ub, uy);
    lemma_sar_bits(a, ub % 64, x, uy % 32);
    let k = ub % 64;
    let k32 = uy % 32;
    vstd::bits::lemma_u64_shr_is_div(ua, k);
    vstd::bits::lemma_u32_shr_is_div(a as u32, k32);
    vstd::arithmetic::power2::lemma_pow2_pos(k as nat);
    vstd::arithmetic::power2::lemma_pow2_pos(k32 as nat);
    if k != 0 {
        vstd::arithmetic::power2::lemma_pow2_strictly_increases(0, k as nat);
        vstd::arithmetic::power2::lemma2_to64();
        vstd::arithmetic::div_mod::lemma_div_is_ordered_by_denominator(ua as int, 2, pow2(k as nat) as int);
        assert(ua as nat / 2 < 0x8000_0000_0000_0000);
    }
    if a < 0 {
        let na = (-1 - a) as u64;
        vstd::bits::lemma_u64_shr_is_div(na, k);
        vstd::arithmetic::div_mod::lemma_div_is_ordered_by_denominator(na as int, 1, pow2(k as nat) as int);
    }
    if x < 0 {
        let nx = (-1 - x) as u32;
        vstd::bits::lemma_u32_shr_is_div(nx, k32);
        vstd::arithmetic::div_mod::lemma_div_is_ordered_by_denominator(nx as int, 1, pow2(k32 as nat) as int);
    }
}

/// The left shifts multiply by 2 to the count (taken modulo the width) when
/// the product of a non-negative operand fits.
pub proof fn lemma_shl_multiplies(a: i64, b: i64)
    ensures
        a >= 0 && a * pow2((b as u64) as nat % 64) <= i64::MAX ==> binop(0x86, a, b) == Ok::<i64, InterpError>(
            (a * pow2((b as u64) as nat % 64)) as i64,
        ),
        (a as i32) >= 0 && (a as i32) * pow2((b as u32) as nat % 32) <= i32::MAX ==> binop(0x74, a, b) == Ok::<
            i64,
            InterpError,
        >(((a as i32) * pow2((b as u32) as nat % 32)) as i64),
{
    let ua = a as u64;
    let ub = b as u64;
    let x = a as i32;
    let uy = b as u32;
    lemma_shift_bits(a, ub, uy);
    lemma_sar_bits(a, ub % 64, x, uy % 32);
    let k = ub % 64;
    let t = uy % 32;
    if a >= 0 && a * pow2(k as nat) <= i64::MAX {
        vstd::bits::lemma_u64_shl_is_mul(ua, k);
    }
    if x >= 0 && x * pow2(t as nat) <= i32::MAX {
        vstd::bits::lemma_u32_shl_is_mul(x as u32, t);
    }
}

/// The 64-bit comparisons compare the operands as signed numbers
/// (`lt_s`, `gt_s`, `le_s`, `ge_s`) or as unsigned ones (`lt_u`, ...), and
/// give 1 when the comparison holds and 0 when it does not.
pub proof fn lemma_i64_comparisons(a: i64, b: i64)
    ensures
        binop(0x51, a, b) == Ok::<i64, InterpError>(if a == b { 1 } else { 0 }),
        binop(0x52, a, b) == Ok::<i64, InterpError>(if a != b { 1 } else { 0 }),
        binop(0x53, a, b) == Ok::<i64, InterpError>(if a < b { 1 } else { 0 }),
        binop(0x54, a, b) == Ok::<i64, InterpError>(if (a as u64) < (b as u64) { 1 } else { 0 }),
        binop(0x55, a, b) == Ok::<i64, InterpError>(if a > b { 1 } else { 0 }),
        binop(0x56, a, b) == Ok::<i64, InterpError>(if (a as u64) > (b as u64) { 1 } else { 0 }),
        binop(0x57, a, b) == Ok::<i64, InterpError>(if a <= b { 1 } else { 0 }),
        binop(0x58, a, b) == Ok::<i64, InterpError>(if (a as u64) <= (b as u64) { 1 } else { 0 }),
        binop(0x59, a, b) == Ok::<i64, InterpError>(if a >= b { 1 } else { 0 }),
        binop(0x5A, a, b) == Ok::<i64, InterpError>(if (a as u64) >= (b as u64) { 1 } else { 0 }),
{
}

/// The 64-bit divisions: the unsigned quotient and remainder are those of
/// the operands read unsigned; the signed quotient rounds toward zero, with
/// the remainder making up the difference and taking the sign of the
/// dividend; a zero divisor fails.
pub proof fn lemma_i64_division(a: i64, b: i64)
    ensures
        b == 0 ==> binop(0x7F, a, b) is Err && binop(0x81, a, b) is Err,
        (b as u64) == 0 ==> binop(0x80, a, b) is Err && binop(0x82, a, b) is Err,
        (b as u64) != 0 ==> binop(0x80, a, b) == Ok::<i64, InterpError>(((a as u64) / (b as u64)) as i64) && binop(
            0x82,
            a,
            b,
        ) == Ok::<i64, InterpError>(((a as u64) % (b as u64)) as i64),
        b != 0 && !(a == i64::MIN && b == -1) ==> {
            let q = binop(0x7F, a, b).unwrap();
            let m = binop(0x81, a, b).unwrap();
            &&& binop(0x7F, a, b) is Ok
            &&& binop(0x81, a, b) is Ok
            &&& q * b + m == a
            &&& (if m < 0 { -(m as int) } else { m as int }) < (if b < 0 { -(b as int) } else { b as int })
            &&& (m == 0 || ((m < 0) == (a < 0)))
        },
{
    if b != 0 && !(a == i64::MIN && b == -1) {
        lemma_trunc_div(a as int, b as int);
        let q = binop(0x7F, a, b).unwrap();
        let m = binop(0x81, a, b).unwrap();
        assert(q * b + m == a);
    }
}

/// Division rounding toward zero, as the signed quotient and remainder of
/// the interpreter compute it from magnitudes, recovers the dividend.
pub proof fn lemma_trunc_div(x: int, d: int)
    requires
        d != 0,
    ensures
        ({
            let q = if x == 0 {
                0
            } else if x > 0 && d > 0 {
                x / d
            } else if x < 0 && d < 0 {
                (x * -1) / (d * -1)
            } else if x < 0 {
                ((x * -1) / d) * -1
            } else {
                (x / (d * -1)) * -1
            };
            let m = if x == 0 {
                0
            } else if x > 0 && d > 0 {
                x % d
            } else if x < 0 && d < 0 {
                ((x * -1) % (d * -1)) * -1
            } else if x < 0 {
                ((x * -1) % d) * -1
            } else {
                x % (d * -1)
            };
            &&& q * d + m == x
            &&& (if m < 0 { -m } else { m }) < (if d < 0 { -d } else { d })
            &&& (m == 0 || ((m < 0) == (x < 0)))
            &&& (if q < 0 { -q } else { q }) <= (if x < 0 { -x } else { x })
            &&& (if d < 0 { -d } else { d }) >= 2 ==> (if q < 0 { -q } else { q }) < (if x < 0 { -x } else { x }) || x == 0
            &&& (q > 0 ==> (x > 0) == (d > 0)) && (q < 0 ==> (x > 0) != (d > 0))
        }),
{
    let ax = if x < 0 { -x } else { x };
    let ad = if d < 0 { -d } else { d };
    vstd::arithmetic::div_mod::lemma_div_is_ordered_by_denominator(ax, 1, ad);
    vstd::arithmetic::div_mod::lemma_div_pos_is_pos(ax, ad);
    if ad >= 2 && ax > 0 {
        vstd::arithmetic::div_mod::lemma_div_is_ordered_by_denominator(ax, 2, ad);
    }
    vstd::arithmetic::div_mod::lemma_fundamental_div_mod(ax, ad);
    vstd::arithmetic::div_mod::lemma_mod_bound(ax, ad);
    assert(ax == ad * (ax / ad) + ax % ad);
    assert(ax / 2 < ax || ax == 0);
    if x < 0 {
        assert(x * -1 == ax);
    }
    if d < 0 {
        assert(d * -1 == ad);
    }
    if x > 0 && d > 0 {
    } else if x < 0 && d < 0 {
        assert((ax / ad) * d + -(ax % ad) == x) by (nonlinear_arith)
            requires ax == ad * (ax / ad) + ax % ad, ax == -x, ad == -d;
    } else if x < 0 && d > 0 {
        assert(((ax / ad) * -1) * d + -(ax % ad) == x) by (nonlinear_arith)
            requires ax == ad * (ax / ad) + ax % ad, ax == -x, ad == d;
    } else if x > 0 && d < 0 {
        assert(((ax / ad) * -1) * d + (ax % ad) == x) by (nonlinear_arith)
            requires ax == ad * (ax / ad) + ax % ad, ax == x, ad == -d;
    }
}

/// Number of one bits among the low `n` bits of `x`.
fn count_ones(x: u64, n: u32) -> (r: u32)
    requires
        n <= 64,
    ensures
        r == ones(x as nat, n as nat),
{
    let mut c: u32 = 0;
    let mut v = x;
    let mut k: u32 = 0;
    while k < n
        invariant
            k <= n <= 64,
            c <= k,
            c + ones(v as nat, (n - k) as nat) == ones(x as nat, n as nat),
        decreases n - k,
    {
        c = c + (v % 2) as u32;
        v = v / 2;
        k = k + 1;
    }
    c
}

/// `unop(op, a)`.
pub fn eval_unop(op: u8, a: i64) -> (r: i64)
    requires
        is_unop(op),
    ensures
        r == unop(op, a),
{
    if op == 0x45 {
        if a as i32 == 0 { 1 } else { 0 }
    } else if op == 0x50 {
        if a == 0 { 1 } else { 0 }
    } else if op == 0x67 {
        (a as i32 as u32).leading_zeros() as i64
    } else if op == 0x68 {
        (a as i32 as u32).trailing_zeros() as i64
    } else if op == 0x69 {
        count_ones(a as i32 as u32 as u64, 32) as i64
    } else if op == 0x79 {
        (a as u64).leading_zeros() as i64
    } else if op == 0x7A {
        (a as u64).trailing_zeros() as i64
    } else if op == 0x7B {
        count_ones(a as u64, 64) as i64
    } else if op == 0xA7 || op == 0xAC || op == 0xC4 {
        a as i32 as i64
    } else if op == 0xAD || op == 0xBC {
        a as u32 as i64
    } else if op == 0xC0 || op == 0xC2 {
        a as i8 as i64
    } else {
        a as i16 as i64
    }
}

/// `rotl32`.
fn rotate_left32(x: u32, k: u32) -> (r: u32)
    requires
        k < 32,
    ensures
        r == rotl32(x, k),
{
    if k == 0 { x } else { (x << k) | (x >> (32 - k)) }
}

/// `rotr32`.
fn rotate_right32(x: u32, k: u32) -> (r: u32)
    requires
        k < 32,
    ensures
        r == rotr32(x, k),
{
    if k == 0 { x } else { (x >> k) | (x << (32 - k)) }
}

/// `rotl64`.
fn rotate_left64(x: u64, k: u32) -> (r: u64)
    requires
        k < 64,
    ensures
        r == rotl64(x, k),
{
    if k == 0 { x } else { (x << k) | (x >> (64 - k)) }
}

/// `rotr64`.
fn rotate_right64(x: u64, k: u32) -> (r: u64)
    requires
        k < 64,
    ensures
        r == rotr64(x, k),
{
    if k == 0 { x } else { (x >> k) | (x << (64 - k)) }
}

/// `binop(op, a, b)`.
pub fn eval_binop(op: u8, a: i64, b: i64) -> (r: Result<i64, InterpError>)
    requires
        is_binop(op),
    ensures
        r == binop(op, a, b),
{
    let x = a as i32;
    let y = b as i32;
    let ux = a as u32;
    let uy = b as u32;
    let ua = a as u64;
    let ub = b as u64;
    if op <= 0x4F {
        let c = if op == 0x46 {
            x == y
        } else if op == 0x47 {
            x != y
        } else if op == 0x48 {
            x < y
        } else if op == 0x49 {
            ux < uy
        } else if op == 0x4A {
            x > y
        } else if op == 0x4B {
            ux > uy
        } else if op == 0x4C {
            x <= y
        } else if op == 0x4D {
            ux <= uy
        } else if op == 0x4E {
            x >= y
        } else {
            ux >= uy
        };
        Ok(if c { 1 } else { 0 })
    } else if op <= 0x5A {
        let c = if op == 0x51 {
            a == b
        } else if op == 0x52 {
            a != b
        } else if op == 0x53 {
            a < b
        } else if op == 0x54 {
            ua < ub
        } else if op == 0x55 {
            a > b
        } else if op == 0x56 {
            ua > ub
        } else if op == 0x57 {
            a <= b
        } else if op == 0x58 {
            ua <= ub
        } else if op == 0x59 {
            a >= b
        } else {
            ua >= ub
        };
        Ok(if c { 1 } else { 0 })
    } else if op <= 0x78 {
        if op == 0x6A {
            Ok(x.wrapping_add(y) as i64)
        } else if op == 0x6B {
            Ok(x.wrapping_sub(y) as i64)
        } else if op == 0x6C {
            Ok(x.wrapping_mul(y) as i64)
        } else if op == 0x6D {
            if y == 0 {
                Err(InterpError::DivisionByZero)
            } else {
                match x.checked_div(y) {
                    Some(q) => Ok(q as i64),
                    None => Ok(i32::MIN as i64),
                }
            }
        } else if op == 0x6E {
            if uy == 0 { Err(InterpError::DivisionByZero) } else { Ok((ux / uy) as i64) }
        } else if op == 0x6F {
            if y == 0 {
                Err(InterpError::DivisionByZero)
            } else {
                match x.checked_rem(y) {
                    Some(q) => Ok(q as i64),
                    None => Ok(0),
                }
            }
        } else if op == 0x70 {
            if uy == 0 { Err(InterpError::DivisionByZero) } else { Ok((ux % uy) as i64) }
        } else if op == 0x71 {
            Ok((x & y) as i64)
        } else if op == 0x72 {
            Ok((x | y) as i64)
        } else if op == 0x73 {
            Ok((x ^ y) as i64)
        } else if op == 0x74 {
            Ok(x.wrapping_shl(uy & 31) as i64)
        } else if op == 0x75 {
            Ok(x.wrapping_shr(uy & 31) as i64)
        } else if op == 0x76 {
            Ok(ux.wrapping_shr(uy & 31) as i64)
        } else if op == 0x77 {
            Ok(rotate_left32(ux, uy % 32) as i32 as i64)
        } else {
            Ok(rotate_right32(ux, uy % 32) as i32 as i64)
        }
    } else {
        if op == 0x7C {
            Ok(a.wrapping_add(b))
        } else if op == 0x7D {
            Ok(a.wrapping_sub(b))
        } else if op == 0x7E {
            Ok(a.wrapping_mul(b))
        } else if op == 0x7F {
            if b == 0 || (a == i64::MIN && b == -1) {
                Err(InterpError::DivisionByZero)
            } else {
                match a.checked_div(b) {
                    Some(q) => Ok(q),
                    None => Ok(i64::MIN),
                }
            }
        } else if op == 0x80 {
            if ub == 0 { Err(InterpError::DivisionByZero) } else { Ok((ua / ub) as i64) }
        } else if op == 0x81 {
            if b == 0 {
                Err(InterpError::DivisionByZero)
            } else {
                match a.checked_rem(b) {
                    Some(q) => Ok(q),
                    None => Ok(0),
                }
            }
        } else if op == 0x82 {
            if ub == 0 { Err(InterpError::DivisionByZero) } else { Ok((ua % ub) as i64) }
        } else if op == 0x83 {
            Ok(a & b)
        } else if op == 0x84 {
            Ok(a | b)
        } else if op == 0x85 {
            Ok(a ^ b)
        } else if op == 0x86 {
            Ok(a.wrapping_shl((ub & 63) as u32))
        } else if op == 0x87 {
            Ok(a.wrapping_shr((ub & 63) as u32))
        } else if op == 0x88 {
            Ok(ua.wrapping_shr((ub & 63) as u32) as i64)
        } else if op == 0x89 {
            Ok(rotate_left64(ua, (ub % 64) as u32) as i64)
        } else {
            Ok(rotate_right64(ua, (ub % 64) as u32) as i64)
        }
    }
}

/// 256 to the power `k`.
pub open spec fn pow256(k: nat) -> nat
    decreases k,
{
    if k == 0 { 1 } else { 256 * pow256((k - 1) as nat) }
}

/// The number whose little-endian bytes are `s`.
pub open spec fn le_value(s: Seq<u8>) -> nat
    decreases s.len(),
{
    if s.len() == 0 { 0 } else { s[0] as nat + 256 * le_value(s.drop_first()) }
}

/// Byte `k` of the little-endian encoding of `v`.
pub open spec fn le_byte(v: nat, k: nat) -> u8 {
    ((v / pow256(k)) % 256) as u8
}

/// The value a load of `w` bytes `s` pushes: 8 bytes are the `i64` they
/// encode; fewer are widened with sign (`signed`) or with zeros.
pub open spec fn load_value(s: Seq<u8>, signed: bool) -> i64 {
    let v = le_value(s);
    if s.len() == 8 {
        v as u64 as i64
    } else if s.len() == 4 {
        if signed { v as u32 as i32 as i64 } else { v as i64 }
    } else if s.len() == 2 {
        if signed { v as u16 as i16 as i64 } else { v as i64 }
    } else {
        if signed { v as u8 as i8 as i64 } else { v as i64 }
    }
}

proof fn lemma_le_value_bound(s: Seq<u8>)
    ensures
        le_value(s) < pow256(s.len()),
    decreases s.len(),
{
    if s.len() > 0 {
        lemma_le_value_bound(s.drop_first());
        let r = le_value(s.drop_first());
        let p = pow256(s.drop_first().len());
        assert(s[0] as nat + 256 * r < 256 * p) by (nonlinear_arith)
            requires
                r < p,
                s[0] < 256,
        ;
    }
}

proof fn lemma_pow256_8()
    ensures
        pow256(8) == 0x1_0000_0000_0000_0000,
        pow256(4) == 0x1_0000_0000,
        pow256(2) == 0x1_0000,
        pow256(1) == 256,
{
    reveal_with_fuel(pow256, 9);
}

/// The little-endian number held by `w` bytes of `s` from `at`, as a
/// `u64` (`w` at most 8).
pub fn read_le(s: &[u8], at: usize, w: usize) -> (r: u64)
    requires
        w <= 8,
        at + w <= s@.len(),
    ensures
        r as nat == le_value(s@.subrange(at as int, at + w)),
{
    let mut acc: u64 = 0;
    let mut k: usize = w;
    let slen = s.len();
    proof {
        lemma_pow256_8();
    }
    while k > 0
        invariant
            slen == s@.len(),
            k <= w <= 8,
            at + w <= s@.len(),
            acc as nat == le_value(s@.subrange(at + k, at + w)),
            pow256(8) == 0x1_0000_0000_0000_0000,
        decreases k,
    {
        proof {
            lemma_le_value_bound(s@.subrange(at + k, at + w));
            lemma_pow256_mono((w - k) as nat, (7) as nat);
        }
        let b = s[at + k - 1];
        assert(s@.subrange(at + k - 1, at + w).drop_first() =~= s@.subrange(at + k, at + w));
        assert(acc * 256 + b < 0x1_0000_0000_0000_0000) by (nonlinear_arith)
            requires
                acc < pow256((w - k) as nat),
                pow256((w - k) as nat) <= pow256(7),
                pow256(7) * 256 == 0x1_0000_0000_0000_0000,
                b < 256,
        {
        }
        acc = acc * 256 + b as u64;
        k = k - 1;
    }
    acc
}

proof fn lemma_pow256_mono(i: nat, j: nat)
    requires
        i <= j,
    ensures
        pow256(i) <= pow256(j),
        pow256(7) * 256 == 0x1_0000_0000_0000_0000,
    decreases j,
{
    reveal_with_fuel(pow256, 9);
    if i < j {
        lemma_pow256_mono(i, (j - 1) as nat);
    }
}

/// A store's effect on the bytes `m`: `w` little-endian bytes of `v` from
/// `at`, the rest unchanged.
pub open spec fn stored(m: Seq<u8>, at: int, w: nat, v: nat) -> Seq<u8> {
    Seq::new(m.len(), |k: int| if at <= k < at + w { le_byte(v, (k - at) as nat) } else { m[k] })
}

/// Write the low `w` bytes of `v`, little-endian, at `at`.
pub fn write_le(m: &mut Vec<u8>, at: usize, w: usize, v: u64)
    requires
        w <= 8,
        at + w <= old(m)@.len(),
    ensures
        final(m)@ == stored(old(m)@, at as int, w as nat, v as nat),
{
    let mut x = v;
    let mut k: usize = 0;
    let mlen = m.len();
    assert(pow256(0) == 1);
    while k < w
        invariant
            mlen == m@.len(),
            k <= w <= 8,
            at + w <= m@.len(),
            m@.len() == old(m)@.len(),
            x as nat == v as nat / pow256(k as nat),
            forall|j: int| 0 <= j < m@.len() ==> #[trigger] m@[j] == if at <= j < at + k {
                le_byte(v as nat, (j - at) as nat)
            } else {
                old(m)@[j]
            },
        decreases w - k,
    {
        m.set(at + k, (x % 256) as u8);
        proof {
            lemma_pow256_pos(k as nat);
            vstd::arithmetic::div_mod::lemma_div_denominator(v as int, pow256(k as nat) as int, 256);
            assert(pow256((k + 1) as nat) == pow256(k as nat) * 256);
        }
        x = x / 256;
        k = k + 1;
    }
    assert(m@ =~= stored(old(m)@, at as int, w as nat, v as nat));
}

proof fn lemma_pow256_pos(k: nat)
    ensures
        pow256(k) > 0,
    decreases k,
{
    if k > 0 {
        lemma_pow256_pos((k - 1) as nat);
    }
}

/// Reading back what a store wrote gives the stored number cut to its
/// width: the `w` bytes that `stored` puts at `at` encode `v mod 256^w`.
pub proof fn lemma_store_then_load(m: Seq<u8>, at: int, w: nat, v: nat)
    requires
        0 <= at,
        at + w <= m.len(),
    ensures
        le_value(stored(m, at, w, v).subrange(at, at + w)) == v % pow256(w),
    decreases w,
{
    let s = stored(m, at, w, v).subrange(at, at + w);
    lemma_pow256_pos(w);
    if w == 0 {
        assert(s.len() == 0);
    } else {
        let t = stored(m, at + 1, (w - 1) as nat, v / 256);
        lemma_store_then_load(m, at + 1, (w - 1) as nat, v / 256);
        let s2 = t.subrange(at + 1, at + w);
        assert forall|k: int| 0 <= k < s2.len() implies #[trigger] s.drop_first()[k] == s2[k] by {
            lemma_pow256_pos((k + 1) as nat);
            lemma_pow256_pos(k as nat);
            vstd::arithmetic::div_mod::lemma_div_denominator(v as int, 256, pow256(k as nat) as int);
            assert(pow256((k + 1) as nat) == 256 * pow256(k as nat));
        }
        assert(s.drop_first() =~= s2);
        assert(pow256(0) == 1);
        assert(stored(m, at, w, v)[at] == le_byte(v, 0));
        assert(s[0] == (v % 256) as u8);
        lemma_pow256_pos((w - 1) as nat);
        let p = pow256((w - 1) as nat);
        assert(v % 256 + 256 * ((v / 256) % p) == v % (256 * p)) by {
            vstd::arithmetic::div_mod::lemma_breakdown(v as int, 256, p as int);
        }
    }
}

} // verus!
