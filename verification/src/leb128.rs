//! LEB-128 variable-length integers, as used throughout the WebAssembly
//! binary format: decoding (loader, interpreter) and encoding (assembler).
use vstd::prelude::*;

verus! {

/// Low seven payload bits of an encoded byte.
pub open spec fn payload(b: u8) -> u8 {
    b & 0x7F
}

/// Whether an encoded byte announces a further byte.
pub open spec fn has_more(b: u8) -> bool {
    b & 0x80 != 0
}

/// The unsigned value carried by the first `k` bytes of `s`: the payload of
/// byte `j` occupies bits `7j ..` of the result (bits past 31 are dropped).
pub open spec fn uleb32_acc(s: Seq<u8>, k: nat) -> u32
    decreases k,
{
    if k == 0 || k > s.len() {
        0
    } else {
        uleb32_acc(s, (k - 1) as nat) | (((s[k - 1] & 0x7F) as u32) << ((7 * (k - 1)) as u32))
    }
}

/// Decoding of an unsigned 32-bit LEB-128 number that starts at byte `i`
/// of the search: the first byte with a clear high bit among the first five
/// ends the number; a fifth byte whose payload reaches past bit 31 is an
/// overflow.
pub open spec fn uleb32_from(s: Seq<u8>, i: nat) -> Option<(u32, usize)>
    decreases 5 - i,
{
    if i >= 5 || i >= s.len() {
        None
    } else if i == 4 && payload(s[4]) > 0x0F {
        None
    } else if !has_more(s[i as int]) {
        Some((uleb32_acc(s, i + 1), (i + 1) as usize))
    } else {
        uleb32_from(s, i + 1)
    }
}

/// Unsigned 32-bit LEB-128 decoding of the front of `s`: the value and the
/// number of bytes it occupies, or `None` when the encoding is truncated,
/// longer than five bytes or beyond `u32::MAX`.
pub open spec fn uleb32_decode(s: Seq<u8>) -> Option<(u32, usize)> {
    uleb32_from(s, 0)
}

/// Decode an unsigned 32-bit LEB-128 integer from the front of `bytes`.
///
/// Returns `Some((value, bytes_consumed))` on success, or `None` if the
/// encoding is truncated or would overflow a `u32`.
pub fn read_u32_leb128(bytes: &[u8]) -> (r: Option<(u32, usize)>)
    ensures
        r == uleb32_decode(bytes@),
        r matches Some((_, n)) ==> 1 <= n <= 5 && n <= bytes@.len(),
{
    let mut result: u32 = 0;
    let mut shift: u32 = 0;
    let mut i: usize = 0;
    while i < bytes.len()
        invariant
            i <= bytes@.len(),
            i <= 5,
            shift == 7 * i,
            result == uleb32_acc(bytes@, i as nat),
            uleb32_decode(bytes@) == uleb32_from(bytes@, i as nat),
        decreases bytes.len() - i,
    {
        if shift >= 35 {
            return None;
        }
        let byte = bytes[i];
        if shift == 28 && (byte & 0x7F) > 0x0F {
            return None;
        }
        result = result | (((byte & 0x7F) as u32) << shift);
        shift = shift + 7;
        i = i + 1;
        if byte & 0x80 == 0 {
            return Some((result, i));
        }
    }
    None
}


/// The value carried by the first `k` bytes of `s` in a 64-bit accumulator.
pub open spec fn uleb64_acc(s: Seq<u8>, k: nat) -> u64
    decreases k,
{
    if k == 0 || k > s.len() {
        0
    } else {
        uleb64_acc(s, (k - 1) as nat) | (((s[k - 1] & 0x7F) as u64) << ((7 * (k - 1)) as u64))
    }
}

/// Signed 32-bit value of a number that ends with its `n`-th byte: the
/// payload bits, sign-extended from bit 6 of the last byte when the payload
/// does not already fill 32 bits.
pub open spec fn sleb32_value(s: Seq<u8>, n: nat) -> i32 {
    let acc = uleb32_acc(s, n);
    if 7 * n < 32 && (s[n - 1] & 0x40) != 0 {
        (acc | (0xFFFF_FFFFu32 << ((7 * n) as u32))) as i32
    } else {
        acc as i32
    }
}

/// Signed 32-bit LEB-128 decoding starting the search for the last byte at
/// index `i`.
pub open spec fn sleb32_from(s: Seq<u8>, i: nat) -> Option<(i32, usize)>
    decreases 5 - i,
{
    if i >= 5 || i >= s.len() {
        None
    } else if !has_more(s[i as int]) {
        Some((sleb32_value(s, i + 1), (i + 1) as usize))
    } else {
        sleb32_from(s, i + 1)
    }
}

/// Signed 32-bit LEB-128 decoding of the front of `s`.
pub open spec fn sleb32_decode(s: Seq<u8>) -> Option<(i32, usize)> {
    sleb32_from(s, 0)
}

/// Signed 64-bit value of a number that ends with its `n`-th byte.
pub open spec fn sleb64_value(s: Seq<u8>, n: nat) -> i64 {
    let acc = uleb64_acc(s, n);
    if 7 * n < 64 && (s[n - 1] & 0x40) != 0 {
        (acc | (0xFFFF_FFFF_FFFF_FFFFu64 << ((7 * n) as u64))) as i64
    } else {
        acc as i64
    }
}

/// Signed 64-bit LEB-128 decoding starting the search at index `i`
/// (at most ten bytes).
pub open spec fn sleb64_from(s: Seq<u8>, i: nat) -> Option<(i64, usize)>
    decreases 10 - i,
{
    if i >= 10 || i >= s.len() {
        None
    } else if !has_more(s[i as int]) {
        Some((sleb64_value(s, i + 1), (i + 1) as usize))
    } else {
        sleb64_from(s, i + 1)
    }
}

/// Signed 64-bit LEB-128 decoding of the front of `s`.
pub open spec fn sleb64_decode(s: Seq<u8>) -> Option<(i64, usize)> {
    sleb64_from(s, 0)
}

/// Decode a signed 32-bit LEB-128 integer from the front of `bytes`.
///
/// Returns `Some((value, bytes_consumed))` on success, or `None` if the
/// encoding is truncated or longer than five bytes.
pub fn read_i32_leb128(bytes: &[u8]) -> (r: Option<(i32, usize)>)
    ensures
        r == sleb32_decode(bytes@),
        r matches Some((_, n)) ==> 1 <= n <= 5 && n <= bytes@.len(),
{
    let mut result: u32 = 0;
    let mut shift: u32 = 0;
    let mut i: usize = 0;
    while i < bytes.len()
        invariant
            i <= bytes@.len(),
            i <= 5,
            shift == 7 * i,
            result == uleb32_acc(bytes@, i as nat),
            sleb32_decode(bytes@) == sleb32_from(bytes@, i as nat),
        decreases bytes.len() - i,
    {
        if shift >= 35 {
            return None;
        }
        let byte = bytes[i];
        result = result | (((byte & 0x7F) as u32) << shift);
        shift = shift + 7;
        i = i + 1;
        if byte & 0x80 == 0 {
            if shift < 32 && (byte & 0x40) != 0 {
                result = result | (0xFFFF_FFFFu32 << shift);
            }
            return Some((result as i32, i));
        }
    }
    None
}

/// Decode a signed 64-bit LEB-128 integer from the front of `bytes`.
///
/// Returns `Some((value, bytes_consumed))` on success, or `None` if the
/// encoding is truncated or longer than ten bytes.
pub fn read_i64_leb128(bytes: &[u8]) -> (r: Option<(i64, usize)>)
    ensures
        r == sleb64_decode(bytes@),
        r matches Some((_, n)) ==> 1 <= n <= 10 && n <= bytes@.len(),
{
    let mut result: u64 = 0;
    let mut shift: u64 = 0;
    let mut i: usize = 0;
    while i < bytes.len()
        invariant
            i <= bytes@.len(),
            i <= 10,
            shift == 7 * i,
            result == uleb64_acc(bytes@, i as nat),
            sleb64_decode(bytes@) == sleb64_from(bytes@, i as nat),
        decreases bytes.len() - i,
    {
        if shift >= 70 {
            return None;
        }
        let byte = bytes[i];
        result = result | (((byte & 0x7F) as u64) << shift);
        shift = shift + 7;
        i = i + 1;
        if byte & 0x80 == 0 {
            if shift < 64 && (byte & 0x40) != 0 {
                result = result | (0xFFFF_FFFF_FFFF_FFFFu64 << shift);
            }
            return Some((result as i64, i));
        }
    }
    None
}


/// Number of bytes in the unsigned LEB-128 encoding of `v`: one byte per
/// started group of seven bits, at least one.
pub open spec fn uleb32_len(v: u32) -> nat {
    if v >> 7 == 0 {
        1
    } else if v >> 14 == 0 {
        2
    } else if v >> 21 == 0 {
        3
    } else if v >> 28 == 0 {
        4
    } else {
        5
    }
}

/// Byte `k` of the unsigned LEB-128 encoding of `v`: seven-bit group `k`,
/// with the continuation bit set on every byte but the last.
pub open spec fn uleb32_byte(v: u32, k: nat) -> u8 {
    let group = ((v >> ((7 * k) as u32)) & 0x7F) as u8;
    if k + 1 < uleb32_len(v) {
        group | 0x80
    } else {
        group
    }
}

/// The unsigned LEB-128 encoding of `v`.
pub open spec fn uleb32_encode(v: u32) -> Seq<u8> {
    Seq::new(uleb32_len(v), |k: int| uleb32_byte(v, k as nat))
}

/// One step of the encoder: shifting out seven more bits leaves zero exactly
/// when the last byte has been written.
pub proof fn lemma_uleb32_step(v: u32, i: nat)
    requires
        i < uleb32_len(v),
    ensures
        (v >> ((7 * i) as u32)) >> 7 == v >> ((7 * (i + 1)) as u32),
        ((v >> ((7 * (i + 1)) as u32)) == 0) == (i + 1 == uleb32_len(v)),
{
    if i == 0 {
        assert((v >> 0u32) >> 7 == v >> 7u32) by (bit_vector);
    } else if i == 1 {
        assert((v >> 7u32) >> 7 == v >> 14u32) by (bit_vector);
    } else if i == 2 {
        assert((v >> 14u32) >> 7 == v >> 21u32) by (bit_vector);
    } else if i == 3 {
        assert((v >> 21u32) >> 7 == v >> 28u32) by (bit_vector);
    } else {
        assert((v >> 28u32) >> 7 == v >> 35u32) by (bit_vector);
        assert(v >> 35u32 == 0) by (bit_vector);
    }
}

/// Reading back an unsigned LEB-128 encoding yields the encoded value and
/// its length, whatever bytes follow it.
pub proof fn lemma_uleb32_roundtrip(v: u32, rest: Seq<u8>)
    ensures
        uleb32_decode(uleb32_encode(v) + rest) == Some((v, uleb32_len(v) as usize)),
{
    let e = uleb32_encode(v);
    let s = e + rest;
    let n = uleb32_len(v);
    assert forall|k: int| 0 <= k < n implies s[k] == uleb32_byte(v, k as nat) by {}
    assert forall|k: int| 0 <= k < n - 1 implies has_more(#[trigger] s[k]) by {
        lemma_cont_more(v, (7 * k) as u32);
    }
    lemma_fin_last(v, (7 * (n - 1)) as u32);
    assert(!has_more(s[n - 1]));
    lemma_uleb32_from_skip(s, 0, (n - 1) as nat);
    reveal_with_fuel(uleb32_acc, 6);
    let a1 = uleb32_acc(s, 1);
    let a2 = uleb32_acc(s, 2);
    let a3 = uleb32_acc(s, 3);
    let a4 = uleb32_acc(s, 4);
    if n == 1 {
        assert(s[0] == fin(v, 0));
        assert(v >> 7 == 0 ==> 0u32 | (pay(fin(v, 0)) << 0u32) == v) by (bit_vector);
    } else {
        assert(s[0] == cont(v, 0));
        assert(a1 == 0u32 | (pay(cont(v, 0)) << 0u32));
        assert(0u32 | (pay(cont(v, 0)) << 0u32) == v & 0x7F) by (bit_vector);
        if n == 2 {
            assert(s[1] == fin(v, 7));
            assert(v >> 14 == 0 ==> (v & 0x7F) | (pay(fin(v, 7)) << 7u32) == v) by (bit_vector);
        } else {
            assert(s[1] == cont(v, 7));
            assert((v & 0x7F) | (pay(cont(v, 7)) << 7u32) == v & 0x3FFF) by (bit_vector);
            if n == 3 {
                assert(s[2] == fin(v, 14));
                assert(v >> 21 == 0 ==> (v & 0x3FFF) | (pay(fin(v, 14)) << 14u32) == v)
                    by (bit_vector);
            } else {
                assert(s[2] == cont(v, 14));
                assert((v & 0x3FFF) | (pay(cont(v, 14)) << 14u32) == v & 0x1F_FFFF)
                    by (bit_vector);
                if n == 4 {
                    assert(s[3] == fin(v, 21));
                    assert(v >> 28 == 0 ==> (v & 0x1F_FFFF) | (pay(fin(v, 21)) << 21u32) == v)
                        by (bit_vector);
                } else {
                    assert(s[3] == cont(v, 21));
                    assert((v & 0x1F_FFFF) | (pay(cont(v, 21)) << 21u32) == v & 0xFFF_FFFF)
                        by (bit_vector);
                    assert(s[4] == fin(v, 28));
                    assert((v & 0xFFF_FFFF) | (pay(fin(v, 28)) << 28u32) == v) by (bit_vector);
                    assert(payload(((v >> 28u32) & 0x7F) as u8) <= 0x0F) by (bit_vector);
                }
            }
        }
    }
}

/// Seven-bit group of `v` starting at bit `sh`, as a final byte.
pub open spec fn fin(v: u32, sh: u32) -> u8 {
    ((v >> sh) & 0x7F) as u8
}

/// Seven-bit group of `v` starting at bit `sh`, with the continuation bit.
pub open spec fn cont(v: u32, sh: u32) -> u8 {
    (((v >> sh) & 0x7F) as u8) | 0x80
}

proof fn lemma_cont_more(v: u32, sh: u32)
    ensures
        cont(v, sh) & 0x80 != 0,
{
    assert(cont(v, sh) & 0x80 != 0) by (bit_vector);
}

proof fn lemma_fin_last(v: u32, sh: u32)
    ensures
        fin(v, sh) & 0x80 == 0,
{
    assert(fin(v, sh) & 0x80 == 0) by (bit_vector);
}

/// Payload of an encoded byte, widened.
pub open spec fn pay(b: u8) -> u32 {
    (b & 0x7F) as u32
}

/// The search for the last byte passes over bytes that announce more.
proof fn lemma_uleb32_from_skip(s: Seq<u8>, i: nat, j: nat)
    requires
        i <= j < 5,
        j < s.len(),
        forall|k: int| i <= k < j ==> has_more(#[trigger] s[k]),
    ensures
        uleb32_from(s, i) == uleb32_from(s, j),
    decreases j - i,
{
    if i < j {
        lemma_uleb32_from_skip(s, i + 1, j);
    }
}


/// Number of bytes in the signed LEB-128 encoding of `v`: the encoding stops
/// once the bits left after the current group's six payload bits are all
/// copies of the sign.
pub open spec fn sleb32_len(v: i32) -> nat {
    if v >> 6 == 0 || v >> 6 == -1 {
        1
    } else if v >> 13 == 0 || v >> 13 == -1 {
        2
    } else if v >> 20 == 0 || v >> 20 == -1 {
        3
    } else if v >> 27 == 0 || v >> 27 == -1 {
        4
    } else {
        5
    }
}

/// Byte `k` of the signed LEB-128 encoding of `v`.
pub open spec fn sleb32_byte(v: i32, k: nat) -> u8 {
    let group = ((v >> ((7 * k) as u32)) & 0x7F) as u8;
    if k + 1 < sleb32_len(v) {
        group | 0x80
    } else {
        group & 0x7F
    }
}

/// The signed LEB-128 encoding of `v`.
pub open spec fn sleb32_encode(v: i32) -> Seq<u8> {
    Seq::new(sleb32_len(v), |k: int| sleb32_byte(v, k as nat))
}

/// One step of the signed encoder.
pub proof fn lemma_sleb32_step(v: i32, i: nat)
    requires
        i < sleb32_len(v),
    ensures
        ((v >> ((7 * i) as u32)) >> 6) >> 1 == v >> ((7 * (i + 1)) as u32),
        (((v >> ((7 * i) as u32)) >> 6) == 0 || ((v >> ((7 * i) as u32)) >> 6) == -1) == (i + 1
            == sleb32_len(v)),
{
    if i == 0 {
        assert(((v >> 0u32) >> 6) >> 1 == v >> 7u32) by (bit_vector);
        assert((v >> 0u32) >> 6 == v >> 6) by (bit_vector);
    } else if i == 1 {
        assert(((v >> 7u32) >> 6) >> 1 == v >> 14u32) by (bit_vector);
        assert((v >> 7u32) >> 6 == v >> 13) by (bit_vector);
    } else if i == 2 {
        assert(((v >> 14u32) >> 6) >> 1 == v >> 21u32) by (bit_vector);
        assert((v >> 14u32) >> 6 == v >> 20) by (bit_vector);
    } else if i == 3 {
        assert(((v >> 21u32) >> 6) >> 1 == v >> 28u32) by (bit_vector);
        assert((v >> 21u32) >> 6 == v >> 27) by (bit_vector);
    } else {
        assert(((v >> 28u32) >> 6) >> 1 == v >> 35u32) by (bit_vector);
        assert((v >> 28u32) >> 6 == 0 || (v >> 28u32) >> 6 == -1) by (bit_vector);
    }
}


/// Seven-bit group of `v` starting at bit `sh`, as a final signed byte.
pub open spec fn sfin(v: i32, sh: u32) -> u8 {
    (((v >> sh) & 0x7F) as u8) & 0x7F
}

/// Seven-bit group of `v` starting at bit `sh`, with the continuation bit.
pub open spec fn scont(v: i32, sh: u32) -> u8 {
    (((v >> sh) & 0x7F) as u8) | 0x80
}

proof fn lemma_scont_more(v: i32, sh: u32)
    ensures
        scont(v, sh) & 0x80 != 0,
{
    assert(scont(v, sh) & 0x80 != 0) by (bit_vector);
}

proof fn lemma_sfin_last(v: i32, sh: u32)
    ensures
        sfin(v, sh) & 0x80 == 0,
{
    assert(sfin(v, sh) & 0x80 == 0) by (bit_vector);
}

/// The search for the last byte of a signed number passes over bytes that
/// announce more.
proof fn lemma_sleb32_from_skip(s: Seq<u8>, i: nat, j: nat)
    requires
        i <= j < 5,
        j < s.len(),
        forall|k: int| i <= k < j ==> has_more(#[trigger] s[k]),
    ensures
        sleb32_from(s, i) == sleb32_from(s, j),
    decreases j - i,
{
    if i < j {
        lemma_sleb32_from_skip(s, i + 1, j);
    }
}

/// Reading back a signed LEB-128 encoding yields the encoded value and its
/// length, whatever bytes follow it.
pub proof fn lemma_sleb32_roundtrip(v: i32, rest: Seq<u8>)
    ensures
        sleb32_decode(sleb32_encode(v) + rest) == Some((v, sleb32_len(v) as usize)),
{
    let e = sleb32_encode(v);
    let s = e + rest;
    let n = sleb32_len(v);
    assert forall|k: int| 0 <= k < n implies s[k] == sleb32_byte(v, k as nat) by {}
    assert forall|k: int| 0 <= k < n - 1 implies has_more(#[trigger] s[k]) by {
        lemma_scont_more(v, (7 * k) as u32);
    }
    lemma_sfin_last(v, (7 * (n - 1)) as u32);
    assert(!has_more(s[n - 1]));
    lemma_sleb32_from_skip(s, 0, (n - 1) as nat);
    reveal_with_fuel(uleb32_acc, 6);
    let a1 = uleb32_acc(s, 1);
    let a2 = uleb32_acc(s, 2);
    let a3 = uleb32_acc(s, 3);
    let a4 = uleb32_acc(s, 4);
    let a5 = uleb32_acc(s, 5);
    if n == 1 {
        assert(s[0] == sfin(v, 0));
        assert(a1 == 0u32 | (pay(sfin(v, 0)) << 0u32));
        assert((v >> 6 == 0 || v >> 6 == -1) ==> (if (sfin(v, 0) & 0x40) != 0 {
            ((0u32 | (pay(sfin(v, 0)) << 0u32)) | (0xFFFF_FFFFu32 << 7u32)) as i32
        } else {
            (0u32 | (pay(sfin(v, 0)) << 0u32)) as i32
        }) == v) by (bit_vector);
    } else {
        assert(s[0] == scont(v, 0));
        assert(a1 == 0u32 | (pay(scont(v, 0)) << 0u32));
        assert(0u32 | (pay(scont(v, 0)) << 0u32) == (v as u32) & 0x7F) by (bit_vector);
        if n == 2 {
            assert(s[1] == sfin(v, 7));
            assert(a2 == ((v as u32) & 0x7F) | (pay(sfin(v, 7)) << 7u32));
            assert((v >> 13 == 0 || v >> 13 == -1) ==> (if (sfin(v, 7) & 0x40) != 0 {
                ((((v as u32) & 0x7F) | (pay(sfin(v, 7)) << 7u32)) | (0xFFFF_FFFFu32 << 14u32))
                    as i32
            } else {
                (((v as u32) & 0x7F) | (pay(sfin(v, 7)) << 7u32)) as i32
            }) == v) by (bit_vector);
        } else {
            assert(s[1] == scont(v, 7));
            assert(((v as u32) & 0x7F) | (pay(scont(v, 7)) << 7u32) == (v as u32) & 0x3FFF)
                by (bit_vector);
            if n == 3 {
                assert(s[2] == sfin(v, 14));
                assert(a3 == ((v as u32) & 0x3FFF) | (pay(sfin(v, 14)) << 14u32));
                assert((v >> 20 == 0 || v >> 20 == -1) ==> (if (sfin(v, 14) & 0x40) != 0 {
                    ((((v as u32) & 0x3FFF) | (pay(sfin(v, 14)) << 14u32)) | (0xFFFF_FFFFu32
                        << 21u32)) as i32
                } else {
                    (((v as u32) & 0x3FFF) | (pay(sfin(v, 14)) << 14u32)) as i32
                }) == v) by (bit_vector);
            } else {
                assert(s[2] == scont(v, 14));
                assert(((v as u32) & 0x3FFF) | (pay(scont(v, 14)) << 14u32) == (v as u32)
                    & 0x1F_FFFF) by (bit_vector);
                if n == 4 {
                    assert(s[3] == sfin(v, 21));
                    assert(a4 == ((v as u32) & 0x1F_FFFF) | (pay(sfin(v, 21)) << 21u32));
                    assert((v >> 27 == 0 || v >> 27 == -1) ==> (if (sfin(v, 21) & 0x40) != 0 {
                        ((((v as u32) & 0x1F_FFFF) | (pay(sfin(v, 21)) << 21u32)) | (
                        0xFFFF_FFFFu32 << 28u32)) as i32
                    } else {
                        (((v as u32) & 0x1F_FFFF) | (pay(sfin(v, 21)) << 21u32)) as i32
                    }) == v) by (bit_vector);
                } else {
                    assert(s[3] == scont(v, 21));
                    assert(((v as u32) & 0x1F_FFFF) | (pay(scont(v, 21)) << 21u32) == (v as u32)
                        & 0xFFF_FFFF) by (bit_vector);
                    assert(s[4] == sfin(v, 28));
                    assert(a5 == ((v as u32) & 0xFFF_FFFF) | (pay(sfin(v, 28)) << 28u32));
                    assert((((v as u32) & 0xFFF_FFFF) | (pay(sfin(v, 28)) << 28u32)) as i32 == v)
                        by (bit_vector);
                }
            }
        }
    }
}

} // verus!
