//! IPv4 addresses, packets and the Internet checksum.
use vstd::prelude::*;
use crate::bytes::{be16, be16_of, u16_from_be, push_be16, push_all, bytes_eq};
use vstd::std_specs::cmp::PartialEqSpecImpl;

verus! {

pub const IP_PROTO_ICMP: u8 = 1;
pub const IP_PROTO_TCP: u8 = 6;
pub const IP_PROTO_UDP: u8 = 17;

/// An IPv4 address as four octets in network order.
#[derive(Clone, Copy, Debug, Eq)]
pub struct IpAddr(pub [u8; 4]);

impl PartialEq for IpAddr {
    fn eq(&self, other: &Self) -> (r: bool) {
        bytes_eq(self.0.as_slice(), other.0.as_slice())
    }
}

impl PartialEqSpecImpl for IpAddr {
    open spec fn obeys_eq_spec() -> bool {
        true
    }

    open spec fn eq_spec(&self, other: &Self) -> bool {
        self.0@ == other.0@
    }
}

/// Octets of `v` least significant first (the `to_le_bytes` order).
pub open spec fn le_octets(v: u32) -> Seq<u8> {
    seq![(v % 256) as u8, ((v / 256) % 256) as u8, ((v / 65536) % 256) as u8, (v / 16777216) as u8]
}

/// The 32-bit value whose least significant octet is `a[0]`.
pub open spec fn le_value(a: Seq<u8>) -> u32 {
    (a[0] as int + a[1] as int * 256 + a[2] as int * 65536 + a[3] as int * 16777216) as u32
}

impl IpAddr {
    /// The address `a.b.c.d`.
    pub fn new(a: u8, b: u8, c: u8, d: u8) -> (r: Self)
        ensures
            r.0@ == seq![a, b, c, d],
    {
        let r = IpAddr([a, b, c, d]);
        assert(r.0@ =~= seq![a, b, c, d]);
        r
    }

    /// The address whose first octet is the least significant byte of `v`.
    pub fn from_u32(v: u32) -> (r: Self)
        ensures
            r.0@ == le_octets(v),
    {
        let r = IpAddr([(v % 256) as u8, ((v / 256) % 256) as u8, ((v / 65536) % 256) as u8, (v / 16777216) as u8]);
        assert(r.0@ =~= le_octets(v));
        r
    }

    /// The address as a 32-bit value, first octet least significant.
    pub fn to_u32(&self) -> (r: u32)
        ensures
            r == le_value(self.0@),
    {
        (self.0[0] as u32) + (self.0[1] as u32) * 256 + (self.0[2] as u32) * 65536 + (self.0[3] as u32) * 16777216
    }

    /// Whether this is `0.0.0.0`.
    pub fn is_zero(&self) -> (r: bool)
        ensures
            r == (self.0@ == seq![0u8, 0u8, 0u8, 0u8]),
    {
        let r = self.0[0] == 0 && self.0[1] == 0 && self.0[2] == 0 && self.0[3] == 0;
        assert(r ==> self.0@ =~= seq![0u8, 0u8, 0u8, 0u8]);
        r
    }

    /// Whether this is in `127.0.0.0/8`.
    pub fn is_loopback(&self) -> (r: bool)
        ensures
            r == (self.0@[0] == 127),
    {
        self.0[0] == 127
    }

    /// Whether this is in `10.0.0.0/8`, `172.16.0.0/12` or `192.168.0.0/16`.
    pub fn is_private(&self) -> (r: bool)
        ensures
            r == (self.0@[0] == 10 || (self.0@[0] == 172 && 16 <= self.0@[1] <= 31) || (self.0@[0]
                == 192 && self.0@[1] == 168)),
    {
        self.0[0] == 10 || (self.0[0] == 172 && self.0[1] >= 16 && self.0[1] <= 31) || (self.0[0] == 192
            && self.0[1] == 168)
    }
}

impl Default for IpAddr {
    fn default() -> (r: Self)
        ensures
            r.0@ == seq![0u8, 0u8, 0u8, 0u8],
    {
        let r = IpAddr([0, 0, 0, 0]);
        assert(r.0@ =~= seq![0u8, 0u8, 0u8, 0u8]);
        r
    }
}

/// Converting an address to a number and back is the identity, and so is
/// the other way round.
pub proof fn lemma_ip_u32_roundtrip(v: u32, a: Seq<u8>)
    requires
        a.len() == 4,
    ensures
        le_value(le_octets(v)) == v,
        le_octets(le_value(a)) == a,
{
    let o = le_octets(v);
    assert(o[0] as int + o[1] as int * 256 + o[2] as int * 65536 + o[3] as int * 16777216 == v as int)
        by (nonlinear_arith)
        requires
            o[0] as int == v as int % 256,
            o[1] as int == (v as int / 256) % 256,
            o[2] as int == (v as int / 65536) % 256,
            o[3] as int == v as int / 16777216,
            0 <= v <= u32::MAX,
    ;
    let w = le_value(a);
    let x = a[0] as int + a[1] as int * 256 + a[2] as int * 65536 + a[3] as int * 16777216;
    assert(0 <= x <= u32::MAX);
    assert(w as int == x);
    assert(x % 256 == a[0] as int && (x / 256) % 256 == a[1] as int && (x / 65536) % 256 == a[2] as int
        && x / 16777216 == a[3] as int) by (nonlinear_arith)
        requires
            x == a[0] as int + a[1] as int * 256 + a[2] as int * 65536 + a[3] as int * 16777216,
            0 <= a[0] < 256,
            0 <= a[1] < 256,
            0 <= a[2] < 256,
            0 <= a[3] < 256,
    ;
    assert(le_octets(w) =~= a);
}

/// Sum of the big-endian 16-bit words of `d`; an odd last byte is the high
/// half of a final word.
pub open spec fn word_sum(d: Seq<u8>) -> nat
    decreases d.len(),
{
    if d.len() == 0 {
        0
    } else if d.len() == 1 {
        d[0] as nat * 256
    } else {
        (d[0] as nat * 256 + d[1] as nat) + word_sum(d.subrange(2, d.len() as int))
    }
}

/// Folding carries back into the low 16 bits until the sum fits.
pub open spec fn fold_carries(s: u32) -> u32
    decreases s,
{
    if s > 0xFFFF {
        proof {
            assert(s > 0xFFFF ==> ((s & 0xFFFF) + (s >> 16)) < s) by (bit_vector);
        }
        fold_carries(((s & 0xFFFF) + (s >> 16)) as u32)
    } else {
        s
    }
}

/// The Internet checksum of `d`: the complement of the folded word sum.
pub open spec fn internet_checksum(d: Seq<u8>) -> u16 {
    !(fold_carries(word_sum(d) as u32) as u16)
}

/// Add the big-endian words of `data` to `sum`.
pub fn add_words(sum: u32, data: &[u8]) -> (r: u32)
    requires
        sum + word_sum(data@) <= u32::MAX,
    ensures
        r == sum + word_sum(data@),
{
    let mut sum = sum;
    let ghost total = sum + word_sum(data@);
    let mut i: usize = 0;
    assert(data@.subrange(0, data@.len() as int) =~= data@);
    while data.len() - i >= 2
        invariant
            i <= data@.len(),
            total <= u32::MAX,
            sum + word_sum(data@.subrange(i as int, data@.len() as int)) == total,
        decreases data.len() - i,
    {
        let ghost rest = data@.subrange(i as int, data@.len() as int);
        assert(rest.subrange(2, rest.len() as int) =~= data@.subrange(i + 2, data@.len() as int));
        sum = sum + (((data[i] as u32) * 256) + data[i + 1] as u32);
        i = i + 2;
    }
    if i < data.len() {
        sum = sum + (data[i] as u32) * 256;
    } else {
        assert(data@.subrange(i as int, data@.len() as int).len() == 0);
    }
    sum
}

/// Fold the carries of `sum` and complement the result.
pub fn fold_complement(sum: u32) -> (r: u16)
    ensures
        r == !(fold_carries(sum) as u16),
{
    let mut s = sum;
    while s > 0xFFFF
        invariant
            fold_carries(s) == fold_carries(sum),
        decreases s,
    {
        assert(s > 0xFFFF ==> ((s & 0xFFFF) + (s >> 16)) < s) by (bit_vector);
        assert(s > 0xFFFF ==> ((s & 0xFFFF) + (s >> 16)) <= 0x1FFFE) by (bit_vector);
        s = (s & 0xFFFF) + (s >> 16);
    }
    !(s as u16)
}

/// The one's-complement checksum used by IPv4, ICMP and TCP.
pub fn ip_chksum(data: &[u8]) -> (r: u16)
    requires
        word_sum(data@) <= u32::MAX,
    ensures
        r == internet_checksum(data@),
{
    let sum = add_words(0, data);
    fold_complement(sum)
}

/// A parsed IPv4 packet; the payload borrows from the received bytes.
pub struct Ipv4Packet<'a> {
    pub version_ihl: u8,
    pub tos: u8,
    pub total_len: u16,
    pub id: u16,
    pub flags_offset: u16,
    pub ttl: u8,
    pub protocol: u8,
    pub checksum: u16,
    pub src: IpAddr,
    pub dst: IpAddr,
    pub payload: &'a [u8],
}

/// Header length in bytes announced by the version/IHL byte.
pub open spec fn ihl_bytes(version_ihl: u8) -> nat {
    ((version_ihl % 16) * 4) as nat
}

/// Whether `b` is an IPv4 packet this stack accepts: version 4, a header of
/// at least 20 bytes that fits in `b`.
pub open spec fn ipv4_accepts(b: Seq<u8>) -> bool {
    b.len() >= 20 && b[0] / 16 == 4 && ihl_bytes(b[0]) >= 20 && b.len() >= ihl_bytes(b[0])
}

/// The 20-byte header with checksum field `ck`.
pub open spec fn ipv4_header(vihl: u8, tos: u8, total_len: u16, id: u16, flags: u16, ttl: u8, proto: u8, ck: u16, src: Seq<u8>, dst: Seq<u8>) -> Seq<u8> {
    seq![vihl, tos] + be16(total_len) + be16(id) + be16(flags) + seq![ttl, proto] + be16(ck) + src + dst
}

impl<'a> Ipv4Packet<'a> {
    /// Parse an IPv4 packet; `None` unless `ipv4_accepts`.
    pub fn parse(bytes: &'a [u8]) -> (r: Option<Self>)
        ensures
            r is Some == ipv4_accepts(bytes@),
            r matches Some(p) ==> {
                &&& p.version_ihl == bytes@[0]
                &&& p.tos == bytes@[1]
                &&& p.total_len == be16_of(bytes@[2], bytes@[3])
                &&& p.id == be16_of(bytes@[4], bytes@[5])
                &&& p.flags_offset == be16_of(bytes@[6], bytes@[7])
                &&& p.ttl == bytes@[8]
                &&& p.protocol == bytes@[9]
                &&& p.checksum == be16_of(bytes@[10], bytes@[11])
                &&& p.src.0@ == bytes@.subrange(12, 16)
                &&& p.dst.0@ == bytes@.subrange(16, 20)
                &&& p.payload@ == bytes@.subrange(ihl_bytes(bytes@[0]) as int, bytes@.len() as int)
            },
    {
        if bytes.len() < 20 {
            return None;
        }
        let version_ihl = bytes[0];
        if version_ihl / 16 != 4 {
            return None;
        }
        let ihl = ((version_ihl % 16) as usize) * 4;
        if ihl < 20 || bytes.len() < ihl {
            return None;
        }
        let src = [bytes[12], bytes[13], bytes[14], bytes[15]];
        let dst = [bytes[16], bytes[17], bytes[18], bytes[19]];
        assert(src@ =~= bytes@.subrange(12, 16));
        assert(dst@ =~= bytes@.subrange(16, 20));
        Some(Ipv4Packet {
            version_ihl,
            tos: bytes[1],
            total_len: u16_from_be(bytes[2], bytes[3]),
            id: u16_from_be(bytes[4], bytes[5]),
            flags_offset: u16_from_be(bytes[6], bytes[7]),
            ttl: bytes[8],
            protocol: bytes[9],
            checksum: u16_from_be(bytes[10], bytes[11]),
            src: IpAddr(src),
            dst: IpAddr(dst),
            payload: vstd::slice::slice_subrange(bytes, ihl, bytes.len()),
        })
    }

    /// A version-4, 20-byte-header, TTL-64 packet with zero id, flags and
    /// checksum.
    pub fn new(src: IpAddr, dst: IpAddr, protocol: u8, payload: &'a [u8]) -> (p: Self)
        requires
            (payload@.len() as u16) + 20 <= u16::MAX,
        ensures
            p.version_ihl == 0x45 && p.tos == 0 && p.id == 0 && p.flags_offset == 0 && p.ttl == 64
                && p.checksum == 0,
            p.total_len == 20 + (payload@.len() as u16),
            p.protocol == protocol && p.src == src && p.dst == dst && p.payload@ == payload@,
    {
        let total_len = 20 + payload.len() as u16;
        Ipv4Packet {
            version_ihl: 0x45,
            tos: 0,
            total_len,
            id: 0,
            flags_offset: 0,
            ttl: 64,
            protocol,
            checksum: 0,
            src,
            dst,
            payload,
        }
    }

    /// Serialise with a freshly computed header checksum (over the first
    /// 20 bytes; the stored `checksum` field is ignored).
    pub fn to_bytes(&self) -> (v: Vec<u8>)
        ensures
            v@ == ipv4_header(self.version_ihl, self.tos, self.total_len, self.id, self.flags_offset,
                self.ttl, self.protocol, internet_checksum(ipv4_header(self.version_ihl, self.tos,
                self.total_len, self.id, self.flags_offset, self.ttl, self.protocol, 0, self.src.0@,
                self.dst.0@)), self.src.0@, self.dst.0@) + self.payload@,
    {
        let mut v: Vec<u8> = Vec::new();
        v.push(self.version_ihl);
        v.push(self.tos);
        push_be16(&mut v, self.total_len);
        push_be16(&mut v, self.id);
        push_be16(&mut v, self.flags_offset);
        v.push(self.ttl);
        v.push(self.protocol);
        push_be16(&mut v, 0);
        push_all(&mut v, self.src.0.as_slice());
        push_all(&mut v, self.dst.0.as_slice());
        let ghost h0 = ipv4_header(self.version_ihl, self.tos, self.total_len, self.id,
            self.flags_offset, self.ttl, self.protocol, 0, self.src.0@, self.dst.0@);
        assert(v@ =~= h0);
        proof {
            lemma_word_sum_bound(h0);
        }
        let sum = ip_chksum(v.as_slice());
        push_all(&mut v, self.payload);
        v.set(10, (sum / 256) as u8);
        v.set(11, (sum % 256) as u8);
        assert(v@ =~= ipv4_header(self.version_ihl, self.tos, self.total_len, self.id,
            self.flags_offset, self.ttl, self.protocol, sum, self.src.0@, self.dst.0@) + self.payload@);
        v
    }
}

/// The word sum of `d` is at most 65535 per started word.
pub proof fn lemma_word_sum_bound(d: Seq<u8>)
    ensures
        word_sum(d) <= 65535 * ((d.len() + 1) / 2),
    decreases d.len(),
{
    if d.len() >= 2 {
        lemma_word_sum_bound(d.subrange(2, d.len() as int));
    }
}

/// Parsing a serialised packet gives back its fields, with the checksum
/// computed by `to_bytes`.
pub proof fn lemma_ipv4_roundtrip(tos: u8, total_len: u16, id: u16, flags: u16, ttl: u8, proto: u8, ck: u16, src: Seq<u8>, dst: Seq<u8>, payload: Seq<u8>)
    requires
        src.len() == 4,
        dst.len() == 4,
    ensures
        ({
            let b = ipv4_header(0x45, tos, total_len, id, flags, ttl, proto, ck, src, dst) + payload;
            &&& ipv4_accepts(b)
            &&& b[0] == 0x45 && b[1] == tos && be16_of(b[2], b[3]) == total_len
            &&& be16_of(b[4], b[5]) == id && be16_of(b[6], b[7]) == flags
            &&& b[8] == ttl && b[9] == proto && be16_of(b[10], b[11]) == ck
            &&& b.subrange(12, 16) == src && b.subrange(16, 20) == dst
            &&& b.subrange(ihl_bytes(b[0]) as int, b.len() as int) == payload
        }),
{
    let b = ipv4_header(0x45, tos, total_len, id, flags, ttl, proto, ck, src, dst) + payload;
    assert(b.subrange(12, 16) =~= src);
    assert(b.subrange(16, 20) =~= dst);
    assert(b.subrange(20, b.len() as int) =~= payload);
}


/// Folding carries keeps the value modulo 65535 and gives a 16-bit value,
/// non-zero for a non-zero sum.
pub proof fn lemma_fold_carries(x: u32)
    ensures
        fold_carries(x) <= 0xFFFF,
        fold_carries(x) as int % 65535 == x as int % 65535,
        x > 0 ==> fold_carries(x) > 0,
    decreases x,
{
    if x > 0xFFFF {
        assert(x & 0xFFFF == x % 65536 && x >> 16 == x / 65536 && (x > 0xFFFF ==> ((x & 0xFFFF) + (x >> 16)) < x)
            && ((x & 0xFFFF) + (x >> 16)) <= 0x1FFFE) by (bit_vector);
        let h: int = x as int / 65536;
        let l: int = x as int % 65536;
        let y = ((x & 0xFFFF) + (x >> 16)) as u32;
        assert(y == h + l);
        lemma_fold_carries(y);
        assert(x as int == 65535 * h + (h + l));
        vstd::arithmetic::div_mod::lemma_mod_multiples_vanish(h, h + l, 65535);
        assert(h >= 1);
    }
}

/// Storing the complement of a sum's folded value next to it makes the
/// checksum of the whole come out 0: for a sum `b` of the other words, and
/// `c` the checksum of `b` alone, the checksum of `b + c` is 0.
pub proof fn lemma_checksum_closes(b: nat)
    requires
        b + 0xFFFF <= u32::MAX,
    ensures
        !(fold_carries((b + (!(fold_carries(b as u32) as u16)) as nat) as u32) as u16) == 0,
{
    let f = fold_carries(b as u32);
    lemma_fold_carries(b as u32);
    let fu = f as u16;
    assert(f == fu);
    let c = !fu;
    assert(!fu == 0xFFFFu16 - fu && !(0xFFFFu32 as u16) == 0) by (bit_vector);
    let t = (b + c as nat) as u32;
    lemma_fold_carries(t);
    let g = fold_carries(t);
    assert(t as int == b + 0xFFFF - f);
    assert((b as int) % 65535 == (f as int) % 65535);
    assert((b + 0xFFFF - f) % 65535 == 0) by {
        let q = (b as int) / 65535;
        let fq = (f as int) / 65535;
        vstd::arithmetic::div_mod::lemma_fundamental_div_mod(b as int, 65535);
        vstd::arithmetic::div_mod::lemma_fundamental_div_mod(f as int, 65535);
        assert(b + 0xFFFF - f == 65535 * (q - fq + 1));
        vstd::arithmetic::div_mod::lemma_mod_multiples_vanish(q - fq + 1, 0, 65535);
    }
    if b == 0 {
        assert(f == 0);
    }
    assert(t > 0);
    assert(g > 0 && g <= 0xFFFF && (g as int) % 65535 == 0);
    assert(g == 0xFFFF);
}

/// The word sum of `a + b` is that of `a` plus that of `b` when `a` has an
/// even length.
pub proof fn lemma_word_sum_concat(a: Seq<u8>, b: Seq<u8>)
    requires
        a.len() % 2 == 0,
    ensures
        word_sum(a + b) == word_sum(a) + word_sum(b),
    decreases a.len(),
{
    if a.len() == 0 {
        assert(a + b =~= b);
    } else {
        let r = a.subrange(2, a.len() as int);
        assert((a + b).subrange(2, (a + b).len() as int) =~= r + b);
        lemma_word_sum_concat(r, b);
    }
}

/// The word sum of a big-endian 16-bit value is the value.
pub proof fn lemma_word_sum_be16(v: u16)
    ensures
        word_sum(be16(v)) == v,
{
    let s = be16(v);
    assert(s.subrange(2, 2) =~= Seq::<u8>::empty());
    reveal_with_fuel(word_sum, 2);
    assert((v / 256) * 256 + v % 256 == v) by (nonlinear_arith);
    assert(s[0] as nat == v / 256 && s[1] as nat == v % 256);
}

/// A header carrying the checksum `to_bytes` stores in it checks out: its
/// Internet checksum is 0.
pub proof fn lemma_ipv4_checksum_verifies(vihl: u8, tos: u8, total_len: u16, id: u16, flags: u16, ttl: u8, proto: u8, src: Seq<u8>, dst: Seq<u8>)
    requires
        src.len() == 4,
        dst.len() == 4,
    ensures
        internet_checksum(ipv4_header(vihl, tos, total_len, id, flags, ttl, proto, internet_checksum(
            ipv4_header(vihl, tos, total_len, id, flags, ttl, proto, 0, src, dst)), src, dst)) == 0,
{
    let p = seq![vihl, tos] + be16(total_len) + be16(id) + be16(flags) + seq![ttl, proto];
    let q = src + dst;
    assert forall|ck: u16| #[trigger] ipv4_header(vihl, tos, total_len, id, flags, ttl, proto, ck, src, dst)
        == p + (be16(ck) + q) by {
        assert(ipv4_header(vihl, tos, total_len, id, flags, ttl, proto, ck, src, dst) =~= p + (be16(ck) + q));
    }
    lemma_word_sum_bound(p);
    lemma_word_sum_bound(q);
    let b = word_sum(p) + word_sum(q);
    assert forall|ck: u16| #[trigger] word_sum(ipv4_header(vihl, tos, total_len, id, flags, ttl, proto, ck, src,
        dst)) == b + ck by {
        lemma_word_sum_concat(p, be16(ck) + q);
        lemma_word_sum_concat(be16(ck), q);
        lemma_word_sum_be16(ck);
    }
    assert(word_sum(ipv4_header(vihl, tos, total_len, id, flags, ttl, proto, 0, src, dst)) == b + 0);
    lemma_checksum_closes(b);
}
} // verus!
