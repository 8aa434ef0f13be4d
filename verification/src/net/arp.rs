//! ARP packets and the IPv4 → MAC address cache.
use vstd::prelude::*;
use crate::bytes::{be16, be16_of, u16_from_be, bytes_eq};

verus! {

pub const ARP_OP_REQUEST: u16 = 1;
pub const ARP_OP_REPLY: u16 = 2;
pub const MAX_ARP_ENTRIES: usize = 16;

/// A fixed-size cache of IPv4 → MAC bindings.
pub struct ArpCache {
    pub ips: [[u8; 4]; 16],
    pub macs: [[u8; 6]; 16],
    pub valid: [bool; 16],
}

/// Whether slot `k` of the cache holds a binding for `ip`.
pub open spec fn arp_slot_matches(c: ArpCache, ip: Seq<u8>, k: int) -> bool {
    c.valid@[k] && c.ips@[k]@ == ip
}

/// The first slot at or after `from` that binds `ip`.
pub open spec fn arp_find(c: ArpCache, ip: Seq<u8>, from: int) -> Option<int>
    decreases 16 - from,
{
    if from >= 16 || from < 0 {
        None
    } else if arp_slot_matches(c, ip, from) {
        Some(from)
    } else {
        arp_find(c, ip, from + 1)
    }
}

/// The first unused slot at or after `from`.
pub open spec fn arp_free(c: ArpCache, from: int) -> Option<int>
    decreases 16 - from,
{
    if from >= 16 || from < 0 {
        None
    } else if !c.valid@[from] {
        Some(from)
    } else {
        arp_free(c, from + 1)
    }
}

/// What the cache answers for `ip`: the MAC of the first slot that binds it.
pub open spec fn arp_lookup(c: ArpCache, ip: Seq<u8>) -> Option<[u8; 6]> {
    match arp_find(c, ip, 0) {
        Some(i) => Some(c.macs@[i]),
        None => None,
    }
}

/// `arp_find` is the first matching slot.
pub proof fn lemma_arp_find(c: ArpCache, ip: Seq<u8>, from: int)
    requires
        0 <= from <= 16,
    ensures
        match arp_find(c, ip, from) {
            Some(i) => from <= i < 16 && arp_slot_matches(c, ip, i) && forall|k: int|
                from <= k < i ==> !#[trigger] arp_slot_matches(c, ip, k),
            None => forall|k: int| from <= k < 16 ==> !#[trigger] arp_slot_matches(c, ip, k),
        },
    decreases 16 - from,
{
    if from < 16 {
        lemma_arp_find(c, ip, from + 1);
    }
}

/// `arp_free` is the first unused slot.
pub proof fn lemma_arp_free(c: ArpCache, from: int)
    requires
        0 <= from <= 16,
    ensures
        match arp_free(c, from) {
            Some(i) => from <= i < 16 && !c.valid@[i] && forall|k: int|
                from <= k < i ==> #[trigger] c.valid@[k],
            None => forall|k: int| from <= k < 16 ==> #[trigger] c.valid@[k],
        },
    decreases 16 - from,
{
    if from < 16 {
        lemma_arp_free(c, from + 1);
    }
}

/// A slot index that is the first match is what `arp_find` returns.
pub proof fn lemma_arp_find_first(c: ArpCache, ip: Seq<u8>, i: int)
    requires
        0 <= i < 16,
        arp_slot_matches(c, ip, i),
        forall|k: int| 0 <= k < i ==> !#[trigger] arp_slot_matches(c, ip, k),
    ensures
        arp_find(c, ip, 0) == Some(i),
{
    lemma_arp_find(c, ip, 0);
    match arp_find(c, ip, 0) {
        Some(j) => {
            if j < i {
                assert(!arp_slot_matches(c, ip, j));
            } else if j > i {
                assert(!arp_slot_matches(c, ip, i));
            }
        },
        None => {
            assert(!arp_slot_matches(c, ip, i));
        },
    }
}

/// Cache `c2` is `c` with `ip` bound to `mac`: the first slot that binds
/// `ip` is refreshed, else the first free slot is taken; a full cache
/// without `ip` is left unchanged.
pub open spec fn arp_inserted(c: ArpCache, ip: [u8; 4], mac: [u8; 6], c2: ArpCache) -> bool {
    match arp_find(c, ip@, 0) {
        Some(i) => c2.ips == c.ips && c2.valid == c.valid && c2.macs@ == c.macs@.update(i, mac),
        None => match arp_free(c, 0) {
            Some(j) => c2.ips@ == c.ips@.update(j, ip) && c2.macs@ == c.macs@.update(j, mac)
                && c2.valid@ == c.valid@.update(j, true),
            None => c2 == c,
        },
    }
}

impl ArpCache {
    /// An empty cache.
    pub fn new() -> (c: Self)
        ensures
            forall|k: int| 0 <= k < 16 ==> !c.valid@[k],
    {
        ArpCache { ips: [[0u8; 4]; 16], macs: [[0u8; 6]; 16], valid: [false; 16] }
    }

    /// Bind `ip` to `mac` (see `arp_inserted`).
    pub fn insert(&mut self, ip: [u8; 4], mac: [u8; 6])
        ensures
            arp_inserted(*old(self), ip, mac, *final(self)),
    {
        proof {
            lemma_arp_find(*self, ip@, 0);
            lemma_arp_free(*self, 0);
        }
        let mut i: usize = 0;
        while i < MAX_ARP_ENTRIES
            invariant
                i <= 16,
                *self == *old(self),
                forall|k: int| 0 <= k < i ==> !#[trigger] arp_slot_matches(*self, ip@, k),
            decreases 16 - i,
        {
            if self.valid[i] && bytes_eq(self.ips[i].as_slice(), ip.as_slice()) {
                proof {
                    lemma_arp_find_first(*self, ip@, i as int);
                }
                self.macs[i] = mac;
                return;
            }
            i = i + 1;
        }
        let mut j: usize = 0;
        while j < MAX_ARP_ENTRIES
            invariant
                j <= 16,
                *self == *old(self),
                arp_find(*self, ip@, 0) is None,
                forall|k: int| 0 <= k < j ==> #[trigger] self.valid@[k],
            decreases 16 - j,
        {
            if !self.valid[j] {
                proof {
                    lemma_arp_free(*self, 0);
                    match arp_free(*self, 0) {
                        Some(f) => {
                            if f < j {
                                assert(self.valid@[f]);
                            } else if f > j {
                                assert(self.valid@[j as int]);
                            }
                        },
                        None => {
                            assert(self.valid@[j as int]);
                        },
                    }
                }
                self.ips[j] = ip;
                self.macs[j] = mac;
                self.valid[j] = true;
                return;
            }
            j = j + 1;
        }
    }

    /// The MAC bound to `ip`, if any.
    pub fn lookup(&self, ip: [u8; 4]) -> (r: Option<[u8; 6]>)
        ensures
            r == arp_lookup(*self, ip@),
    {
        proof {
            lemma_arp_find(*self, ip@, 0);
        }
        let mut i: usize = 0;
        while i < MAX_ARP_ENTRIES
            invariant
                i <= 16,
                forall|k: int| 0 <= k < i ==> !#[trigger] arp_slot_matches(*self, ip@, k),
            decreases 16 - i,
        {
            if self.valid[i] && bytes_eq(self.ips[i].as_slice(), ip.as_slice()) {
                proof {
                    lemma_arp_find_first(*self, ip@, i as int);
                }
                return Some(self.macs[i]);
            }
            i = i + 1;
        }
        proof {
            match arp_find(*self, ip@, 0) {
                Some(f) => {
                    assert(!arp_slot_matches(*self, ip@, f));
                },
                None => {},
            }
        }
        None
    }
}

/// After binding `ip` to `mac`, the cache answers `mac` for `ip`, provided
/// it already knew `ip` or had a free slot.
pub proof fn lemma_arp_insert_lookup(old_c: ArpCache, new_c: ArpCache, ip: [u8; 4], mac: [u8; 6])
    requires
        arp_inserted(old_c, ip, mac, new_c),
        arp_find(old_c, ip@, 0) is Some || arp_free(old_c, 0) is Some,
    ensures
        arp_lookup(new_c, ip@) == Some(mac),
{
    lemma_arp_find(old_c, ip@, 0);
    lemma_arp_free(old_c, 0);
    match arp_find(old_c, ip@, 0) {
        Some(i) => {
            assert forall|k: int| 0 <= k < i implies !#[trigger] arp_slot_matches(new_c, ip@, k) by {
                assert(!arp_slot_matches(old_c, ip@, k));
            }
            assert(arp_slot_matches(old_c, ip@, i));
            lemma_arp_find_first(new_c, ip@, i);
        },
        None => {
            let j = arp_free(old_c, 0)->0;
            assert forall|k: int| 0 <= k < j implies !#[trigger] arp_slot_matches(new_c, ip@, k) by {
                assert(!arp_slot_matches(old_c, ip@, k));
            }
            lemma_arp_find_first(new_c, ip@, j);
        },
    }
}

/// No address is bound by two valid slots.
pub open spec fn arp_no_dups(c: ArpCache) -> bool {
    forall|i: int, j: int|
        0 <= i < 16 && 0 <= j < 16 && i != j && #[trigger] c.valid@[i] && #[trigger] c.valid@[j] ==> c.ips@[i]@
            != c.ips@[j]@
}

/// Binding an address keeps every address bound at most once.
pub proof fn lemma_arp_insert_no_dups(c: ArpCache, ip: [u8; 4], mac: [u8; 6], c2: ArpCache)
    requires
        arp_no_dups(c),
        arp_inserted(c, ip, mac, c2),
    ensures
        arp_no_dups(c2),
{
    lemma_arp_find(c, ip@, 0);
    lemma_arp_free(c, 0);
    match arp_find(c, ip@, 0) {
        Some(i) => {
            assert(c2.valid@ == c.valid@ && c2.ips@ == c.ips@);
        },
        None => match arp_free(c, 0) {
            Some(f) => {
                assert forall|i: int, j: int|
                    0 <= i < 16 && 0 <= j < 16 && i != j && #[trigger] c2.valid@[i] && #[trigger] c2.valid@[j]
                        implies c2.ips@[i]@ != c2.ips@[j]@ by {
                    if i == f {
                        assert(!arp_slot_matches(c, ip@, j));
                    } else if j == f {
                        assert(!arp_slot_matches(c, ip@, i));
                    } else {
                        assert(c.valid@[i] && c.valid@[j]);
                    }
                }
            },
            None => {},
        },
    }
}

/// Two caches whose slots bind `ip` alike give the same first match.
proof fn lemma_arp_find_alike(c: ArpCache, c2: ArpCache, ip: Seq<u8>, from: int)
    requires
        forall|k: int| 0 <= k < 16 ==> arp_slot_matches(c, ip, k) == #[trigger] arp_slot_matches(c2, ip, k),
    ensures
        arp_find(c, ip, from) == arp_find(c2, ip, from),
    decreases 16 - from,
{
    if 0 <= from < 16 {
        assert(arp_slot_matches(c, ip, from) == arp_slot_matches(c2, ip, from));
        lemma_arp_find_alike(c, c2, ip, from + 1);
    }
}

/// Binding `ip` leaves the answer for every other address unchanged.
pub proof fn lemma_arp_insert_others(c: ArpCache, ip: [u8; 4], mac: [u8; 6], c2: ArpCache, other: Seq<u8>)
    requires
        arp_inserted(c, ip, mac, c2),
        other != ip@,
    ensures
        arp_lookup(c2, other) == arp_lookup(c, other),
{
    lemma_arp_find(c, ip@, 0);
    lemma_arp_free(c, 0);
    lemma_arp_find(c, other, 0);
    let changed: int = match arp_find(c, ip@, 0) {
        Some(i) => i,
        None => match arp_free(c, 0) {
            Some(f) => f,
            None => -1,
        },
    };
    assert forall|k: int| 0 <= k < 16 implies arp_slot_matches(c, other, k) == #[trigger] arp_slot_matches(
        c2,
        other,
        k,
    ) by {
        if k != changed {
            assert(c2.valid@[k] == c.valid@[k] && c2.ips@[k] == c.ips@[k]);
        }
    }
    lemma_arp_find_alike(c, c2, other, 0);
    match arp_find(c, other, 0) {
        Some(x) => {
            assert(arp_slot_matches(c, other, x));
            if x == changed {
                assert(arp_slot_matches(c2, other, x));
            }
            assert(c2.macs@[x] == c.macs@[x]);
        },
        None => {},
    }
}

/// An ARP packet for Ethernet/IPv4.
pub struct ArpPacket {
    pub operation: u16,
    pub sender_ip: [u8; 4],
    pub target_ip: [u8; 4],
    pub sender_mac: [u8; 6],
    pub target_mac: [u8; 6],
}

/// The 28 bytes of an Ethernet/IPv4 ARP packet.
pub open spec fn arp_bytes(op: u16, sender_mac: Seq<u8>, sender_ip: Seq<u8>, target_mac: Seq<u8>, target_ip: Seq<u8>) -> Seq<u8> {
    be16(1) + be16(0x0800) + seq![6u8, 4u8] + be16(op) + sender_mac + sender_ip + target_mac + target_ip
}

/// Whether `b` is long enough and announces Ethernet hardware and IPv4
/// protocol addresses.
pub open spec fn arp_accepts(b: Seq<u8>) -> bool {
    b.len() >= 28 && be16_of(b[0], b[1]) == 1 && be16_of(b[2], b[3]) == 0x0800
}

impl ArpPacket {
    /// Parse an ARP packet; `None` unless it is Ethernet/IPv4 and at least
    /// 28 bytes long.
    pub fn parse(bytes: &[u8]) -> (r: Option<Self>)
        ensures
            r is Some == arp_accepts(bytes@),
            r matches Some(p) ==> p.operation == be16_of(bytes@[6], bytes@[7]) && p.sender_mac@
                == bytes@.subrange(8, 14) && p.sender_ip@ == bytes@.subrange(14, 18)
                && p.target_mac@ == bytes@.subrange(18, 24) && p.target_ip@ == bytes@.subrange(24, 28),
    {
        if bytes.len() < 28 {
            return None;
        }
        let htype = u16_from_be(bytes[0], bytes[1]);
        let ptype = u16_from_be(bytes[2], bytes[3]);
        if htype != 1 || ptype != 0x0800 {
            return None;
        }
        let operation = u16_from_be(bytes[6], bytes[7]);
        let sender_mac = [bytes[8], bytes[9], bytes[10], bytes[11], bytes[12], bytes[13]];
        let target_mac = [bytes[18], bytes[19], bytes[20], bytes[21], bytes[22], bytes[23]];
        let sender_ip = [bytes[14], bytes[15], bytes[16], bytes[17]];
        let target_ip = [bytes[24], bytes[25], bytes[26], bytes[27]];
        assert(sender_mac@ =~= bytes@.subrange(8, 14));
        assert(target_mac@ =~= bytes@.subrange(18, 24));
        assert(sender_ip@ =~= bytes@.subrange(14, 18));
        assert(target_ip@ =~= bytes@.subrange(24, 28));
        Some(ArpPacket { operation, sender_ip, target_ip, sender_mac, target_mac })
    }

    /// A reply packet with the given addresses.
    pub fn new_reply(sender_ip: [u8; 4], target_ip: [u8; 4], sender_mac: [u8; 6], target_mac: [u8; 6]) -> (p: ArpPacket)
        ensures
            p == (ArpPacket { operation: ARP_OP_REPLY, sender_ip, target_ip, sender_mac, target_mac }),
    {
        ArpPacket { operation: ARP_OP_REPLY, sender_ip, target_ip, sender_mac, target_mac }
    }

    /// The packet's 28 wire bytes.
    pub fn to_bytes(&self) -> (b: [u8; 28])
        ensures
            b@ == arp_bytes(self.operation, self.sender_mac@, self.sender_ip@, self.target_mac@, self.target_ip@),
    {
        let mut b = [0u8; 28];
        b[0] = 0;
        b[1] = 1;
        b[2] = 0x08;
        b[3] = 0;
        b[4] = 6;
        b[5] = 4;
        b[6] = (self.operation / 256) as u8;
        b[7] = (self.operation % 256) as u8;
        let mut k: usize = 0;
        while k < 6
            invariant
                k <= 6,
                b@[0] == 0 && b@[1] == 1 && b@[2] == 0x08 && b@[3] == 0 && b@[4] == 6 && b@[5] == 4,
                b@[6] == (self.operation / 256) as u8 && b@[7] == (self.operation % 256) as u8,
                forall|j: int| 0 <= j < k ==> b@[8 + j] == self.sender_mac@[j] && b@[18 + j]
                    == self.target_mac@[j],
                forall|j: int| 0 <= j < k && j < 4 ==> b@[14 + j] == self.sender_ip@[j] && b@[24 + j]
                    == self.target_ip@[j],
            decreases 6 - k,
        {
            b[8 + k] = self.sender_mac[k];
            b[18 + k] = self.target_mac[k];
            if k < 4 {
                b[14 + k] = self.sender_ip[k];
                b[24 + k] = self.target_ip[k];
            }
            k = k + 1;
        }
        assert(b@ =~= arp_bytes(self.operation, self.sender_mac@, self.sender_ip@, self.target_mac@, self.target_ip@));
        b
    }
}

/// An encoded packet is accepted and parses back to its fields.
pub proof fn lemma_arp_roundtrip(op: u16, smac: Seq<u8>, sip: Seq<u8>, tmac: Seq<u8>, tip: Seq<u8>)
    requires
        smac.len() == 6,
        tmac.len() == 6,
        sip.len() == 4,
        tip.len() == 4,
    ensures
        ({
            let b = arp_bytes(op, smac, sip, tmac, tip);
            &&& arp_accepts(b)
            &&& be16_of(b[6], b[7]) == op
            &&& b.subrange(8, 14) == smac
            &&& b.subrange(14, 18) == sip
            &&& b.subrange(18, 24) == tmac
            &&& b.subrange(24, 28) == tip
        }),
{
    let b = arp_bytes(op, smac, sip, tmac, tip);
    assert(b.subrange(8, 14) =~= smac);
    assert(b.subrange(14, 18) =~= sip);
    assert(b.subrange(18, 24) =~= tmac);
    assert(b.subrange(24, 28) =~= tip);
    assert(b[6] == be16(op)[0] && b[7] == be16(op)[1]);
}

} // verus!
