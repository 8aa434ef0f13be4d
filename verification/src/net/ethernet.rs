//! Ethernet II frames.
use vstd::prelude::*;
use crate::bytes::{be16, be16_of, u16_from_be, copy_into, bytes_eq};

verus! {

pub const ETH_TYPE_IPV4: u16 = 0x0800;
pub const ETH_TYPE_ARP: u16 = 0x0806;
pub const ETH_TYPE_IPV6: u16 = 0x86DD;
pub const ETH_MAC_LEN: usize = 6;

/// A parsed Ethernet frame; the payload borrows from the received bytes.
#[derive(Clone, Copy, Debug)]
pub struct EthFrame<'a> {
    pub dst: [u8; 6],
    pub src: [u8; 6],
    pub ethertype: u16,
    pub payload: &'a [u8],
}

/// The bytes of a frame: destination, source, big-endian type, payload.
pub open spec fn eth_frame_bytes(dst: Seq<u8>, src: Seq<u8>, ethertype: u16, payload: Seq<u8>) -> Seq<u8> {
    dst + src + be16(ethertype) + payload
}

/// What a frame parses to: `None` when shorter than the 14-byte header,
/// else destination, source, type and payload.
pub open spec fn eth_parse(b: Seq<u8>) -> Option<(Seq<u8>, Seq<u8>, u16, Seq<u8>)> {
    if b.len() < 14 {
        None
    } else {
        Some((b.subrange(0, 6), b.subrange(6, 12), be16_of(b[12], b[13]), b.subrange(14, b.len() as int)))
    }
}

/// The broadcast hardware address.
pub open spec fn broadcast_mac() -> Seq<u8> {
    seq![0xFFu8, 0xFF, 0xFF, 0xFF, 0xFF, 0xFF]
}

impl<'a> EthFrame<'a> {
    /// Split a received frame into its header fields and payload.
    pub fn parse(bytes: &'a [u8]) -> (r: Option<Self>)
        ensures
            match eth_parse(bytes@) {
                None => r is None,
                Some((d, s, t, p)) => r matches Some(f) && f.dst@ == d && f.src@ == s
                    && f.ethertype == t && f.payload@ == p,
            },
    {
        if bytes.len() < 14 {
            return None;
        }
        let dst = [bytes[0], bytes[1], bytes[2], bytes[3], bytes[4], bytes[5]];
        let src = [bytes[6], bytes[7], bytes[8], bytes[9], bytes[10], bytes[11]];
        let ethertype = u16_from_be(bytes[12], bytes[13]);
        let payload = vstd::slice::slice_subrange(bytes, 14, bytes.len());
        assert(dst@ =~= bytes@.subrange(0, 6));
        assert(src@ =~= bytes@.subrange(6, 12));
        Some(EthFrame { dst, src, ethertype, payload })
    }

    /// Write a frame into `buf`; returns its length.
    pub fn compose(buf: &mut [u8], dst: &[u8; 6], src: &[u8; 6], ethertype: u16, payload: &[u8]) -> (n: usize)
        requires
            14 + payload@.len() <= old(buf)@.len(),
        ensures
            n == 14 + payload@.len(),
            final(buf)@.len() == old(buf)@.len(),
            final(buf)@.subrange(0, n as int) == eth_frame_bytes(dst@, src@, ethertype, payload@),
            final(buf)@.skip(n as int) == old(buf)@.skip(n as int),
    {
        let ghost b0 = buf@;
        let blen = buf.len();
        let n = 14 + payload.len();
        copy_into(buf, 0, dst.as_slice());
        copy_into(buf, 6, src.as_slice());
        let t = [(ethertype / 256) as u8, (ethertype % 256) as u8];
        copy_into(buf, 12, t.as_slice());
        copy_into(buf, 14, payload);
        assert(t@ =~= be16(ethertype));
        assert(buf@.subrange(0, n as int) =~= eth_frame_bytes(dst@, src@, ethertype, payload@));
        assert(buf@.skip(n as int) =~= b0.skip(n as int));
        n
    }

    /// Whether the frame is addressed to `mac`.
    pub fn is_for_me(&self, mac: &[u8; 6]) -> (r: bool)
        ensures
            r == (self.dst@ == mac@),
    {
        bytes_eq(self.dst.as_slice(), mac.as_slice())
    }

    /// Whether the frame is addressed to everybody.
    pub fn is_broadcast(&self) -> (r: bool)
        ensures
            r == (self.dst@ == broadcast_mac()),
    {
        let b = [0xFFu8, 0xFF, 0xFF, 0xFF, 0xFF, 0xFF];
        assert(b@ =~= broadcast_mac());
        bytes_eq(self.dst.as_slice(), b.as_slice())
    }
}

/// Parsing a composed frame gives back the fields it was composed from.
pub proof fn lemma_eth_roundtrip(dst: Seq<u8>, src: Seq<u8>, ethertype: u16, payload: Seq<u8>)
    requires
        dst.len() == 6,
        src.len() == 6,
    ensures
        eth_parse(eth_frame_bytes(dst, src, ethertype, payload)) == Some((dst, src, ethertype, payload)),
{
    let b = eth_frame_bytes(dst, src, ethertype, payload);
    assert(b.subrange(0, 6) =~= dst);
    assert(b.subrange(6, 12) =~= src);
    assert(b.subrange(14, b.len() as int) =~= payload);
    assert(b[12] == be16(ethertype)[0] && b[13] == be16(ethertype)[1]);
}

} // verus!
