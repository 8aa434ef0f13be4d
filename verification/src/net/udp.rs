//! UDP sockets and datagrams.
use vstd::prelude::*;
use crate::bytes::{be16, be16_of, u16_from_be, push_be16, push_all};
use crate::net::ip::IpAddr;

verus! {

pub const MAX_UDP_PAYLOAD: usize = 1472;

/// A bound UDP socket holding at most one received datagram.
#[derive(Copy, Clone)]
pub struct UdpSocket {
    pub local_port: u16,
    pub remote_port: u16,
    pub remote_ip: IpAddr,
    pub recv_buf: [u8; 1472],
    pub recv_len: usize,
}

impl UdpSocket {
    /// The received bytes not yet read.
    pub open spec fn pending(&self) -> Seq<u8> {
        self.recv_buf@.take(self.recv_len as int)
    }

    /// A socket bound to `port` with nothing received.
    pub fn new(port: u16) -> (s: Self)
        ensures
            s.local_port == port,
            s.remote_port == 0,
            s.remote_ip.0@ == seq![0u8, 0u8, 0u8, 0u8],
            s.recv_len == 0,
    {
        UdpSocket {
            local_port: port,
            remote_port: 0,
            remote_ip: IpAddr::default(),
            recv_buf: [0; 1472],
            recv_len: 0,
        }
    }

    /// Take in a datagram from `src`: remember the sender and keep the first
    /// `MAX_UDP_PAYLOAD` bytes of its payload, replacing what was pending.
    pub fn handle_pkt(&mut self, pkt: UdpPacket<'_>, src: IpAddr)
        ensures
            final(self).local_port == old(self).local_port,
            final(self).remote_ip == src,
            final(self).remote_port == pkt.src_port,
            final(self).recv_len == if pkt.payload@.len() < 1472 { pkt.payload@.len() } else { 1472 },
            final(self).pending() == pkt.payload@.take(final(self).recv_len as int),
    {
        self.remote_ip = src;
        self.remote_port = pkt.src_port;
        let n = if pkt.payload.len() < MAX_UDP_PAYLOAD { pkt.payload.len() } else { MAX_UDP_PAYLOAD };
        let mut i: usize = 0;
        while i < n
            invariant
                i <= n,
                n <= 1472,
                n <= pkt.payload@.len(),
                self.local_port == old(self).local_port,
                self.remote_ip == src,
                self.remote_port == pkt.src_port,
                forall|k: int| 0 <= k < i ==> self.recv_buf@[k] == pkt.payload@[k],
            decreases n - i,
        {
            self.recv_buf[i] = pkt.payload[i];
            i = i + 1;
        }
        self.recv_len = n;
        assert(self.pending() =~= pkt.payload@.take(n as int));
    }

    /// Copy the pending datagram into `buf` (truncated to its length) and
    /// clear it; `Err` when nothing is pending.
    pub fn recv(&mut self, buf: &mut [u8]) -> (r: Result<usize, ()>)
        requires
            old(self).recv_len <= 1472,
        ensures
            old(self).recv_len == 0 ==> r is Err && *final(self) == *old(self) && final(buf)@
                == old(buf)@,
            old(self).recv_len > 0 ==> {
                let n = if old(self).recv_len < old(buf)@.len() { old(self).recv_len as int } else {
                    old(buf)@.len() as int };
                &&& r == Ok::<usize, ()>(n as usize)
                &&& final(buf)@ == old(self).pending().take(n) + old(buf)@.skip(n)
                &&& final(self).recv_len == 0
                &&& final(self).local_port == old(self).local_port
                &&& final(self).remote_port == old(self).remote_port
                &&& final(self).remote_ip == old(self).remote_ip
            },
    {
        if self.recv_len == 0 {
            return Err(());
        }
        let n = if self.recv_len < buf.len() { self.recv_len } else { buf.len() };
        let ghost b0 = buf@;
        let mut i: usize = 0;
        while i < n
            invariant
                i <= n,
                n <= self.recv_len,
                self.recv_len <= 1472,
                n <= b0.len(),
                buf@.len() == b0.len(),
                forall|k: int| 0 <= k < i ==> buf@[k] == self.recv_buf@[k],
                forall|k: int| n <= k < b0.len() ==> buf@[k] == b0[k],
            decreases n - i,
        {
            buf[i] = self.recv_buf[i];
            i = i + 1;
        }
        self.recv_len = 0;
        assert(buf@ =~= old(self).pending().take(n as int) + b0.skip(n as int));
        Ok(n)
    }
}

/// A UDP datagram; the payload borrows from the received bytes.
pub struct UdpPacket<'a> {
    pub src_port: u16,
    pub dst_port: u16,
    pub length: u16,
    pub checksum: u16,
    pub payload: &'a [u8],
}

/// The wire bytes of a datagram.
pub open spec fn udp_bytes(src_port: u16, dst_port: u16, length: u16, checksum: u16, payload: Seq<u8>) -> Seq<u8> {
    be16(src_port) + be16(dst_port) + be16(length) + be16(checksum) + payload
}

impl<'a> UdpPacket<'a> {
    /// Parse a datagram; `None` when shorter than the 8-byte header.
    pub fn parse(bytes: &'a [u8]) -> (r: Option<Self>)
        ensures
            r is Some == (bytes@.len() >= 8),
            r matches Some(p) ==> p.src_port == be16_of(bytes@[0], bytes@[1]) && p.dst_port
                == be16_of(bytes@[2], bytes@[3]) && p.length == be16_of(bytes@[4], bytes@[5])
                && p.checksum == be16_of(bytes@[6], bytes@[7]) && p.payload@ == bytes@.subrange(
                8,
                bytes@.len() as int,
            ),
    {
        if bytes.len() < 8 {
            return None;
        }
        Some(UdpPacket {
            src_port: u16_from_be(bytes[0], bytes[1]),
            dst_port: u16_from_be(bytes[2], bytes[3]),
            length: u16_from_be(bytes[4], bytes[5]),
            checksum: u16_from_be(bytes[6], bytes[7]),
            payload: vstd::slice::slice_subrange(bytes, 8, bytes.len()),
        })
    }

    /// A datagram with length `8 + payload.len()` and a zero checksum.
    pub fn new(src_port: u16, dst_port: u16, payload: &'a [u8]) -> (p: Self)
        requires
            (payload@.len() as u16) + 8 <= u16::MAX,
        ensures
            p.src_port == src_port && p.dst_port == dst_port && p.checksum == 0,
            p.length == 8 + (payload@.len() as u16),
            p.payload@ == payload@,
    {
        let length = 8 + payload.len() as u16;
        UdpPacket { src_port, dst_port, length, checksum: 0, payload }
    }

    /// The datagram's wire bytes.
    pub fn to_bytes(&self) -> (v: Vec<u8>)
        ensures
            v@ == udp_bytes(self.src_port, self.dst_port, self.length, self.checksum, self.payload@),
    {
        let mut v: Vec<u8> = Vec::new();
        push_be16(&mut v, self.src_port);
        push_be16(&mut v, self.dst_port);
        push_be16(&mut v, self.length);
        push_be16(&mut v, self.checksum);
        push_all(&mut v, self.payload);
        v
    }
}

/// Parsing serialised datagram bytes gives back the header fields and the
/// payload.
pub proof fn lemma_udp_roundtrip(src_port: u16, dst_port: u16, length: u16, checksum: u16, payload: Seq<u8>)
    ensures
        ({
            let b = udp_bytes(src_port, dst_port, length, checksum, payload);
            &&& b.len() >= 8
            &&& be16_of(b[0], b[1]) == src_port && be16_of(b[2], b[3]) == dst_port
            &&& be16_of(b[4], b[5]) == length && be16_of(b[6], b[7]) == checksum
            &&& b.subrange(8, b.len() as int) == payload
        }),
{
    let b = udp_bytes(src_port, dst_port, length, checksum, payload);
    assert(b.subrange(8, b.len() as int) =~= payload);
}

} // verus!
