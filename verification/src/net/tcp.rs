//! TCP socket state machine and segment building.
use vstd::prelude::*;
use crate::bytes::{be16, be16_of, be32, be32_at, u16_from_be, u32_from_be, push_be16, push_be32, push_all};
use crate::net::ip::{IpAddr, word_sum, fold_carries, add_words, fold_complement, lemma_word_sum_concat, lemma_word_sum_be16, lemma_checksum_closes};

verus! {

pub const MAX_TCP_PAYLOAD: usize = 1460;
pub const TCP_FIN: u8 = 0x01;
pub const TCP_SYN: u8 = 0x02;
pub const TCP_RST: u8 = 0x04;
pub const TCP_PSH: u8 = 0x08;
pub const TCP_ACK: u8 = 0x10;

#[derive(Clone, Copy, Debug, PartialEq, Eq, Structural)]
pub enum TcpState {
    Closed,
    Listen,
    SynSent,
    SynRecv,
    Established,
    FinWait1,
    FinWait2,
    CloseWait,
    Closing,
    LastAck,
    TimeWait,
}

/// A TCP connection endpoint.
#[derive(Copy, Clone)]
pub struct TcpSocket {
    pub local_port: u16,
    pub remote_port: u16,
    pub remote_ip: IpAddr,
    pub state: TcpState,
    pub seq: u32,
    pub ack: u32,
    pub last_seq: u32,
    pub last_ack: u32,
    pub recv_buf: [u8; 1460],
    pub recv_len: usize,
}

/// A segment that the stack should transmit in answer to an incoming one.
pub struct TcpReply {
    pub flags: u8,
    pub seq: u32,
    pub ack: u32,
}

/// The abstract state of a socket: addresses, connection state, sequence
/// numbers and the received bytes not yet read.
pub struct TcpView {
    pub local_port: u16,
    pub remote_port: u16,
    pub remote_ip: Seq<u8>,
    pub state: TcpState,
    pub seq: u32,
    pub ack: u32,
    pub last_seq: u32,
    pub last_ack: u32,
    pub data: Seq<u8>,
    pub buf: Seq<u8>,
}

impl View for TcpSocket {
    type V = TcpView;

    open spec fn view(&self) -> TcpView {
        TcpView {
            local_port: self.local_port,
            remote_port: self.remote_port,
            remote_ip: self.remote_ip.0@,
            state: self.state,
            seq: self.seq,
            ack: self.ack,
            last_seq: self.last_seq,
            last_ack: self.last_ack,
            data: self.recv_buf@.take(self.recv_len as int),
            buf: self.recv_buf@,
        }
    }
}

pub open spec fn wadd(a: u32, b: u32) -> u32 {
    vstd::wrapping::u32_specs::wrapping_add(a, b)
}

pub open spec fn has_flag(flags: u8, f: u8) -> bool {
    flags & f != 0
}

/// An incoming segment as the state machine sees it.
pub struct SegView {
    pub flags: u8,
    pub seq: u32,
    pub ack_no: u32,
    pub src_port: u16,
    pub payload: Seq<u8>,
}

/// The reply `(flags, seq, ack)` a socket sends after updating to `s`.
pub open spec fn reply(flags: u8, s: TcpView) -> Option<(u8, u32, u32)> {
    Some((flags, s.seq, s.ack))
}

/// How a socket reacts to a segment from `src`: its new state and the reply
/// segment, if one is owed. A reset always closes; otherwise the reaction
/// depends on the connection state (passive and active open, data transfer,
/// and the closing handshakes).
pub open spec fn tcp_react(s: TcpView, g: SegView, src: Seq<u8>) -> (TcpView, Option<(u8, u32, u32)>) {
    let s = TcpView { last_seq: g.seq, last_ack: g.ack_no, ..s };
    let syn = has_flag(g.flags, TCP_SYN);
    let ack = has_flag(g.flags, TCP_ACK);
    let fin = has_flag(g.flags, TCP_FIN);
    if has_flag(g.flags, TCP_RST) {
        (TcpView { state: TcpState::Closed, ..s }, None)
    } else {
        match s.state {
            TcpState::Listen => if syn && !ack {
                let t = TcpView { remote_ip: src, remote_port: g.src_port, ack: wadd(g.seq, 1),
                    state: TcpState::SynRecv, ..s };
                (t, reply(TCP_SYN | TCP_ACK, t))
            } else {
                (s, None)
            },
            TcpState::SynSent => if syn && ack {
                let t = TcpView { seq: g.ack_no, ack: wadd(g.seq, 1), state: TcpState::Established, ..s };
                (t, reply(TCP_ACK, t))
            } else if syn {
                let t = TcpView { remote_ip: src, remote_port: g.src_port, ack: wadd(g.seq, 1),
                    state: TcpState::SynRecv, ..s };
                (t, reply(TCP_SYN | TCP_ACK, t))
            } else {
                (s, None)
            },
            TcpState::SynRecv => if ack {
                (TcpView { seq: wadd(s.seq, 1), state: TcpState::Established, ..s }, None)
            } else {
                (s, None)
            },
            TcpState::Established => if fin {
                let t = TcpView { ack: wadd(g.seq, 1), state: TcpState::CloseWait, ..s };
                (t, reply(TCP_ACK, t))
            } else if g.payload.len() > 0 {
                let room = 1460 - s.data.len();
                let n = if g.payload.len() < room { g.payload.len() as int } else { room };
                let t = TcpView { data: s.data + g.payload.take(n), buf: s.buf.take(s.data.len() as int)
                    + g.payload.take(n) + s.buf.skip(s.data.len() + n), ack: wadd(g.seq,
                    g.payload.len() as u32), ..s };
                (t, reply(TCP_ACK, t))
            } else {
                (s, None)
            },
            TcpState::FinWait1 => if fin && ack {
                let t = TcpView { ack: wadd(g.seq, 1), state: TcpState::Closed, ..s };
                (t, reply(TCP_ACK, t))
            } else if fin {
                let t = TcpView { ack: wadd(g.seq, 1), state: TcpState::Closing, ..s };
                (t, reply(TCP_ACK, t))
            } else if ack {
                (TcpView { state: TcpState::FinWait2, ..s }, None)
            } else {
                (s, None)
            },
            TcpState::FinWait2 => if fin {
                let t = TcpView { ack: wadd(g.seq, 1), state: TcpState::Closed, ..s };
                (t, reply(TCP_ACK, t))
            } else {
                (s, None)
            },
            TcpState::Closing => if ack {
                (TcpView { state: TcpState::Closed, ..s }, None)
            } else {
                (s, None)
            },
            _ => (s, None),
        }
    }
}

/// The segment summary of a parsed packet.
pub open spec fn seg_of(p: TcpPacket) -> SegView {
    SegView { flags: p.flags, seq: p.seq, ack_no: p.ack_no, src_port: p.src_port, payload: p.payload@ }
}

/// The reply triple of a reply.
pub open spec fn reply_view(r: Option<TcpReply>) -> Option<(u8, u32, u32)> {
    match r {
        Some(t) => Some((t.flags, t.seq, t.ack)),
        None => None,
    }
}

impl TcpSocket {
    /// Well-formed: the pending data fits in the receive buffer.
    pub open spec fn wf(&self) -> bool {
        self.recv_len <= 1460
    }

    /// The view of a fresh listening socket.
    pub open spec fn listen_view(port: u16) -> TcpView {
        TcpView { local_port: port, remote_port: 0, remote_ip: seq![0u8, 0u8, 0u8, 0u8],
            state: TcpState::Listen, seq: 1, ack: 0, last_seq: 0, last_ack: 0, data: Seq::empty(), buf:
            Seq::new(1460, |i: int| 0u8) }
    }

    /// The view of a fresh connecting socket.
    pub open spec fn connect_view(local_port: u16) -> TcpView {
        TcpView { local_port, remote_port: 0, remote_ip: seq![0u8, 0u8, 0u8, 0u8],
            state: TcpState::SynSent, seq: 1000, ack: 0, last_seq: 0, last_ack: 0, data: Seq::empty(), buf:
            Seq::new(1460, |i: int| 0u8) }
    }

    /// A passive-open socket on `port` (initial sequence number 1).
    pub fn listen(port: u16) -> (s: Self)
        ensures
            s.wf(),
            s@ == TcpSocket::listen_view(port),
    {
        let s = TcpSocket {
            local_port: port,
            remote_port: 0,
            remote_ip: IpAddr::default(),
            state: TcpState::Listen,
            seq: 1,
            ack: 0,
            last_seq: 0,
            last_ack: 0,
            recv_buf: [0; 1460],
            recv_len: 0,
        };
        assert(s@.data =~= Seq::<u8>::empty());
        assert(s@.buf =~= Seq::new(1460, |i: int| 0u8));
        s
    }

    /// An active-open socket from `local_port` (initial sequence number 1000).
    pub fn connect(local_port: u16) -> (s: Self)
        ensures
            s.wf(),
            s@ == TcpSocket::connect_view(local_port),
    {
        let s = TcpSocket {
            local_port,
            remote_port: 0,
            remote_ip: IpAddr::default(),
            state: TcpState::SynSent,
            seq: 1000,
            ack: 0,
            last_seq: 0,
            last_ack: 0,
            recv_buf: [0; 1460],
            recv_len: 0,
        };
        assert(s@.data =~= Seq::<u8>::empty());
        assert(s@.buf =~= Seq::new(1460, |i: int| 0u8));
        s
    }

    /// Process an incoming segment; returns the segment to send in answer,
    /// if any.
    pub fn handle_pkt(&mut self, pkt: TcpPacket<'_>, src: IpAddr) -> (r: Option<TcpReply>)
        requires
            old(self).wf(),
        ensures
            final(self).wf(),
            (final(self)@, reply_view(r)) == tcp_react(old(self)@, seg_of(pkt), src.0@),
    {
        self.last_seq = pkt.seq;
        self.last_ack = pkt.ack_no;
        if pkt.rst() {
            self.state = TcpState::Closed;
            return None;
        }
        match self.state {
            TcpState::Listen => {
                if pkt.syn() && !pkt.ack() {
                    self.remote_ip = src;
                    self.remote_port = pkt.src_port;
                    self.ack = pkt.seq.wrapping_add(1);
                    self.state = TcpState::SynRecv;
                    return Some(TcpReply { flags: TCP_SYN | TCP_ACK, seq: self.seq, ack: self.ack });
                }
                None
            },
            TcpState::SynSent => {
                if pkt.syn() && pkt.ack() {
                    self.seq = pkt.ack_no;
                    self.ack = pkt.seq.wrapping_add(1);
                    self.state = TcpState::Established;
                    return Some(TcpReply { flags: TCP_ACK, seq: self.seq, ack: self.ack });
                } else if pkt.syn() {
                    self.remote_ip = src;
                    self.remote_port = pkt.src_port;
                    self.ack = pkt.seq.wrapping_add(1);
                    self.state = TcpState::SynRecv;
                    return Some(TcpReply { flags: TCP_SYN | TCP_ACK, seq: self.seq, ack: self.ack });
                }
                None
            },
            TcpState::SynRecv => {
                if pkt.ack() {
                    self.seq = self.seq.wrapping_add(1);
                    self.state = TcpState::Established;
                }
                None
            },
            TcpState::Established => {
                if pkt.fin() {
                    self.ack = pkt.seq.wrapping_add(1);
                    self.state = TcpState::CloseWait;
                    return Some(TcpReply { flags: TCP_ACK, seq: self.seq, ack: self.ack });
                }
                if pkt.payload.len() > 0 {
                    let room = MAX_TCP_PAYLOAD - self.recv_len;
                    let n = if pkt.payload.len() < room { pkt.payload.len() } else { room };
                    let start = self.recv_len;
                    let ghost d0 = self@.data;
                    let ghost b0 = self.recv_buf@;
                    let mut i: usize = 0;
                    while i < n
                        invariant
                            i <= n,
                            b0.len() == 1460,
                            self.recv_buf@.len() == 1460,
                            forall|k: int| 0 <= k < 1460 && !(start <= k < start + i) ==> self.recv_buf@[k] == b0[k],
                            start + n <= 1460,
                            n <= pkt.payload@.len(),
                            self.recv_len == start,
                            self.recv_buf@.take(start as int) == d0,
                            forall|k: int| 0 <= k < i ==> self.recv_buf@[start + k] == pkt.payload@[k],
                            self.local_port == old(self).local_port,
                            self.remote_port == old(self).remote_port,
                            self.remote_ip == old(self).remote_ip,
                            self.state == old(self).state,
                            self.seq == old(self).seq,
                            self.ack == old(self).ack,
                            self.last_seq == pkt.seq,
                            self.last_ack == pkt.ack_no,
                        decreases n - i,
                    {
                        let ghost before = self.recv_buf@;
                        self.recv_buf[start + i] = pkt.payload[i];
                        assert(self.recv_buf@.take(start as int) =~= before.take(start as int));
                        i = i + 1;
                    }
                    self.recv_len = start + n;
                    self.ack = pkt.seq.wrapping_add(pkt.payload.len() as u32);
                    assert(self@.data =~= d0 + pkt.payload@.take(n as int));
                    assert(self@.buf =~= b0.take(start as int) + pkt.payload@.take(n as int) + b0.skip(start + n));
                    return Some(TcpReply { flags: TCP_ACK, seq: self.seq, ack: self.ack });
                }
                None
            },
            TcpState::FinWait1 => {
                if pkt.fin() && pkt.ack() {
                    self.ack = pkt.seq.wrapping_add(1);
                    self.state = TcpState::Closed;
                    return Some(TcpReply { flags: TCP_ACK, seq: self.seq, ack: self.ack });
                } else if pkt.fin() {
                    self.ack = pkt.seq.wrapping_add(1);
                    self.state = TcpState::Closing;
                    return Some(TcpReply { flags: TCP_ACK, seq: self.seq, ack: self.ack });
                } else if pkt.ack() {
                    self.state = TcpState::FinWait2;
                }
                None
            },
            TcpState::FinWait2 => {
                if pkt.fin() {
                    self.ack = pkt.seq.wrapping_add(1);
                    self.state = TcpState::Closed;
                    return Some(TcpReply { flags: TCP_ACK, seq: self.seq, ack: self.ack });
                }
                None
            },
            TcpState::Closing => {
                if pkt.ack() {
                    self.state = TcpState::Closed;
                }
                None
            },
            _ => None,
        }
    }

    /// Copy the received bytes into `buf` (as many as fit) and discard all
    /// of them; `Err` when nothing has been received.
    pub fn recv(&mut self, buf: &mut [u8]) -> (r: Result<usize, ()>)
        requires
            old(self).wf(),
        ensures
            final(self).wf(),
            old(self).recv_len == 0 ==> r is Err && *final(self) == *old(self) && final(buf)@
                == old(buf)@,
            old(self).recv_len > 0 ==> {
                let n = if old(self).recv_len < old(buf)@.len() { old(self).recv_len as int } else {
                    old(buf)@.len() as int };
                &&& r == Ok::<usize, ()>(n as usize)
                &&& final(buf)@ == old(self)@.data.take(n) + old(buf)@.skip(n)
                &&& final(self)@ == TcpView { data: Seq::empty(), ..old(self)@ }
            },
    {
        if self.recv_len == 0 {
            return Err(());
        }
        let n = if self.recv_len < buf.len() { self.recv_len } else { buf.len() };
        let ghost b0 = buf@;
        let mut i: usize = 0;
        while i < n
            invariant
                i <= n,
                n <= self.recv_len,
                self.recv_len <= 1460,
                n <= b0.len(),
                buf@.len() == b0.len(),
                forall|k: int| 0 <= k < i ==> buf@[k] == self.recv_buf@[k],
                forall|k: int| n <= k < b0.len() ==> buf@[k] == b0[k],
            decreases n - i,
        {
            buf[i] = self.recv_buf[i];
            i = i + 1;
        }
        self.recv_len = 0;
        assert(buf@ =~= old(self)@.data.take(n as int) + b0.skip(n as int));
        assert(self@.data =~= Seq::<u8>::empty());
        Ok(n)
    }
}

/// A TCP segment; the payload borrows from the received bytes.
pub struct TcpPacket<'a> {
    pub src_port: u16,
    pub dst_port: u16,
    pub seq: u32,
    pub ack_no: u32,
    pub data_off: u8,
    pub flags: u8,
    pub window: u16,
    pub checksum: u16,
    pub payload: &'a [u8],
}

/// Header length in bytes announced by the data-offset byte.
pub open spec fn tcp_hdr_len(data_off: u8) -> nat {
    ((data_off / 16) * 4) as nat
}

/// Whether `b` is a segment this stack accepts: a header of at least 20
/// bytes that fits in `b`.
pub open spec fn tcp_accepts(b: Seq<u8>) -> bool {
    b.len() >= 20 && tcp_hdr_len(b[12]) >= 20 && tcp_hdr_len(b[12]) <= b.len()
}

impl<'a> TcpPacket<'a> {
    /// Parse a segment; `None` unless `tcp_accepts`.
    pub fn parse(bytes: &'a [u8]) -> (r: Option<Self>)
        ensures
            r is Some == tcp_accepts(bytes@),
            r matches Some(p) ==> {
                &&& p.src_port == be16_of(bytes@[0], bytes@[1])
                &&& p.dst_port == be16_of(bytes@[2], bytes@[3])
                &&& p.seq == be32_at(bytes@, 4)
                &&& p.ack_no == be32_at(bytes@, 8)
                &&& p.data_off == bytes@[12]
                &&& p.flags == bytes@[13]
                &&& p.window == be16_of(bytes@[14], bytes@[15])
                &&& p.checksum == be16_of(bytes@[16], bytes@[17])
                &&& p.payload@ == bytes@.subrange(tcp_hdr_len(bytes@[12]) as int, bytes@.len() as int)
            },
    {
        if bytes.len() < 20 {
            return None;
        }
        let data_off = bytes[12];
        let hdr_len = ((data_off / 16) as usize) * 4;
        if hdr_len < 20 || hdr_len > bytes.len() {
            return None;
        }
        Some(TcpPacket {
            src_port: u16_from_be(bytes[0], bytes[1]),
            dst_port: u16_from_be(bytes[2], bytes[3]),
            seq: u32_from_be(bytes, 4),
            ack_no: u32_from_be(bytes, 8),
            data_off,
            flags: bytes[13],
            window: u16_from_be(bytes[14], bytes[15]),
            checksum: u16_from_be(bytes[16], bytes[17]),
            payload: vstd::slice::slice_subrange(bytes, hdr_len, bytes.len()),
        })
    }

    pub fn syn(&self) -> (r: bool)
        ensures
            r == has_flag(self.flags, TCP_SYN),
    {
        self.flags & TCP_SYN != 0
    }

    pub fn ack(&self) -> (r: bool)
        ensures
            r == has_flag(self.flags, TCP_ACK),
    {
        self.flags & TCP_ACK != 0
    }

    pub fn fin(&self) -> (r: bool)
        ensures
            r == has_flag(self.flags, TCP_FIN),
    {
        self.flags & TCP_FIN != 0
    }

    pub fn rst(&self) -> (r: bool)
        ensures
            r == has_flag(self.flags, TCP_RST),
    {
        self.flags & TCP_RST != 0
    }

    pub fn psh(&self) -> (r: bool)
        ensures
            r == has_flag(self.flags, TCP_PSH),
    {
        self.flags & TCP_PSH != 0
    }
}


/// A TCP segment with checksum field `ck`: 20-byte header (data offset 5,
/// urgent pointer 0) followed by the payload.
pub open spec fn tcp_segment(src_port: u16, dst_port: u16, seq: u32, ack: u32, flags: u8, window: u16, ck: u16, payload: Seq<u8>) -> Seq<u8> {
    be16(src_port) + be16(dst_port) + be32(seq) + be32(ack) + seq![0x50u8, flags] + be16(window) + be16(ck)
        + be16(0) + payload
}

/// The pseudo-header words: both addresses, the protocol number and the
/// segment length (as a 32-bit count).
pub open spec fn pseudo_sum(src: Seq<u8>, dst: Seq<u8>, seg_len: nat) -> nat {
    (src[0] as nat * 256 + src[1] as nat) + (src[2] as nat * 256 + src[3] as nat) + (dst[0] as nat
        * 256 + dst[1] as nat) + (dst[2] as nat * 256 + dst[3] as nat) + 6 + (seg_len as u32) as nat
}

/// The checksum over pseudo-header and segment.
pub open spec fn tcp_checksum(src: Seq<u8>, dst: Seq<u8>, seg: Seq<u8>) -> u16 {
    !(fold_carries((pseudo_sum(src, dst, seg.len()) + word_sum(seg)) as u32) as u16)
}

/// Build a complete TCP segment (header + payload) with its checksum.
pub fn make_tcp_packet(src_port: u16, dst_port: u16, seq: u32, ack: u32, flags: u8, window: u16, payload: &[u8], src_ip: &IpAddr, dst_ip: &IpAddr) -> (v: Vec<u8>)
    requires
        pseudo_sum(src_ip.0@, dst_ip.0@, 20 + payload@.len()) + word_sum(tcp_segment(src_port,
            dst_port, seq, ack, flags, window, 0, payload@)) <= u32::MAX,
    ensures
        v@ == tcp_segment(src_port, dst_port, seq, ack, flags, window, tcp_checksum(src_ip.0@,
            dst_ip.0@, tcp_segment(src_port, dst_port, seq, ack, flags, window, 0, payload@)), payload@),
{
    let mut v: Vec<u8> = Vec::new();
    push_be16(&mut v, src_port);
    push_be16(&mut v, dst_port);
    push_be32(&mut v, seq);
    push_be32(&mut v, ack);
    v.push(0x50);
    v.push(flags);
    push_be16(&mut v, window);
    push_be16(&mut v, 0);
    push_be16(&mut v, 0);
    push_all(&mut v, payload);
    let ghost seg0 = tcp_segment(src_port, dst_port, seq, ack, flags, window, 0, payload@);
    assert(v@ =~= seg0);
    let s = src_ip.0;
    let d = dst_ip.0;
    let mut sum: u32 = 0;
    sum = sum + (((s[0] as u32) * 256) + s[1] as u32);
    sum = sum + (((s[2] as u32) * 256) + s[3] as u32);
    sum = sum + (((d[0] as u32) * 256) + d[1] as u32);
    sum = sum + (((d[2] as u32) * 256) + d[3] as u32);
    sum = sum + 6;
    sum = sum + v.len() as u32;
    let sum = add_words(sum, v.as_slice());
    let cksum = fold_complement(sum);
    v.set(16, (cksum / 256) as u8);
    v.set(17, (cksum % 256) as u8);
    assert(v@ =~= tcp_segment(src_port, dst_port, seq, ack, flags, window, cksum, payload@));
    v
}

/// Parsing a built segment gives back its header fields and payload.
pub proof fn lemma_tcp_roundtrip(src_port: u16, dst_port: u16, seq: u32, ack: u32, flags: u8, window: u16, ck: u16, payload: Seq<u8>)
    ensures
        ({
            let b = tcp_segment(src_port, dst_port, seq, ack, flags, window, ck, payload);
            &&& tcp_accepts(b)
            &&& be16_of(b[0], b[1]) == src_port && be16_of(b[2], b[3]) == dst_port
            &&& be32_at(b, 4) == seq && be32_at(b, 8) == ack
            &&& b[13] == flags && be16_of(b[14], b[15]) == window && be16_of(b[16], b[17]) == ck
            &&& b.subrange(tcp_hdr_len(b[12]) as int, b.len() as int) == payload
        }),
{
    let b = tcp_segment(src_port, dst_port, seq, ack, flags, window, ck, payload);
    let h = be16(src_port) + be16(dst_port) + be32(seq) + be32(ack) + seq![0x50u8, flags] + be16(
        window) + be16(ck) + be16(0);
    assert(b =~= h + payload);
    assert(h.len() == 20);
    assert(b.subrange(20, b.len() as int) =~= payload);
    let s1 = be32(seq);
    let a1 = be32(ack);
    assert(b[4] == s1[0] && b[5] == s1[1] && b[6] == s1[2] && b[7] == s1[3]);
    assert(b[8] == a1[0] && b[9] == a1[1] && b[10] == a1[2] && b[11] == a1[3]);
    crate::bytes::lemma_be32_roundtrip(seq);
    crate::bytes::lemma_be32_roundtrip(ack);
    assert(be32_at(b, 4) == be32_at(s1, 0));
    assert(be32_at(b, 8) == be32_at(a1, 0));
    assert(b[12] == 0x50u8);
    assert(tcp_hdr_len(0x50u8) == 20);
}


/// A segment carrying the checksum `make_tcp_packet` stores in it checks
/// out: its checksum over pseudo-header and segment is 0 (given that the
/// sums fit the 32-bit accumulator).
pub proof fn lemma_tcp_checksum_verifies(src: Seq<u8>, dst: Seq<u8>, src_port: u16, dst_port: u16, seq: u32, ack: u32, flags: u8, window: u16, payload: Seq<u8>)
    requires
        pseudo_sum(src, dst, 20 + payload.len()) + word_sum(tcp_segment(src_port, dst_port, seq, ack, flags,
            window, 0, payload)) + 0xFFFF <= u32::MAX,
    ensures
        tcp_checksum(src, dst, tcp_segment(src_port, dst_port, seq, ack, flags, window, tcp_checksum(src, dst,
            tcp_segment(src_port, dst_port, seq, ack, flags, window, 0, payload)), payload)) == 0,
{
    let a = be16(src_port) + be16(dst_port) + be32(seq) + be32(ack) + seq![0x50u8, flags] + be16(window);
    let r = be16(0) + payload;
    assert forall|ck: u16| #[trigger] tcp_segment(src_port, dst_port, seq, ack, flags, window, ck, payload) == a + (
    be16(ck) + r) by {
        assert(tcp_segment(src_port, dst_port, seq, ack, flags, window, ck, payload) =~= a + (be16(ck) + r));
    }
    let ps = pseudo_sum(src, dst, 20 + payload.len());
    let b = ps + word_sum(a) + word_sum(r);
    assert forall|ck: u16| #[trigger] word_sum(tcp_segment(src_port, dst_port, seq, ack, flags, window, ck,
        payload)) == word_sum(a) + word_sum(r) + ck && tcp_segment(src_port, dst_port, seq, ack, flags, window, ck,
        payload).len() == 20 + payload.len() by {
        lemma_word_sum_concat(a, be16(ck) + r);
        lemma_word_sum_concat(be16(ck), r);
        lemma_word_sum_be16(ck);
    }
    let s0 = tcp_segment(src_port, dst_port, seq, ack, flags, window, 0, payload);
    assert(word_sum(s0) == word_sum(a) + word_sum(r) + 0);
    lemma_checksum_closes(b);
}
} // verus!
