//! The network stack: dispatch of received frames through ARP, IPv4, ICMP,
//! TCP, UDP and DHCP, and the socket API offered to WASM modules. Frames to
//! transmit are queued in `outbox`; the driver sends them.
use vstd::prelude::*;
use crate::bytes::{be16, be16_of, be32_at, push_all, bytes_eq, copy_into};
use crate::net::arp::{ArpCache, ArpPacket, ARP_OP_REQUEST, ARP_OP_REPLY, arp_bytes, arp_lookup,
    arp_find, arp_free, arp_accepts, arp_inserted};
use crate::net::dhcp::{DhcpClient, DhcpState, DhcpAction, CLIENT_PORT, SERVER_PORT, MSG_DISCOVER,
    MSG_REQUEST, bootp_header, bootp_options, dhcp_handled};
use crate::net::ethernet::{EthFrame, ETH_TYPE_ARP, ETH_TYPE_IPV4, eth_frame_bytes, eth_parse,
    broadcast_mac};
use crate::net::ip::{IpAddr, le_value, ipv4_accepts, ihl_bytes, Ipv4Packet, IP_PROTO_ICMP, IP_PROTO_TCP, IP_PROTO_UDP, ipv4_header,
    internet_checksum, word_sum, lemma_word_sum_bound, ip_chksum};
use crate::net::tcp::{tcp_accepts, tcp_hdr_len, TcpSocket, TcpState, TcpPacket, TcpView, SegView, tcp_react, seg_of, TCP_SYN, TCP_ACK, TCP_FIN, TCP_PSH,
    MAX_TCP_PAYLOAD, make_tcp_packet, tcp_segment, tcp_checksum, pseudo_sum, wadd};
use crate::net::udp::{UdpSocket, UdpPacket, MAX_UDP_PAYLOAD, udp_bytes};

verus! {

pub const MAX_SOCKETS: usize = 8;

/// An opaque socket handle.
#[derive(Clone, Copy)]
pub struct NetworkHandle(usize);

impl View for NetworkHandle {
    type V = usize;

    closed spec fn view(&self) -> usize {
        self.0
    }
}

impl NetworkHandle {
    pub fn as_usize(self) -> (r: usize)
        ensures
            r == self@,
    {
        self.0
    }
}

/// Interface state, protocol state and sockets.
pub struct NetworkStack {
    pub mac: [u8; 6],
    pub ip: IpAddr,
    pub dhcp: DhcpClient,
    pub arp: ArpCache,
    pub tcp_sockets: [Option<TcpSocket>; 8],
    pub udp_sockets: [Option<UdpSocket>; 8],
    /// Frames waiting to be transmitted, oldest first.
    pub outbox: Vec<Vec<u8>>,
}

/// The frames in an outbox.
pub open spec fn frames_of(o: Seq<Vec<u8>>) -> Seq<Seq<u8>> {
    o.map_values(|f: Vec<u8>| f@)
}

/// Everything but the outbox is unchanged.
pub open spec fn same_state(a: NetworkStack, b: NetworkStack) -> bool {
    a.mac == b.mac && a.ip == b.ip && a.dhcp == b.dhcp && a.arp == b.arp && a.tcp_sockets
        == b.tcp_sockets && a.udp_sockets == b.udp_sockets
}

pub open spec fn zero_mac() -> Seq<u8> {
    seq![0u8, 0, 0, 0, 0, 0]
}

pub open spec fn bcast_ip() -> Seq<u8> {
    seq![255u8, 255, 255, 255]
}

/// The Ethernet frame that carries `payload` (an IPv4 datagram) to
/// `dst_ip`: broadcast for the broadcast address, to the cached MAC when
/// ARP knows one, else an ARP request for `dst_ip` in its place.
pub open spec fn ip_route(s: NetworkStack, dst_ip: Seq<u8>, payload: Seq<u8>) -> Seq<u8> {
    if dst_ip == bcast_ip() {
        eth_frame_bytes(broadcast_mac(), s.mac@, ETH_TYPE_IPV4, payload)
    } else {
        match arp_lookup(s.arp, dst_ip) {
            Some(m) => eth_frame_bytes(m@, s.mac@, ETH_TYPE_IPV4, payload),
            None => arp_request_frame(s, dst_ip),
        }
    }
}

/// The broadcast ARP request for `target`.
pub open spec fn arp_request_frame(s: NetworkStack, target: Seq<u8>) -> Seq<u8> {
    eth_frame_bytes(broadcast_mac(), s.mac@, ETH_TYPE_ARP, arp_bytes(ARP_OP_REQUEST, s.mac@, s.ip.0@,
        zero_mac(), target))
}

/// An IPv4 datagram as `Ipv4Packet::new(..).to_bytes()` builds it.
pub open spec fn ip_datagram(src: Seq<u8>, dst: Seq<u8>, proto: u8, payload: Seq<u8>) -> Seq<u8> {
    let tl = (20 + (payload.len() as u16)) as u16;
    ipv4_header(0x45, 0, tl, 0, 0, 64, proto, internet_checksum(ipv4_header(0x45, 0, tl, 0, 0, 64,
        proto, 0, src, dst)), src, dst) + payload
}

/// A TCP segment from this host as `make_tcp_packet` builds it.
pub open spec fn tcp_out(src: Seq<u8>, dst: Seq<u8>, lport: u16, rport: u16, seq: u32, ack: u32, flags: u8, payload: Seq<u8>) -> Seq<u8> {
    tcp_segment(lport, rport, seq, ack, flags, 65535, tcp_checksum(src, dst, tcp_segment(lport,
        rport, seq, ack, flags, 65535, 0, payload)), payload)
}

/// The frame carrying a TCP segment to `rip`.
pub open spec fn tcp_frame(s: NetworkStack, rip: Seq<u8>, lport: u16, rport: u16, seq: u32, ack: u32, flags: u8, payload: Seq<u8>) -> Seq<u8> {
    ip_route(s, rip, ip_datagram(s.ip.0@, rip, IP_PROTO_TCP, tcp_out(s.ip.0@, rip, lport, rport,
        seq, ack, flags, payload)))
}

impl NetworkStack {
    /// The frames queued for transmission.
    pub open spec fn frames(&self) -> Seq<Seq<u8>> {
        frames_of(self.outbox@)
    }

    /// Every socket's pending data fits its buffer.
    pub open spec fn wf(&self) -> bool {
        &&& forall|k: int| 0 <= k < 8 ==> (#[trigger] self.tcp_sockets@[k] matches Some(s) ==> s.wf())
        &&& forall|k: int| 0 <= k < 8 ==> (#[trigger] self.udp_sockets@[k] matches Some(u) ==> u.recv_len <= 1472)
    }

    /// A stack for the interface with address `mac`: no IP address yet, an
    /// idle DHCP client, an empty ARP cache, no sockets, nothing queued.
    pub fn new(mac: [u8; 6]) -> (s: Self)
        ensures
            s.wf(),
            s.mac == mac,
            s.ip.0@ == seq![0u8, 0, 0, 0],
            s.dhcp.state == DhcpState::Idle,
            forall|k: int| 0 <= k < 16 ==> !s.arp.valid@[k],
            forall|k: int| 0 <= k < 8 ==> s.tcp_sockets@[k] is None && s.udp_sockets@[k] is None,
            s.frames() == Seq::<Seq<u8>>::empty(),
    {
        let s = NetworkStack {
            mac,
            ip: IpAddr::default(),
            dhcp: DhcpClient::new(&mac),
            arp: ArpCache::new(),
            tcp_sockets: [None, None, None, None, None, None, None, None],
            udp_sockets: [None, None, None, None, None, None, None, None],
            outbox: Vec::new(),
        };
        assert(s.frames() =~= Seq::<Seq<u8>>::empty());
        s
    }

    /// Hand out the queued frames, oldest first, and empty the queue.
    pub fn take_outbox(&mut self) -> (out: Vec<Vec<u8>>)
        ensures
            frames_of(out@) == old(self).frames(),
            final(self).frames() == Seq::<Seq<u8>>::empty(),
            same_state(*final(self), *old(self)),
    {
        let mut out: Vec<Vec<u8>> = Vec::new();
        core::mem::swap(&mut out, &mut self.outbox);
        assert(self.frames() =~= Seq::<Seq<u8>>::empty());
        out
    }

    /// Queue an Ethernet frame from this interface.
    fn send_eth(&mut self, dst_mac: &[u8; 6], ethertype: u16, payload: &[u8])
        requires
            payload@.len() <= 1500,
        ensures
            same_state(*final(self), *old(self)),
            final(self).frames() == old(self).frames().push(eth_frame_bytes(dst_mac@, old(self).mac@,
                ethertype, payload@)),
    {
        let mut buf = vec![0u8; 1514];
        let mac = self.mac;
        let n = EthFrame::compose(buf.as_mut_slice(), dst_mac, &mac, ethertype, payload);
        buf.truncate(n);
        self.outbox.push(buf);
        assert(self.frames() =~= old(self).frames().push(eth_frame_bytes(dst_mac@, old(self).mac@,
            ethertype, payload@)));
    }

    /// Queue a broadcast ARP request for `target_ip`.
    fn send_arp_request(&mut self, target_ip: IpAddr)
        ensures
            same_state(*final(self), *old(self)),
            final(self).frames() == old(self).frames().push(arp_request_frame(*old(self), target_ip.0@)),
    {
        let req = ArpPacket {
            operation: ARP_OP_REQUEST,
            sender_mac: self.mac,
            sender_ip: self.ip.0,
            target_mac: [0u8; 6],
            target_ip: target_ip.0,
        };
        assert(req.target_mac@ =~= zero_mac());
        let broadcast = [0xFFu8; 6];
        assert(broadcast@ =~= broadcast_mac());
        let bytes = req.to_bytes();
        self.send_eth(&broadcast, ETH_TYPE_ARP, bytes.as_slice());
    }

    /// Queue an IPv4 datagram for `dst_ip` (see `ip_route`).
    fn send_ip(&mut self, dst_ip: IpAddr, ip_payload: &[u8])
        requires
            ip_payload@.len() <= 1500,
        ensures
            same_state(*final(self), *old(self)),
            final(self).frames() == old(self).frames().push(ip_route(*old(self), dst_ip.0@, ip_payload@)),
    {
        let bc = dst_ip.0[0] == 255 && dst_ip.0[1] == 255 && dst_ip.0[2] == 255 && dst_ip.0[3] == 255;
        assert(bc == (dst_ip.0@ == bcast_ip())) by {
            if bc {
                assert(dst_ip.0@ =~= bcast_ip());
            }
            if dst_ip.0@ == bcast_ip() {
                assert(dst_ip.0@[0] == 255 && dst_ip.0@[3] == 255);
            }
        }
        if bc {
            let broadcast = [0xFFu8; 6];
            assert(broadcast@ =~= broadcast_mac());
            self.send_eth(&broadcast, ETH_TYPE_IPV4, ip_payload);
            return;
        }
        match self.arp.lookup(dst_ip.0) {
            Some(mac) => self.send_eth(&mac, ETH_TYPE_IPV4, ip_payload),
            None => self.send_arp_request(dst_ip),
        }
    }

    /// Queue a TCP segment to `rip` (window 65535).
    fn send_tcp_seg(&mut self, lport: u16, rport: u16, rip: IpAddr, seq: u32, ack: u32, flags: u8, payload: &[u8])
        requires
            payload@.len() <= 1460,
        ensures
            same_state(*final(self), *old(self)),
            final(self).frames() == old(self).frames().push(tcp_frame(*old(self), rip.0@, lport,
                rport, seq, ack, flags, payload@)),
    {
        proof {
            let seg0 = tcp_segment(lport, rport, seq, ack, flags, 65535, 0, payload@);
            lemma_word_sum_bound(seg0);
        }
        let my_ip = self.ip;
        let seg = make_tcp_packet(lport, rport, seq, ack, flags, 65535, payload, &my_ip, &rip);
        let pkt = Ipv4Packet::new(my_ip, rip, IP_PROTO_TCP, seg.as_slice());
        let ip_bytes = pkt.to_bytes();
        self.send_ip(rip, ip_bytes.as_slice());
    }
}

/// The number reported for a socket slot: 0 closed or empty, 1 listening,
/// 2 handshaking, 3 established, 4 closing.
pub open spec fn tcp_status_of(slot: Option<TcpSocket>) -> i32 {
    match slot {
        None => 0,
        Some(s) => match s.state {
            TcpState::Closed => 0,
            TcpState::Listen => 1,
            TcpState::SynSent | TcpState::SynRecv => 2,
            TcpState::Established => 3,
            _ => 4,
        },
    }
}

/// Whether some TCP socket is bound to local port `p`.
pub open spec fn port_used(socks: Seq<Option<TcpSocket>>, p: int) -> bool {
    exists|k: int| 0 <= k < 8 && #[trigger] slot_port(socks, k) == p
}

/// The local port of socket slot `k`, or -1 for an empty slot.
pub open spec fn slot_port(socks: Seq<Option<TcpSocket>>, k: int) -> int {
    match socks[k] {
        Some(s) => s.local_port as int,
        None => -1,
    }
}

/// Eight sockets cannot occupy nine consecutive ports.
pub proof fn lemma_free_port_among_nine(socks: Seq<Option<TcpSocket>>, base: int)
    requires
        socks.len() == 8,
    ensures
        exists|p: int| base <= p < base + 9 && !port_used(socks, p),
{
    if forall|p: int| base <= p < base + 9 ==> port_used(socks, p) {
        let used = vstd::set_lib::set_int_range(0, 8).map(|k: int| slot_port(socks, k));
        vstd::set_lib::lemma_int_range(0, 8);
        vstd::set_lib::lemma_map_size_bound(vstd::set_lib::set_int_range(0, 8), used, |k: int|
            slot_port(socks, k));
        let cand = vstd::set_lib::set_int_range(base, base + 9);
        vstd::set_lib::lemma_int_range(base, base + 9);
        assert forall|p: int| cand.contains(p) implies used.contains(p) by {
            assert(port_used(socks, p));
            let k = choose|k: int| 0 <= k < 8 && #[trigger] slot_port(socks, k) == p;
            assert(vstd::set_lib::set_int_range(0, 8).contains(k));
            assert(slot_port(socks, k) == p);
        }
        vstd::set_lib::lemma_len_subset(cand, used);
        assert(false);
    }
}

/// An optional index as a mathematical integer.
pub open spec fn opt_int(r: Option<usize>) -> Option<int> {
    match r {
        Some(i) => Some(i as int),
        None => None,
    }
}

/// The index of the first empty slot.
pub open spec fn first_free<T>(slots: Seq<Option<T>>, from: int) -> Option<int>
    decreases 8 - from,
{
    if from < 0 || from >= 8 {
        None
    } else if slots[from] is None {
        Some(from)
    } else {
        first_free(slots, from + 1)
    }
}

pub proof fn lemma_first_free<T>(slots: Seq<Option<T>>, from: int)
    requires
        0 <= from <= 8,
    ensures
        match first_free(slots, from) {
            Some(i) => from <= i < 8 && slots[i] is None && forall|k: int| from <= k < i ==> #[trigger] slots[k] is Some,
            None => forall|k: int| from <= k < 8 ==> #[trigger] slots[k] is Some,
        },
    decreases 8 - from,
{
    if from < 8 {
        lemma_first_free(slots, from + 1);
    }
}

impl NetworkStack {
    /// The first port from 49152 up that no TCP socket is bound to.
    fn alloc_ephemeral_port(&self) -> (port: u16)
        ensures
            49152 <= port < 49161,
            !port_used(self.tcp_sockets@, port as int),
            forall|p: int| 49152 <= p < port ==> port_used(self.tcp_sockets@, p),
    {
        let mut port: u16 = 49152;
        proof {
            lemma_free_port_among_nine(self.tcp_sockets@, 49152);
        }
        loop
            invariant
                49152 <= port < 49161,
                forall|p: int| 49152 <= p < port ==> port_used(self.tcp_sockets@, p),
                exists|p: int| port <= p < 49161 && !port_used(self.tcp_sockets@, p),
            decreases 49161 - port,
        {
            let mut k: usize = 0;
            let mut hit = false;
            while k < MAX_SOCKETS
                invariant
                    k <= 8,
                    !hit ==> forall|j: int| 0 <= j < k ==> #[trigger] slot_port(self.tcp_sockets@, j) != port,
                    hit ==> port_used(self.tcp_sockets@, port as int),
                decreases 8 - k,
            {
                if let Some(s) = &self.tcp_sockets[k] {
                    if s.local_port == port {
                        hit = true;
                        assert(slot_port(self.tcp_sockets@, k as int) == port);
                    }
                }
                k = k + 1;
            }
            if !hit {
                return port;
            }
            port = port + 1;
        }
    }

    /// Open a listening socket on `port` in the first free slot.
    pub fn tcp_listen(&mut self, port: u16) -> (r: Option<usize>)
        requires
            old(self).wf(),
        ensures
            final(self).wf(),
            opt_int(r) == first_free(old(self).tcp_sockets@, 0),
            final(self).frames() == old(self).frames(),
            final(self).udp_sockets == old(self).udp_sockets,
            final(self).ip == old(self).ip && final(self).arp == old(self).arp && final(self).dhcp
                == old(self).dhcp && final(self).mac == old(self).mac,
            match r {
                Some(i) => final(self).tcp_sockets@[i as int] matches Some(s) && s.wf() && s@
                    == TcpSocket::listen_view(port) && forall|k: int| 0 <= k < 8 && k != i
                    ==> final(self).tcp_sockets@[k] == old(self).tcp_sockets@[k],
                None => final(self).tcp_sockets == old(self).tcp_sockets,
            },
    {
        proof {
            lemma_first_free(self.tcp_sockets@, 0);
        }
        let mut i: usize = 0;
        while i < MAX_SOCKETS
            invariant
                i <= 8,
                *self == *old(self),
                old(self).wf(),
                forall|k: int| 0 <= k < i ==> #[trigger] self.tcp_sockets@[k] is Some,
            decreases 8 - i,
        {
            if self.tcp_sockets[i].is_none() {
                proof {
                    lemma_first_free(self.tcp_sockets@, 0);
                    match first_free(self.tcp_sockets@, 0) {
                        Some(f) => {
                            if f < i {
                                assert(self.tcp_sockets@[f] is Some);
                            } else if f > i {
                                assert(self.tcp_sockets@[i as int] is Some);
                            }
                        },
                        None => {
                            assert(self.tcp_sockets@[i as int] is Some);
                        },
                    }
                }
                self.tcp_sockets[i] = Some(TcpSocket::listen(port));
                assert forall|k: int| 0 <= k < 8 implies (#[trigger] self.tcp_sockets@[k] matches Some(s)
                    ==> s.wf()) by {
                    if k != i {
                        assert(self.tcp_sockets@[k] == old(self).tcp_sockets@[k]);
                    }
                }
                return Some(i);
            }
            i = i + 1;
        }
        proof {
            lemma_first_free(self.tcp_sockets@, 0);
            if let Some(f) = first_free(self.tcp_sockets@, 0) {
                assert(self.tcp_sockets@[f] is Some);
            }
        }
        None
    }

    /// Open a connection to `dst_ip:dst_port` from an ephemeral port in the
    /// first free slot: queue the SYN when ARP knows the peer, else an ARP
    /// request (the SYN follows when the reply arrives).
    pub fn tcp_connect(&mut self, dst_ip: IpAddr, dst_port: u16) -> (r: Option<usize>)
        requires
            old(self).wf(),
        ensures
            final(self).wf(),
            opt_int(r) == first_free(old(self).tcp_sockets@, 0),
            final(self).udp_sockets == old(self).udp_sockets,
            final(self).ip == old(self).ip && final(self).arp == old(self).arp && final(self).dhcp
                == old(self).dhcp && final(self).mac == old(self).mac,
            match r {
                Some(i) => exists|lp: u16| {
                    &&& 49152 <= lp < 49161 && !port_used(old(self).tcp_sockets@, lp as int)
                    &&& final(self).tcp_sockets@[i as int] matches Some(s) && s@ == (TcpView {
                        remote_ip: dst_ip.0@, remote_port: dst_port, ..TcpSocket::connect_view(lp) })
                    &&& forall|k: int| 0 <= k < 8 && k != i ==> final(self).tcp_sockets@[k]
                        == old(self).tcp_sockets@[k]
                    &&& final(self).frames() == old(self).frames().push(
                        if arp_lookup(old(self).arp, dst_ip.0@) is Some {
                            tcp_frame(*old(self), dst_ip.0@, lp, dst_port, 1000, 0, TCP_SYN, Seq::empty())
                        } else {
                            arp_request_frame(*old(self), dst_ip.0@)
                        })
                },
                None => final(self).tcp_sockets == old(self).tcp_sockets && final(self).frames()
                    == old(self).frames(),
            },
    {
        let local_port = self.alloc_ephemeral_port();
        proof {
            lemma_first_free(self.tcp_sockets@, 0);
        }
        let mut i: usize = 0;
        while i < MAX_SOCKETS
            invariant
                i <= 8,
                *self == *old(self),
                old(self).wf(),
                49152 <= local_port < 49161,
                !port_used(old(self).tcp_sockets@, local_port as int),
                forall|k: int| 0 <= k < i ==> #[trigger] self.tcp_sockets@[k] is Some,
            decreases 8 - i,
        {
            if self.tcp_sockets[i].is_none() {
                proof {
                    lemma_first_free(self.tcp_sockets@, 0);
                    match first_free(self.tcp_sockets@, 0) {
                        Some(f) => {
                            if f < i {
                                assert(self.tcp_sockets@[f] is Some);
                            } else if f > i {
                                assert(self.tcp_sockets@[i as int] is Some);
                            }
                        },
                        None => {
                            assert(self.tcp_sockets@[i as int] is Some);
                        },
                    }
                }
                let mut s = TcpSocket::connect(local_port);
                s.remote_ip = dst_ip;
                s.remote_port = dst_port;
                let seq = s.seq;
                self.tcp_sockets[i] = Some(s);
                assert forall|k: int| 0 <= k < 8 implies (#[trigger] self.tcp_sockets@[k] matches Some(s)
                    ==> s.wf()) by {
                    if k != i {
                        assert(self.tcp_sockets@[k] == old(self).tcp_sockets@[k]);
                    }
                }
                assert(s@ == (TcpView { remote_ip: dst_ip.0@, remote_port: dst_port,
                    ..TcpSocket::connect_view(local_port) }));
                let ghost mid = *self;
                if self.arp.lookup(dst_ip.0).is_some() {
                    let empty: [u8; 0] = [];
                    self.send_tcp_seg(local_port, dst_port, dst_ip, seq, 0, TCP_SYN, empty.as_slice());
                    assert(empty@ =~= Seq::<u8>::empty());
                    assert(tcp_frame(mid, dst_ip.0@, local_port, dst_port, 1000, 0, TCP_SYN, empty@)
                        == tcp_frame(*old(self), dst_ip.0@, local_port, dst_port, 1000, 0, TCP_SYN,
                        Seq::empty()));
                } else {
                    self.send_arp_request(dst_ip);
                }
                return Some(i);
            }
            i = i + 1;
        }
        proof {
            lemma_first_free(self.tcp_sockets@, 0);
            if let Some(f) = first_free(self.tcp_sockets@, 0) {
                assert(self.tcp_sockets@[f] is Some);
            }
        }
        None
    }
}


/// Everything but the TCP sockets and the outbox is unchanged.
pub open spec fn same_but_tcp(a: NetworkStack, b: NetworkStack) -> bool {
    a.mac == b.mac && a.ip == b.ip && a.dhcp == b.dhcp && a.arp == b.arp && a.udp_sockets
        == b.udp_sockets
}

/// Everything but the UDP sockets and the outbox is unchanged.
pub open spec fn same_but_udp(a: NetworkStack, b: NetworkStack) -> bool {
    a.mac == b.mac && a.ip == b.ip && a.dhcp == b.dhcp && a.arp == b.arp && a.tcp_sockets
        == b.tcp_sockets
}

/// A slot holding a socket in the given state.
pub open spec fn slot_in_state(slot: Option<TcpSocket>, st: TcpState) -> bool {
    slot matches Some(s) && s.state == st
}

/// The smaller of a length and a limit.
pub open spec fn clamp(len: nat, limit: nat) -> nat {
    if len < limit { len } else { limit }
}

impl NetworkStack {
    /// Send up to `MAX_TCP_PAYLOAD` bytes of `data` (PSH|ACK) on an
    /// established connection and advance its sequence number by the count
    /// sent; `Err` for an empty slot or a socket in another state.
    pub fn tcp_send(&mut self, sock_idx: usize, data: &[u8]) -> (r: Result<usize, ()>)
        requires
            old(self).wf(),
            sock_idx < 8,
        ensures
            final(self).wf(),
            !slot_in_state(old(self).tcp_sockets@[sock_idx as int], TcpState::Established) ==> r is Err
                && *final(self) == *old(self),
            slot_in_state(old(self).tcp_sockets@[sock_idx as int], TcpState::Established) ==> {
                let s = old(self).tcp_sockets@[sock_idx as int].unwrap();
                let n = clamp(data@.len(), 1460);
                &&& r == Ok::<usize, ()>(n as usize)
                &&& final(self).tcp_sockets@ == old(self).tcp_sockets@.update(sock_idx as int, Some(
                    TcpSocket { seq: wadd(s.seq, n as u32), ..s }))
                &&& same_but_tcp(*final(self), *old(self))
                &&& final(self).frames() == old(self).frames().push(tcp_frame(*old(self),
                    s.remote_ip.0@, s.local_port, s.remote_port, s.seq, s.ack, TCP_PSH | TCP_ACK,
                    data@.take(n as int)))
            },
    {
        let s = match self.tcp_sockets[sock_idx] {
            Some(s) => s,
            None => return Err(()),
        };
        if s.state != TcpState::Established {
            return Err(());
        }
        let n = if data.len() < MAX_TCP_PAYLOAD { data.len() } else { MAX_TCP_PAYLOAD };
        let part = vstd::slice::slice_subrange(data, 0, n);
        self.send_tcp_seg(s.local_port, s.remote_port, s.remote_ip, s.seq, s.ack, TCP_PSH | TCP_ACK,
            part);
        let mut t = s;
        t.seq = s.seq.wrapping_add(n as u32);
        self.tcp_sockets[sock_idx] = Some(t);
        assert forall|k: int| 0 <= k < 8 implies (#[trigger] self.tcp_sockets@[k] matches Some(u)
            ==> u.wf()) by {
            if k != sock_idx {
                assert(self.tcp_sockets@[k] == old(self).tcp_sockets@[k]);
            }
        }
        Ok(n)
    }

    /// Read the bytes received on a TCP socket into `buf` (see
    /// `TcpSocket::recv`); `Err` for an empty slot.
    pub fn tcp_recv(&mut self, sock_idx: usize, buf: &mut [u8]) -> (r: Result<usize, ()>)
        requires
            old(self).wf(),
            sock_idx < 8,
        ensures
            final(self).wf(),
            final(self).frames() == old(self).frames(),
            same_but_tcp(*final(self), *old(self)),
            match old(self).tcp_sockets@[sock_idx as int] {
                None => r is Err && *final(self) == *old(self) && final(buf)@ == old(buf)@,
                Some(s) => if s.recv_len == 0 {
                    r == Ok::<usize, ()>(0) && *final(self) == *old(self) && final(buf)@ == old(buf)@
                } else {
                    let n = clamp(s.recv_len as nat, old(buf)@.len());
                    &&& r == Ok::<usize, ()>(n as usize)
                    &&& final(buf)@ == s@.data.take(n as int) + old(buf)@.skip(n as int)
                    &&& final(self).tcp_sockets@[sock_idx as int] matches Some(t) && t@ == (TcpView {
                        data: Seq::empty(), ..s@ })
                    &&& forall|k: int| 0 <= k < 8 && k != sock_idx ==> final(self).tcp_sockets@[k]
                        == old(self).tcp_sockets@[k]
                },
            },
    {
        let mut s = match self.tcp_sockets[sock_idx] {
            Some(s) => s,
            None => return Err(()),
        };
        if s.recv_len == 0 {
            return Ok(0);
        }
        let r = s.recv(buf);
        if r.is_ok() {
            self.tcp_sockets[sock_idx] = Some(s);
            assert forall|k: int| 0 <= k < 8 implies (#[trigger] self.tcp_sockets@[k] matches Some(u)
                ==> u.wf()) by {
                if k != sock_idx {
                    assert(self.tcp_sockets@[k] == old(self).tcp_sockets@[k]);
                }
            }
        }
        r
    }
}


impl NetworkStack {
    /// When the socket at `listen_idx` has completed its handshake, move
    /// the connection to the first free slot and reset the original to
    /// listen on its port again; returns the new slot. `None` when the
    /// socket is not established or no slot is free.
    pub fn tcp_accept(&mut self, listen_idx: usize) -> (r: Option<usize>)
        requires
            old(self).wf(),
            listen_idx < 8,
        ensures
            final(self).wf(),
            r is Some <==> slot_in_state(old(self).tcp_sockets@[listen_idx as int],
                TcpState::Established) && first_free(old(self).tcp_sockets@, 0) is Some,
            r is None ==> *final(self) == *old(self),
            r matches Some(f) ==> {
                let s = old(self).tcp_sockets@[listen_idx as int].unwrap();
                &&& opt_int(r) == first_free(old(self).tcp_sockets@, 0)
                &&& final(self).tcp_sockets@[f as int] == old(self).tcp_sockets@[listen_idx as int]
                &&& final(self).tcp_sockets@[listen_idx as int] matches Some(t) && t@
                    == TcpSocket::listen_view(s.local_port)
                &&& forall|k: int| 0 <= k < 8 && k != f && k != listen_idx
                    ==> final(self).tcp_sockets@[k] == old(self).tcp_sockets@[k]
                &&& same_but_tcp(*final(self), *old(self))
                &&& final(self).frames() == old(self).frames()
            },
    {
        let s = match self.tcp_sockets[listen_idx] {
            Some(s) => s,
            None => return None,
        };
        if s.state != TcpState::Established {
            return None;
        }
        proof {
            lemma_first_free(self.tcp_sockets@, 0);
        }
        let mut i: usize = 0;
        while i < MAX_SOCKETS
            invariant
                i <= 8,
                *self == *old(self),
                old(self).wf(),
                listen_idx < 8,
                old(self).tcp_sockets@[listen_idx as int] == Some(s),
                s.state == TcpState::Established,
                forall|k: int| 0 <= k < i ==> #[trigger] self.tcp_sockets@[k] is Some,
            decreases 8 - i,
        {
            if self.tcp_sockets[i].is_none() {
                proof {
                    lemma_first_free(self.tcp_sockets@, 0);
                    match first_free(self.tcp_sockets@, 0) {
                        Some(f) => {
                            if f < i {
                                assert(self.tcp_sockets@[f] is Some);
                            } else if f > i {
                                assert(self.tcp_sockets@[i as int] is Some);
                            }
                        },
                        None => {
                            assert(self.tcp_sockets@[i as int] is Some);
                        },
                    }
                }
                assert(s.wf());
                self.tcp_sockets[i] = Some(s);
                self.tcp_sockets[listen_idx] = Some(TcpSocket::listen(s.local_port));
                assert forall|k: int| 0 <= k < 8 implies (#[trigger] self.tcp_sockets@[k] matches Some(u)
                    ==> u.wf()) by {
                    if k != i && k != listen_idx {
                        assert(self.tcp_sockets@[k] == old(self).tcp_sockets@[k]);
                    }
                }
                return Some(i);
            }
            i = i + 1;
        }
        proof {
            lemma_first_free(self.tcp_sockets@, 0);
            if let Some(f) = first_free(self.tcp_sockets@, 0) {
                assert(self.tcp_sockets@[f] is Some);
            }
        }
        None
    }

    /// The state of a TCP socket as a number (see `tcp_status_of`); 0 for
    /// an index out of range.
    pub fn tcp_status(&self, sock_idx: usize) -> (r: i32)
        ensures
            r == (if sock_idx < 8 { tcp_status_of(self.tcp_sockets@[sock_idx as int]) } else { 0 }),
    {
        if sock_idx >= MAX_SOCKETS {
            return 0;
        }
        match &self.tcp_sockets[sock_idx] {
            None => 0,
            Some(s) => match s.state {
                TcpState::Closed => 0,
                TcpState::Listen => 1,
                TcpState::SynSent | TcpState::SynRecv => 2,
                TcpState::Established => 3,
                _ => 4,
            },
        }
    }

    /// This host's address as a number, first octet least significant (0
    /// before DHCP has bound).
    pub fn get_ip(&self) -> (r: u32)
        ensures
            r == le_value(self.ip.0@),
    {
        self.ip.to_u32()
    }

    /// Start closing an established (or half-closed by the peer)
    /// connection: send FIN|ACK and enter `FinWait1`; `Err` for an empty
    /// slot or any other state.
    pub fn tcp_close(&mut self, sock_idx: usize) -> (r: Result<(), ()>)
        requires
            old(self).wf(),
            sock_idx < 8,
        ensures
            final(self).wf(),
            ({
                let slot = old(self).tcp_sockets@[sock_idx as int];
                if slot_in_state(slot, TcpState::Established) || slot_in_state(slot, TcpState::CloseWait) {
                    let s = slot.unwrap();
                    &&& r is Ok
                    &&& final(self).tcp_sockets@ == old(self).tcp_sockets@.update(sock_idx as int,
                        Some(TcpSocket { state: TcpState::FinWait1, ..s }))
                    &&& same_but_tcp(*final(self), *old(self))
                    &&& final(self).frames() == old(self).frames().push(tcp_frame(*old(self),
                        s.remote_ip.0@, s.local_port, s.remote_port, s.seq, s.ack, TCP_FIN | TCP_ACK,
                        Seq::empty()))
                } else {
                    r is Ok && *final(self) == *old(self)
                }
            }),
    {
        let s = match self.tcp_sockets[sock_idx] {
            Some(s) => s,
            None => return Ok(()),
        };
        match s.state {
            TcpState::Established | TcpState::CloseWait => {
                let empty: [u8; 0] = [];
                self.send_tcp_seg(s.local_port, s.remote_port, s.remote_ip, s.seq, s.ack, TCP_FIN
                    | TCP_ACK, empty.as_slice());
                assert(empty@ =~= Seq::<u8>::empty());
                let mut t = s;
                t.state = TcpState::FinWait1;
                self.tcp_sockets[sock_idx] = Some(t);
                assert forall|k: int| 0 <= k < 8 implies (#[trigger] self.tcp_sockets@[k] matches Some(u)
                    ==> u.wf()) by {
                    if k != sock_idx {
                        assert(self.tcp_sockets@[k] == old(self).tcp_sockets@[k]);
                    }
                }
                Ok(())
            },
            _ => Ok(()),
        }
    }
}


/// A UDP datagram from this host as `UdpPacket::new(..).to_bytes()` builds
/// it: length `8 + payload.len()`, zero checksum.
pub open spec fn udp_out(lport: u16, rport: u16, payload: Seq<u8>) -> Seq<u8> {
    udp_bytes(lport, rport, (8 + (payload.len() as u16)) as u16, 0, payload)
}

impl NetworkStack {
    /// Bind a UDP socket to `port` in the first free slot.
    pub fn udp_bind(&mut self, port: u16) -> (r: Option<usize>)
        requires
            old(self).wf(),
        ensures
            final(self).wf(),
            opt_int(r) == first_free(old(self).udp_sockets@, 0),
            same_but_udp(*final(self), *old(self)),
            final(self).frames() == old(self).frames(),
            match r {
                Some(i) => final(self).udp_sockets@[i as int] matches Some(u) && u.local_port == port
                    && u.remote_port == 0 && u.remote_ip.0@ == seq![0u8, 0, 0, 0] && u.recv_len == 0
                    && forall|k: int| 0 <= k < 8 && k != i ==> final(self).udp_sockets@[k]
                    == old(self).udp_sockets@[k],
                None => final(self).udp_sockets == old(self).udp_sockets,
            },
    {
        proof {
            lemma_first_free(self.udp_sockets@, 0);
        }
        let mut i: usize = 0;
        while i < MAX_SOCKETS
            invariant
                i <= 8,
                *self == *old(self),
                old(self).wf(),
                forall|k: int| 0 <= k < i ==> #[trigger] self.udp_sockets@[k] is Some,
            decreases 8 - i,
        {
            if self.udp_sockets[i].is_none() {
                proof {
                    lemma_first_free(self.udp_sockets@, 0);
                    match first_free(self.udp_sockets@, 0) {
                        Some(f) => {
                            if f < i {
                                assert(self.udp_sockets@[f] is Some);
                            } else if f > i {
                                assert(self.udp_sockets@[i as int] is Some);
                            }
                        },
                        None => {
                            assert(self.udp_sockets@[i as int] is Some);
                        },
                    }
                }
                self.udp_sockets[i] = Some(UdpSocket::new(port));
                assert forall|k: int| 0 <= k < 8 implies (#[trigger] self.udp_sockets@[k] matches Some(u)
                    ==> u.recv_len <= 1472) by {
                    if k != i {
                        assert(self.udp_sockets@[k] == old(self).udp_sockets@[k]);
                    }
                }
                return Some(i);
            }
            i = i + 1;
        }
        proof {
            lemma_first_free(self.udp_sockets@, 0);
            if let Some(f) = first_free(self.udp_sockets@, 0) {
                assert(self.udp_sockets@[f] is Some);
            }
        }
        None
    }

    /// Send up to `MAX_UDP_PAYLOAD` bytes of `data` to the socket's remote
    /// address; `Err` for an empty slot or a socket with no remote port or
    /// address set.
    pub fn udp_send(&mut self, sock_idx: usize, data: &[u8]) -> (r: Result<usize, ()>)
        requires
            sock_idx < 8,
        ensures
            match old(self).udp_sockets@[sock_idx as int] {
                Some(u) if u.remote_port != 0 && u.remote_ip.0@ != seq![0u8, 0, 0, 0] => {
                    let n = clamp(data@.len(), 1472);
                    &&& r == Ok::<usize, ()>(n as usize)
                    &&& same_state(*final(self), *old(self))
                    &&& final(self).frames() == old(self).frames().push(ip_route(*old(self),
                        u.remote_ip.0@, ip_datagram(old(self).ip.0@, u.remote_ip.0@, IP_PROTO_UDP,
                        udp_out(u.local_port, u.remote_port, data@.take(n as int)))))
                },
                _ => r is Err && *final(self) == *old(self),
            },
    {
        let u = match self.udp_sockets[sock_idx] {
            Some(u) => u,
            None => return Err(()),
        };
        if u.remote_port == 0 || u.remote_ip.is_zero() {
            return Err(());
        }
        let n = if data.len() < MAX_UDP_PAYLOAD { data.len() } else { MAX_UDP_PAYLOAD };
        let part = vstd::slice::slice_subrange(data, 0, n);
        let pkt = UdpPacket::new(u.local_port, u.remote_port, part);
        let pb = pkt.to_bytes();
        let my_ip = self.ip;
        let ip_pkt = Ipv4Packet::new(my_ip, u.remote_ip, IP_PROTO_UDP, pb.as_slice());
        let ip_bytes = ip_pkt.to_bytes();
        self.send_ip(u.remote_ip, ip_bytes.as_slice());
        Ok(n)
    }

    /// Set the remote address and port of a UDP socket; `Err` for an index
    /// out of range or an empty slot.
    pub fn udp_connect(&mut self, sock_idx: usize, dst_ip: IpAddr, dst_port: u16) -> (r: Result<(), ()>)
        requires
            old(self).wf(),
        ensures
            final(self).wf(),
            match (if sock_idx < 8 { old(self).udp_sockets@[sock_idx as int] } else { None }) {
                Some(u) => r is Ok && final(self).udp_sockets@ == old(self).udp_sockets@.update(
                    sock_idx as int, Some(UdpSocket { remote_ip: dst_ip, remote_port: dst_port, ..u }))
                    && same_but_udp(*final(self), *old(self)) && final(self).frames()
                    == old(self).frames(),
                None => r is Err && *final(self) == *old(self),
            },
    {
        if sock_idx >= MAX_SOCKETS {
            return Err(());
        }
        let mut u = match self.udp_sockets[sock_idx] {
            Some(u) => u,
            None => return Err(()),
        };
        u.remote_ip = dst_ip;
        u.remote_port = dst_port;
        self.udp_sockets[sock_idx] = Some(u);
        assert forall|k: int| 0 <= k < 8 implies (#[trigger] self.udp_sockets@[k] matches Some(v)
            ==> v.recv_len <= 1472) by {
            if k != sock_idx {
                assert(self.udp_sockets@[k] == old(self).udp_sockets@[k]);
            }
        }
        Ok(())
    }

    /// Free a UDP socket slot (an index out of range is ignored).
    pub fn udp_close(&mut self, sock_idx: usize)
        requires
            old(self).wf(),
        ensures
            final(self).wf(),
            sock_idx < 8 ==> final(self).udp_sockets@ == old(self).udp_sockets@.update(sock_idx as int,
                None) && same_but_udp(*final(self), *old(self)) && final(self).frames()
                == old(self).frames(),
            sock_idx >= 8 ==> *final(self) == *old(self),
    {
        if sock_idx < MAX_SOCKETS {
            self.udp_sockets[sock_idx] = None;
            assert forall|k: int| 0 <= k < 8 implies (#[trigger] self.udp_sockets@[k] matches Some(v)
                ==> v.recv_len <= 1472) by {
                if k != sock_idx {
                    assert(self.udp_sockets@[k] == old(self).udp_sockets@[k]);
                }
            }
        }
    }

    /// Read the pending datagram of a UDP socket into `buf` (see
    /// `UdpSocket::recv`); `Err` for an empty slot.
    pub fn udp_recv(&mut self, sock_idx: usize, buf: &mut [u8]) -> (r: Result<usize, ()>)
        requires
            old(self).wf(),
            sock_idx < 8,
        ensures
            final(self).wf(),
            final(self).frames() == old(self).frames(),
            same_but_udp(*final(self), *old(self)),
            match old(self).udp_sockets@[sock_idx as int] {
                None => r is Err && *final(self) == *old(self) && final(buf)@ == old(buf)@,
                Some(u) => if u.recv_len == 0 {
                    r is Err && *final(self) == *old(self) && final(buf)@ == old(buf)@
                } else {
                    let n = clamp(u.recv_len as nat, old(buf)@.len());
                    &&& r == Ok::<usize, ()>(n as usize)
                    &&& final(buf)@ == u.pending().take(n as int) + old(buf)@.skip(n as int)
                    &&& final(self).udp_sockets@[sock_idx as int] matches Some(v) && v.recv_len == 0
                        && v.local_port == u.local_port && v.remote_port == u.remote_port
                        && v.remote_ip == u.remote_ip
                    &&& forall|k: int| 0 <= k < 8 && k != sock_idx ==> final(self).udp_sockets@[k]
                        == old(self).udp_sockets@[k]
                },
            },
    {
        let mut u = match self.udp_sockets[sock_idx] {
            Some(u) => u,
            None => return Err(()),
        };
        let r = u.recv(buf);
        if r.is_ok() {
            self.udp_sockets[sock_idx] = Some(u);
            assert forall|k: int| 0 <= k < 8 implies (#[trigger] self.udp_sockets@[k] matches Some(v)
                ==> v.recv_len <= 1472) by {
                if k != sock_idx {
                    assert(self.udp_sockets@[k] == old(self).udp_sockets@[k]);
                }
            }
        }
        r
    }
}


/// The broadcast frame carrying a DHCP message from `0.0.0.0:68` to
/// `255.255.255.255:67`.
pub open spec fn dhcp_frame(mac: Seq<u8>, payload: Seq<u8>) -> Seq<u8> {
    eth_frame_bytes(broadcast_mac(), mac, ETH_TYPE_IPV4, ip_datagram(seq![0u8, 0, 0, 0], bcast_ip(),
        IP_PROTO_UDP, udp_out(CLIENT_PORT, SERVER_PORT, payload)))
}

/// The DHCPDISCOVER message of client `c`.
pub open spec fn discover_bytes(c: DhcpClient, mac: Seq<u8>) -> Seq<u8> {
    bootp_header(c.xid, mac) + bootp_options(MSG_DISCOVER, seq![0u8, 0, 0, 0], seq![0u8, 0, 0, 0])
}

/// The DHCPREQUEST message of client `c`.
pub open spec fn request_bytes(c: DhcpClient, mac: Seq<u8>) -> Seq<u8> {
    bootp_header(c.xid, mac) + bootp_options(MSG_REQUEST, c.offered_ip@, c.server_ip@)
}

/// Interface address, ARP cache and sockets are unchanged.
pub open spec fn same_but_dhcp(a: NetworkStack, b: NetworkStack) -> bool {
    a.mac == b.mac && a.arp == b.arp && a.tcp_sockets == b.tcp_sockets && a.udp_sockets
        == b.udp_sockets
}

/// How the stack goes from `s` to `t` on DHCP reply bytes `d`: the client
/// handles them (`dhcp_handled`); an offer is answered with a REQUEST, an ACK
/// sets this host's address, a NAK restarts discovery.
pub open spec fn dhcp_post(s: NetworkStack, d: Seq<u8>, t: NetworkStack) -> bool {
    exists|c2: DhcpClient, a: Option<DhcpAction>| #[trigger] dhcp_handled(s.dhcp, d, c2, a) && match a {
        Some(DhcpAction::SendRequest) => same_but_dhcp(t, s) && t.ip == s.ip && t.dhcp == c2
            && t.frames() == s.frames().push(dhcp_frame(s.mac@, request_bytes(c2, s.mac@))),
        Some(DhcpAction::Bound(ip)) => same_but_dhcp(t, s) && t.ip == IpAddr(ip) && t.dhcp == c2
            && t.frames() == s.frames(),
        Some(DhcpAction::Nak) => same_but_dhcp(t, s) && t.ip == s.ip && t.dhcp == (DhcpClient {
            state: DhcpState::Selecting, ..c2 }) && t.frames() == s.frames().push(dhcp_frame(s.mac@,
            discover_bytes(c2, s.mac@))),
        None => t == s,
    }
}

impl NetworkStack {
    /// Queue a DHCP message (see `dhcp_frame`).
    fn send_dhcp_udp(&mut self, payload: &[u8])
        requires
            payload@.len() <= 1472,
        ensures
            same_state(*final(self), *old(self)),
            final(self).frames() == old(self).frames().push(dhcp_frame(old(self).mac@, payload@)),
    {
        let src_ip = IpAddr([0, 0, 0, 0]);
        let dst_ip = IpAddr([255, 255, 255, 255]);
        assert(src_ip.0@ =~= seq![0u8, 0, 0, 0]);
        assert(dst_ip.0@ =~= bcast_ip());
        let udp_pkt = UdpPacket::new(CLIENT_PORT, SERVER_PORT, payload);
        let udp_b = udp_pkt.to_bytes();
        let ip_pkt = Ipv4Packet::new(src_ip, dst_ip, IP_PROTO_UDP, udp_b.as_slice());
        let ip_bytes = ip_pkt.to_bytes();
        let broadcast = [0xFFu8; 6];
        assert(broadcast@ =~= broadcast_mac());
        self.send_eth(&broadcast, ETH_TYPE_IPV4, ip_bytes.as_slice());
    }

    /// Send a DHCPDISCOVER and enter the `Selecting` state.
    pub fn dhcp_start(&mut self)
        ensures
            same_but_dhcp(*final(self), *old(self)),
            final(self).ip == old(self).ip,
            final(self).dhcp == (DhcpClient { state: DhcpState::Selecting, ..old(self).dhcp }),
            final(self).frames() == old(self).frames().push(dhcp_frame(old(self).mac@, discover_bytes(
                old(self).dhcp, old(self).mac@))),
    {
        self.dhcp.state = DhcpState::Selecting;
        let mac = self.mac;
        let pkt = self.dhcp.build_discover(&mac);
        self.send_dhcp_udp(pkt.as_slice());
    }

    /// Whether a lease has been confirmed by a DHCPACK.
    pub fn is_dhcp_bound(&self) -> (r: bool)
        ensures
            r == (self.dhcp.state == DhcpState::Bound),
    {
        self.dhcp.state == DhcpState::Bound
    }

    /// Set this host's address.
    pub fn set_ip(&mut self, ip: IpAddr)
        ensures
            *final(self) == (NetworkStack { ip, ..*old(self) }),
    {
        self.ip = ip;
    }

    /// Hand a DHCP reply (its first 1024 bytes) to the client and act on
    /// the outcome (see `dhcp_post`).
    fn handle_dhcp(&mut self, payload: &[u8])
        ensures
            dhcp_post(*old(self), payload@.take(clamp(payload@.len(), 1024) as int), *final(self)),
            same_but_dhcp(*final(self), *old(self)),
    {
        let n = if payload.len() < 1024 { payload.len() } else { 1024 };
        let data = vstd::slice::slice_subrange(payload, 0, n);
        assert(data@ =~= payload@.take(clamp(payload@.len(), 1024) as int));
        let ghost d0 = self.dhcp;
        let r = self.dhcp.handle_packet(data);
        let ghost c2 = self.dhcp;
        match r {
            Some(DhcpAction::SendRequest) => {
                let mac = self.mac;
                let req = self.dhcp.build_request(&mac);
                self.send_dhcp_udp(req.as_slice());
            },
            Some(DhcpAction::Bound(ip)) => {
                self.ip = IpAddr(ip);
            },
            Some(DhcpAction::Nak) => {
                self.dhcp_start();
            },
            None => {},
        }
        assert(dhcp_handled(d0, data@, c2, r));
    }
}


/// Slot `k` holds the connection from local port `lp` to remote port `rp`.
pub open spec fn slot_conn(socks: Seq<Option<TcpSocket>>, k: int, lp: u16, rp: u16) -> bool {
    socks[k] matches Some(s) && s.local_port == lp && s.remote_port == rp
}

/// Slot `k` holds a socket listening on local port `lp`.
pub open spec fn slot_listen(socks: Seq<Option<TcpSocket>>, k: int, lp: u16) -> bool {
    socks[k] matches Some(s) && s.local_port == lp && s.state == TcpState::Listen
}

/// The first slot at or after `from` holding the connection `lp`/`rp`.
pub open spec fn first_conn(socks: Seq<Option<TcpSocket>>, lp: u16, rp: u16, from: int) -> Option<int>
    decreases 8 - from,
{
    if from < 0 || from >= 8 {
        None
    } else if slot_conn(socks, from, lp, rp) {
        Some(from)
    } else {
        first_conn(socks, lp, rp, from + 1)
    }
}

/// The first slot at or after `from` listening on `lp`.
pub open spec fn first_listener(socks: Seq<Option<TcpSocket>>, lp: u16, from: int) -> Option<int>
    decreases 8 - from,
{
    if from < 0 || from >= 8 {
        None
    } else if slot_listen(socks, from, lp) {
        Some(from)
    } else {
        first_listener(socks, lp, from + 1)
    }
}

/// The socket a segment to local port `lp` from remote port `rp` belongs
/// to: the first matching connection, else the first listener on `lp`.
pub open spec fn tcp_lookup(socks: Seq<Option<TcpSocket>>, lp: u16, rp: u16) -> Option<int> {
    match first_conn(socks, lp, rp, 0) {
        Some(i) => Some(i),
        None => first_listener(socks, lp, 0),
    }
}

pub proof fn lemma_first_conn(socks: Seq<Option<TcpSocket>>, lp: u16, rp: u16, from: int)
    requires
        0 <= from <= 8,
    ensures
        match first_conn(socks, lp, rp, from) {
            Some(i) => from <= i < 8 && slot_conn(socks, i, lp, rp) && forall|k: int| from <= k < i
                ==> !#[trigger] slot_conn(socks, k, lp, rp),
            None => forall|k: int| from <= k < 8 ==> !#[trigger] slot_conn(socks, k, lp, rp),
        },
    decreases 8 - from,
{
    if from < 8 {
        lemma_first_conn(socks, lp, rp, from + 1);
    }
}

pub proof fn lemma_first_listener(socks: Seq<Option<TcpSocket>>, lp: u16, from: int)
    requires
        0 <= from <= 8,
    ensures
        match first_listener(socks, lp, from) {
            Some(i) => from <= i < 8 && slot_listen(socks, i, lp) && forall|k: int| from <= k < i
                ==> !#[trigger] slot_listen(socks, k, lp),
            None => forall|k: int| from <= k < 8 ==> !#[trigger] slot_listen(socks, k, lp),
        },
    decreases 8 - from,
{
    if from < 8 {
        lemma_first_listener(socks, lp, from + 1);
    }
}

/// How the stack goes from `s` to `t` on segment `g` from `src` to local
/// port `dport`: the socket it belongs to reacts (`tcp_react`) and its reply,
/// if any, is sent; a segment for no socket is dropped.
pub open spec fn tcp_post(s: NetworkStack, src: Seq<u8>, dport: u16, g: SegView, t: NetworkStack) -> bool {
    match tcp_lookup(s.tcp_sockets@, dport, g.src_port) {
        None => t == s,
        Some(i) => {
            let (v, rep) = tcp_react(s.tcp_sockets@[i].unwrap()@, g, src);
            &&& t.tcp_sockets@[i] matches Some(u) && u@ == v
            &&& forall|k: int| 0 <= k < 8 && k != i ==> t.tcp_sockets@[k] == s.tcp_sockets@[k]
            &&& same_but_tcp(t, s)
            &&& t.frames() == match rep {
                Some((f, sq, ak)) => s.frames().push(tcp_frame(s, v.remote_ip, v.local_port,
                    v.remote_port, sq, ak, f, Seq::empty())),
                None => s.frames(),
            }
        },
    }
}

/// The SYN frames owed by sockets `0..n` of `s` that are waiting for the
/// MAC address of `ip`, in slot order.
pub open spec fn pending_syns(s: NetworkStack, ip: Seq<u8>, n: int) -> Seq<Seq<u8>>
    decreases n,
{
    if n <= 0 || n > 8 {
        Seq::empty()
    } else {
        let prev = pending_syns(s, ip, n - 1);
        match s.tcp_sockets@[n - 1] {
            Some(t) if t.state == TcpState::SynSent && t.remote_ip.0@ == ip => prev.push(tcp_frame(s,
                ip, t.local_port, t.remote_port, t.seq, 0, TCP_SYN, Seq::empty())),
            _ => prev,
        }
    }
}

impl NetworkStack {
    /// The socket for a segment to `local_port` from `remote_port` (see
    /// `tcp_lookup`).
    fn find_tcp_socket(&self, local_port: u16, remote_port: u16) -> (r: Option<usize>)
        ensures
            opt_int(r) == tcp_lookup(self.tcp_sockets@, local_port, remote_port),
            r matches Some(i) ==> i < 8 && self.tcp_sockets@[i as int] is Some,
    {
        proof {
            lemma_first_conn(self.tcp_sockets@, local_port, remote_port, 0);
            lemma_first_listener(self.tcp_sockets@, local_port, 0);
        }
        let mut i: usize = 0;
        while i < MAX_SOCKETS
            invariant
                i <= 8,
                forall|k: int| 0 <= k < i ==> !#[trigger] slot_conn(self.tcp_sockets@, k, local_port,
                    remote_port),
            decreases 8 - i,
        {
            if let Some(s) = &self.tcp_sockets[i] {
                if s.local_port == local_port && s.remote_port == remote_port {
                    proof {
                        lemma_first_conn(self.tcp_sockets@, local_port, remote_port, 0);
                        assert(slot_conn(self.tcp_sockets@, i as int, local_port, remote_port));
                        match first_conn(self.tcp_sockets@, local_port, remote_port, 0) {
                            Some(f) => {
                                if f > i {
                                    assert(!slot_conn(self.tcp_sockets@, i as int, local_port, remote_port));
                                }
                            },
                            None => {
                                assert(!slot_conn(self.tcp_sockets@, i as int, local_port, remote_port));
                            },
                        }
                    }
                    return Some(i);
                }
            }
            i = i + 1;
        }
        let mut j: usize = 0;
        while j < MAX_SOCKETS
            invariant
                j <= 8,
                forall|k: int| 0 <= k < 8 ==> !#[trigger] slot_conn(self.tcp_sockets@, k, local_port,
                    remote_port),
                forall|k: int| 0 <= k < j ==> !#[trigger] slot_listen(self.tcp_sockets@, k, local_port),
            decreases 8 - j,
        {
            if let Some(s) = &self.tcp_sockets[j] {
                if s.local_port == local_port && s.state == TcpState::Listen {
                    proof {
                        lemma_first_conn(self.tcp_sockets@, local_port, remote_port, 0);
                        lemma_first_listener(self.tcp_sockets@, local_port, 0);
                        assert(slot_listen(self.tcp_sockets@, j as int, local_port));
                        if let Some(f) = first_conn(self.tcp_sockets@, local_port, remote_port, 0) {
                            assert(!slot_conn(self.tcp_sockets@, f, local_port, remote_port));
                        }
                        match first_listener(self.tcp_sockets@, local_port, 0) {
                            Some(f) => {
                                if f > j {
                                    assert(!slot_listen(self.tcp_sockets@, j as int, local_port));
                                }
                            },
                            None => {
                                assert(!slot_listen(self.tcp_sockets@, j as int, local_port));
                            },
                        }
                    }
                    return Some(j);
                }
            }
            j = j + 1;
        }
        proof {
            lemma_first_conn(self.tcp_sockets@, local_port, remote_port, 0);
            lemma_first_listener(self.tcp_sockets@, local_port, 0);
            if let Some(f) = first_conn(self.tcp_sockets@, local_port, remote_port, 0) {
                assert(!slot_conn(self.tcp_sockets@, f, local_port, remote_port));
            }
            if let Some(f) = first_listener(self.tcp_sockets@, local_port, 0) {
                assert(!slot_listen(self.tcp_sockets@, f, local_port));
            }
        }
        None
    }

    /// Hand a segment from `src_ip` to its socket and send the reply.
    fn handle_tcp(&mut self, src_ip: IpAddr, pkt: TcpPacket<'_>)
        requires
            old(self).wf(),
        ensures
            final(self).wf(),
            tcp_post(*old(self), src_ip.0@, pkt.dst_port, seg_of(pkt), *final(self)),
    {
        let idx = match self.find_tcp_socket(pkt.dst_port, pkt.src_port) {
            Some(i) => i,
            None => return,
        };
        let mut sock = self.tcp_sockets[idx].unwrap();
        let reply = sock.handle_pkt(pkt, src_ip);
        if let Some(r) = reply {
            let empty: [u8; 0] = [];
            self.send_tcp_seg(sock.local_port, sock.remote_port, sock.remote_ip, r.seq, r.ack,
                r.flags, empty.as_slice());
            assert(empty@ =~= Seq::<u8>::empty());
        }
        self.tcp_sockets[idx] = Some(sock);
        assert forall|k: int| 0 <= k < 8 implies (#[trigger] self.tcp_sockets@[k] matches Some(u)
            ==> u.wf()) by {
            if k != idx {
                assert(self.tcp_sockets@[k] == old(self).tcp_sockets@[k]);
            }
        }
    }

    /// Send the SYN of every socket that was waiting for the MAC address
    /// of `resolved_ip`.
    fn flush_pending_syncs(&mut self, resolved_ip: IpAddr)
        ensures
            same_state(*final(self), *old(self)),
            final(self).frames() == old(self).frames() + pending_syns(*old(self), resolved_ip.0@, 8),
    {
        let mut i: usize = 0;
        while i < MAX_SOCKETS
            invariant
                i <= 8,
                same_state(*self, *old(self)),
                self.frames() == old(self).frames() + pending_syns(*old(self), resolved_ip.0@, i as int),
            decreases 8 - i,
        {
            let ghost before = self.frames();
            match self.tcp_sockets[i] {
                Some(s) => {
                    if s.state == TcpState::SynSent && s.remote_ip == resolved_ip {
                        let empty: [u8; 0] = [];
                        self.send_tcp_seg(s.local_port, s.remote_port, s.remote_ip, s.seq, 0,
                            TCP_SYN, empty.as_slice());
                        assert(empty@ =~= Seq::<u8>::empty());
                        assert(s.remote_ip.0@ == resolved_ip.0@);
                        assert(self.frames() =~= old(self).frames() + pending_syns(*old(self),
                            resolved_ip.0@, i + 1));
                    } else {
                        assert(self.frames() =~= old(self).frames() + pending_syns(*old(self),
                            resolved_ip.0@, i + 1));
                    }
                },
                None => {
                    assert(self.frames() =~= old(self).frames() + pending_syns(*old(self),
                        resolved_ip.0@, i + 1));
                },
            }
            i = i + 1;
        }
    }
}


/// How the stack goes from `s` to `t` on an ARP packet with operation
/// `op` from `smac`/`sip` asking for `tip`: a request for this host's
/// address is answered; a reply is cached and releases the SYNs that waited
/// for it.
pub open spec fn arp_post(s: NetworkStack, op: u16, smac: [u8; 6], sip: [u8; 4], tip: Seq<u8>, t: NetworkStack) -> bool {
    if op == ARP_OP_REQUEST && tip == s.ip.0@ {
        same_state(t, s) && t.frames() == s.frames().push(eth_frame_bytes(smac@, s.mac@,
            ETH_TYPE_ARP, arp_bytes(ARP_OP_REPLY, s.mac@, s.ip.0@, smac@, sip@)))
    } else if op == ARP_OP_REPLY {
        &&& arp_inserted(s.arp, sip, smac, t.arp)
        &&& t.mac == s.mac && t.ip == s.ip && t.dhcp == s.dhcp
        &&& t.tcp_sockets == s.tcp_sockets && t.udp_sockets == s.udp_sockets
        &&& t.frames() == s.frames() + pending_syns(NetworkStack { arp: t.arp, ..s }, sip@, 8)
    } else {
        t == s
    }
}

/// The payload of an echo reply to `req`: the request's bytes from offset 4
/// up to at most 64 in all.
pub open spec fn echo_body(req: Seq<u8>) -> Seq<u8> {
    req.subrange(4, clamp(req.len(), 64) as int)
}

/// An ICMP echo reply (type 0, code 0) to `req`, with its checksum.
pub open spec fn echo_reply_bytes(req: Seq<u8>) -> Seq<u8> {
    seq![0u8, 0u8] + be16(internet_checksum(seq![0u8, 0, 0, 0] + echo_body(req))) + echo_body(req)
}

/// Slot `k` holds a UDP socket bound to `port`.
pub open spec fn udp_bound(socks: Seq<Option<UdpSocket>>, k: int, port: u16) -> bool {
    socks[k] matches Some(u) && u.local_port == port
}

/// The first UDP slot at or after `from` bound to `port`.
pub open spec fn first_udp(socks: Seq<Option<UdpSocket>>, port: u16, from: int) -> Option<int>
    decreases 8 - from,
{
    if from < 0 || from >= 8 {
        None
    } else if udp_bound(socks, from, port) {
        Some(from)
    } else {
        first_udp(socks, port, from + 1)
    }
}

pub proof fn lemma_first_udp(socks: Seq<Option<UdpSocket>>, port: u16, from: int)
    requires
        0 <= from <= 8,
    ensures
        match first_udp(socks, port, from) {
            Some(i) => from <= i < 8 && udp_bound(socks, i, port) && forall|k: int| from <= k < i
                ==> !#[trigger] udp_bound(socks, k, port),
            None => forall|k: int| from <= k < 8 ==> !#[trigger] udp_bound(socks, k, port),
        },
    decreases 8 - from,
{
    if from < 8 {
        lemma_first_udp(socks, port, from + 1);
    }
}

/// How the stack goes from `s` to `t` on a datagram from `src:sp` to port
/// `dp`: DHCP replies go to the client, anything else to the first socket
/// bound to `dp`, which keeps it and its sender; a datagram for no socket
/// is dropped.
pub open spec fn udp_post(s: NetworkStack, src: Seq<u8>, sp: u16, dp: u16, payload: Seq<u8>, t: NetworkStack) -> bool {
    if sp == SERVER_PORT && dp == CLIENT_PORT {
        dhcp_post(s, payload.take(clamp(payload.len(), 1024) as int), t)
    } else {
        match first_udp(s.udp_sockets@, dp, 0) {
            None => t == s,
            Some(i) => {
                let n = clamp(payload.len(), 1472);
                &&& t.udp_sockets@[i] matches Some(u) && u.local_port == dp && u.remote_ip.0@ == src
                    && u.remote_port == sp && u.recv_len == n && u.pending() == payload.take(n as int)
                &&& forall|k: int| 0 <= k < 8 && k != i ==> t.udp_sockets@[k] == s.udp_sockets@[k]
                &&& same_but_udp(t, s)
                &&& t.frames() == s.frames()
            },
        }
    }
}

impl NetworkStack {
    /// Answer a request for this host's address; cache the sender of a
    /// reply and send the SYNs that waited for it.
    fn handle_arp(&mut self, pkt: ArpPacket)
        ensures
            arp_post(*old(self), pkt.operation, pkt.sender_mac, pkt.sender_ip, pkt.target_ip@,
                *final(self)),
    {
        let my_ip = self.ip.0;
        if pkt.operation == ARP_OP_REQUEST && bytes_eq(pkt.target_ip.as_slice(), my_ip.as_slice()) {
            let reply = ArpPacket::new_reply(my_ip, pkt.sender_ip, self.mac, pkt.sender_mac);
            let b = reply.to_bytes();
            self.send_eth(&pkt.sender_mac, ETH_TYPE_ARP, b.as_slice());
        }
        if pkt.operation == ARP_OP_REPLY {
            self.arp.insert(pkt.sender_ip, pkt.sender_mac);
            let ghost mid = *self;
            assert(mid == (NetworkStack { arp: mid.arp, ..*old(self) }));
            self.flush_pending_syncs(IpAddr(pkt.sender_ip));
        }
    }

    /// Answer an echo request from `dst` (at least 8 bytes; shorter ones
    /// are ignored) with `echo_reply_bytes`.
    fn answer_ping(&mut self, dst: IpAddr, request: &[u8])
        ensures
            request@.len() < 8 ==> *final(self) == *old(self),
            request@.len() >= 8 ==> same_state(*final(self), *old(self)) && final(self).frames()
                == old(self).frames().push(ip_route(*old(self), dst.0@, ip_datagram(old(self).ip.0@,
                dst.0@, IP_PROTO_ICMP, echo_reply_bytes(request@)))),
    {
        if request.len() < 8 {
            return;
        }
        let n = if request.len() < 64 { request.len() } else { 64 };
        let body = vstd::slice::slice_subrange(request, 4, n);
        let mut msg = vec![0u8; n];
        copy_into(msg.as_mut_slice(), 4, body);
        assert(msg@ =~= seq![0u8, 0, 0, 0] + echo_body(request@));
        proof {
            lemma_word_sum_bound(msg@);
        }
        let ck = ip_chksum(msg.as_slice());
        msg.set(2, (ck / 256) as u8);
        msg.set(3, (ck % 256) as u8);
        assert(msg@ =~= echo_reply_bytes(request@));
        let my_ip = self.ip;
        let pkt = Ipv4Packet::new(my_ip, dst, IP_PROTO_ICMP, msg.as_slice());
        let ip_bytes = pkt.to_bytes();
        self.send_ip(dst, ip_bytes.as_slice());
    }

    /// Dispatch a datagram from `src_ip` (see `udp_post`).
    fn handle_udp(&mut self, src_ip: IpAddr, pkt: UdpPacket<'_>)
        requires
            old(self).wf(),
        ensures
            final(self).wf(),
            udp_post(*old(self), src_ip.0@, pkt.src_port, pkt.dst_port, pkt.payload@, *final(self)),
    {
        if pkt.src_port == SERVER_PORT && pkt.dst_port == CLIENT_PORT {
            self.handle_dhcp(pkt.payload);
            return;
        }
        proof {
            lemma_first_udp(self.udp_sockets@, pkt.dst_port, 0);
        }
        let mut i: usize = 0;
        while i < MAX_SOCKETS
            invariant
                i <= 8,
                *self == *old(self),
                old(self).wf(),
                !(pkt.src_port == SERVER_PORT && pkt.dst_port == CLIENT_PORT),
                forall|k: int| 0 <= k < i ==> !#[trigger] udp_bound(self.udp_sockets@, k, pkt.dst_port),
            decreases 8 - i,
        {
            if let Some(u) = self.udp_sockets[i] {
                if u.local_port == pkt.dst_port {
                    proof {
                        lemma_first_udp(self.udp_sockets@, pkt.dst_port, 0);
                        match first_udp(self.udp_sockets@, pkt.dst_port, 0) {
                            Some(f) => {
                                if f > i {
                                    assert(!udp_bound(self.udp_sockets@, i as int, pkt.dst_port));
                                }
                            },
                            None => {
                                assert(!udp_bound(self.udp_sockets@, i as int, pkt.dst_port));
                            },
                        }
                    }
                    let mut v = u;
                    v.handle_pkt(pkt, src_ip);
                    self.udp_sockets[i] = Some(v);
                    assert forall|k: int| 0 <= k < 8 implies (#[trigger] self.udp_sockets@[k] matches Some(w)
                        ==> w.recv_len <= 1472) by {
                        if k != i {
                            assert(self.udp_sockets@[k] == old(self).udp_sockets@[k]);
                        }
                    }
                    return;
                }
            }
            i = i + 1;
        }
        proof {
            lemma_first_udp(self.udp_sockets@, pkt.dst_port, 0);
            if let Some(f) = first_udp(self.udp_sockets@, pkt.dst_port, 0) {
                assert(!udp_bound(self.udp_sockets@, f, pkt.dst_port));
            }
        }
    }
}


/// The segment summary of TCP bytes `b` (see `TcpPacket::parse`).
pub open spec fn seg_of_bytes(b: Seq<u8>) -> SegView {
    SegView { flags: b[13], seq: be32_at(b, 4), ack_no: be32_at(b, 8), src_port: be16_of(b[0], b[1]),
        payload: b.subrange(tcp_hdr_len(b[12]) as int, b.len() as int) }
}

/// How the stack goes from `s` to `t` on an IPv4 payload of protocol
/// `proto` from `src`: echo requests are answered, TCP segments and UDP
/// datagrams are dispatched; anything else, or anything too short to
/// parse, is dropped.
pub open spec fn ip_post(s: NetworkStack, src: Seq<u8>, proto: u8, p: Seq<u8>, t: NetworkStack) -> bool {
    if proto == IP_PROTO_ICMP {
        if p.len() >= 8 && p[0] == 8 {
            same_state(t, s) && t.frames() == s.frames().push(ip_route(s, src, ip_datagram(s.ip.0@,
                src, IP_PROTO_ICMP, echo_reply_bytes(p))))
        } else {
            t == s
        }
    } else if proto == IP_PROTO_TCP {
        if tcp_accepts(p) {
            tcp_post(s, src, be16_of(p[2], p[3]), seg_of_bytes(p), t)
        } else {
            t == s
        }
    } else if proto == IP_PROTO_UDP {
        if p.len() >= 8 {
            udp_post(s, src, be16_of(p[0], p[1]), be16_of(p[2], p[3]), p.subrange(8, p.len() as int), t)
        } else {
            t == s
        }
    } else {
        t == s
    }
}

/// How the stack goes from `s` to `t` on the received Ethernet frame `f`:
/// frames too short, or addressed to another host, are dropped; ARP packets
/// go to `arp_post`; IPv4 packets go to `ip_post`, after the sender of a
/// unicast frame has been cached as the MAC address of the packet's source.
pub open spec fn eth_post(s: NetworkStack, f: Seq<u8>, t: NetworkStack) -> bool {
    match eth_parse(f) {
        None => t == s,
        Some((dst, src, et, p)) => if !(dst == s.mac@ || dst == broadcast_mac()) {
            t == s
        } else if et == ETH_TYPE_ARP {
            if arp_accepts(p) {
                exists|smac: [u8; 6], sip: [u8; 4]| smac@ == p.subrange(8, 14) && sip@ == p.subrange(14, 18)
                    && #[trigger] arp_post(s, be16_of(p[6], p[7]), smac, sip, p.subrange(24, 28), t)
            } else {
                t == s
            }
        } else if et == ETH_TYPE_IPV4 {
            if ipv4_accepts(p) {
                let sip = p.subrange(12, 16);
                let body = p.subrange(ihl_bytes(p[0]) as int, p.len() as int);
                if dst == broadcast_mac() {
                    ip_post(s, sip, p[9], body, t)
                } else {
                    exists|c: ArpCache, ip4: [u8; 4], mac6: [u8; 6]| ip4@ == sip && mac6@ == src
                        && #[trigger] arp_inserted(s.arp, ip4, mac6, c) && ip_post(NetworkStack { arp: c,
                        ..s }, sip, p[9], body, t)
                }
            } else {
                t == s
            }
        } else {
            t == s
        },
    }
}

impl NetworkStack {
    /// Dispatch an IPv4 packet by protocol (see `ip_post`).
    fn handle_ip(&mut self, pkt: Ipv4Packet<'_>)
        requires
            old(self).wf(),
        ensures
            final(self).wf(),
            ip_post(*old(self), pkt.src.0@, pkt.protocol, pkt.payload@, *final(self)),
    {
        if pkt.protocol == IP_PROTO_ICMP {
            if pkt.payload.len() >= 8 && pkt.payload[0] == 8 {
                self.answer_ping(pkt.src, pkt.payload);
            }
        } else if pkt.protocol == IP_PROTO_TCP {
            if let Some(seg) = TcpPacket::parse(pkt.payload) {
                self.handle_tcp(pkt.src, seg);
            }
        } else if pkt.protocol == IP_PROTO_UDP {
            if let Some(seg) = UdpPacket::parse(pkt.payload) {
                self.handle_udp(pkt.src, seg);
            }
        }
    }

    /// Dispatch a received Ethernet frame (see `eth_post`).
    fn handle_eth(&mut self, frame: &[u8])
        requires
            old(self).wf(),
        ensures
            final(self).wf(),
            eth_post(*old(self), frame@, *final(self)),
    {
        let eth = match EthFrame::parse(frame) {
            Some(e) => e,
            None => return,
        };
        let mac = self.mac;
        if !eth.is_for_me(&mac) && !eth.is_broadcast() {
            return;
        }
        if eth.ethertype == ETH_TYPE_ARP {
            if let Some(p) = ArpPacket::parse(eth.payload) {
                self.handle_arp(p);
            }
        } else if eth.ethertype == ETH_TYPE_IPV4 {
            if let Some(p) = Ipv4Packet::parse(eth.payload) {
                if !eth.is_broadcast() {
                    self.arp.insert(p.src.0, eth.src);
                    let ghost mid = *self;
                    assert(mid == (NetworkStack { arp: mid.arp, ..*old(self) }));
                    self.handle_ip(p);
                    assert(arp_inserted(old(self).arp, p.src.0, eth.src, mid.arp));
                } else {
                    self.handle_ip(p);
                }
            }
        }
    }

    /// Process one received frame (an empty one is ignored); returns its
    /// length. The frames this queues are taken with `take_outbox`.
    pub fn poll(&mut self, frame: &[u8]) -> (r: Option<usize>)
        requires
            old(self).wf(),
        ensures
            final(self).wf(),
            frame@.len() == 0 ==> r is None && *final(self) == *old(self),
            frame@.len() > 0 ==> r == Some(frame@.len() as usize) && eth_post(*old(self), frame@,
                *final(self)),
    {
        if frame.len() > 0 {
            self.handle_eth(frame);
            Some(frame.len())
        } else {
            None
        }
    }
}

} // verus!
