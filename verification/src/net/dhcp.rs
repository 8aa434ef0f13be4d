//! DHCP client (DISCOVER → OFFER → REQUEST → ACK).
use vstd::prelude::*;
use crate::bytes::{be16, be32, be32_at, u32_from_be, push_be32, push_all};

verus! {

pub const CLIENT_PORT: u16 = 68;
pub const SERVER_PORT: u16 = 67;
pub const MSG_DISCOVER: u8 = 1;
pub const MSG_OFFER: u8 = 2;
pub const MSG_REQUEST: u8 = 3;
pub const MSG_ACK: u8 = 5;
pub const MSG_NAK: u8 = 6;

/// The DHCP magic cookie.
pub open spec fn magic() -> Seq<u8> {
    seq![0x63u8, 0x82, 0x53, 0x63]
}

#[derive(Clone, Copy, PartialEq, Eq, Debug, Structural)]
pub enum DhcpState {
    Idle,
    Selecting,
    Requesting,
    Bound,
}

/// Client state for one lease negotiation.
pub struct DhcpClient {
    pub state: DhcpState,
    pub xid: u32,
    pub offered_ip: [u8; 4],
    pub server_ip: [u8; 4],
    pub subnet_mask: [u8; 4],
    pub gateway: [u8; 4],
    pub lease_secs: u32,
}

/// What the network stack should do after a DHCP reply.
pub enum DhcpAction {
    /// OFFER received: send a REQUEST.
    SendRequest,
    /// ACK received: the client is bound to this address.
    Bound([u8; 4]),
    /// NAK received: restart discovery.
    Nak,
}

/// The fixed 240-byte BOOTREQUEST part: op, hardware type and length, the
/// transaction id, the broadcast flag, the client hardware address and the
/// magic cookie; every other byte is zero.
pub open spec fn bootp_header(xid: u32, mac: Seq<u8>) -> Seq<u8> {
    Seq::new(240, |i: int|
        if i == 0 || i == 1 { 1u8 }
        else if i == 2 { 6u8 }
        else if 4 <= i < 8 { be32(xid)[i - 4] }
        else if i == 10 { 0x80u8 }
        else if 28 <= i < 34 { mac[i - 28] }
        else if 236 <= i < 240 { magic()[i - 236] }
        else { 0u8 })
}

/// The options of a request: message type, requested address and server
/// identifier (each only when non-zero), the parameter request list and the
/// end marker.
pub open spec fn bootp_options(msg_type: u8, req: Seq<u8>, sid: Seq<u8>) -> Seq<u8> {
    seq![53u8, 1u8, msg_type] + (if req == seq![0u8, 0, 0, 0] { Seq::empty() } else { seq![50u8, 4u8] + req })
        + (if sid == seq![0u8, 0, 0, 0] { Seq::empty() } else { seq![54u8, 4u8] + sid })
        + seq![55u8, 3, 1, 3, 51, 255]
}

/// Options gathered from a reply: message type, server id, subnet mask,
/// router and lease time.
pub struct DhcpOpts {
    pub msg_type: u8,
    pub server_id: Seq<u8>,
    pub subnet_mask: Seq<u8>,
    pub gateway: Seq<u8>,
    pub lease_secs: u32,
}

/// The options before any is read.
pub open spec fn opts_init() -> DhcpOpts {
    DhcpOpts {
        msg_type: 0,
        server_id: seq![0u8, 0, 0, 0],
        subnet_mask: seq![0u8, 0, 0, 0],
        gateway: seq![0u8, 0, 0, 0],
        lease_secs: 86400,
    }
}

/// Take in option `tag` with value `val`.
pub open spec fn opts_apply(a: DhcpOpts, tag: u8, val: Seq<u8>) -> DhcpOpts {
    if tag == 53 && val.len() >= 1 {
        DhcpOpts { msg_type: val[0], ..a }
    } else if tag == 54 && val.len() >= 4 {
        DhcpOpts { server_id: val.take(4), ..a }
    } else if tag == 1 && val.len() >= 4 {
        DhcpOpts { subnet_mask: val.take(4), ..a }
    } else if tag == 3 && val.len() >= 4 {
        DhcpOpts { gateway: val.take(4), ..a }
    } else if tag == 51 && val.len() >= 4 {
        DhcpOpts { lease_secs: be32_at(val, 0), ..a }
    } else {
        a
    }
}

/// Walk the option list of `d` from offset `i`: pad bytes are skipped, the
/// end marker, a truncated length or a value running past the end stop the
/// walk.
pub open spec fn opts_walk(d: Seq<u8>, i: int, a: DhcpOpts) -> DhcpOpts
    decreases d.len() - i,
{
    if i < 0 || i >= d.len() {
        a
    } else if d[i] == 255 {
        a
    } else if d[i] == 0 {
        opts_walk(d, i + 1, a)
    } else if i + 1 >= d.len() {
        a
    } else if i + 2 + d[i + 1] > d.len() {
        a
    } else {
        opts_walk(d, i + 2 + d[i + 1], opts_apply(a, d[i], d.subrange(i + 2, i + 2 + d[i + 1])))
    }
}

/// Whether `d` is a BOOTREPLY for transaction `xid` carrying the magic cookie.
pub open spec fn dhcp_reply_for(d: Seq<u8>, xid: u32) -> bool {
    d.len() >= 240 && d[0] == 2 && d.subrange(236, 240) == magic() && be32_at(d, 4) == xid
}

/// How the client handles reply bytes `d`, going from `c` to `c2` and
/// answering `r`: an OFFER while selecting moves to `Requesting` and records
/// the offer, an ACK while requesting binds the client, a NAK while
/// requesting returns it to `Idle`; anything else, and any packet that is not
/// a reply to this transaction, is ignored.
pub open spec fn dhcp_handled(c: DhcpClient, d: Seq<u8>, c2: DhcpClient, r: Option<DhcpAction>) -> bool {
    if !dhcp_reply_for(d, c.xid) {
        r is None && c2 == c
    } else {
        let o = opts_walk(d, 240, opts_init());
        let yiaddr = d.subrange(16, 20);
        if c.state == DhcpState::Selecting && o.msg_type == MSG_OFFER {
            &&& r matches Some(DhcpAction::SendRequest)
            &&& c2.state == DhcpState::Requesting
            &&& c2.xid == c.xid
            &&& c2.offered_ip@ == yiaddr
            &&& c2.server_ip@ == o.server_id
            &&& c2.subnet_mask@ == o.subnet_mask
            &&& c2.gateway@ == o.gateway
            &&& c2.lease_secs == o.lease_secs
        } else if c.state == DhcpState::Requesting && o.msg_type == MSG_ACK {
            &&& r matches Some(DhcpAction::Bound(ip)) && ip@ == yiaddr
            &&& c2 == (DhcpClient { state: DhcpState::Bound, offered_ip: c2.offered_ip, ..c })
            &&& c2.offered_ip@ == yiaddr
        } else if c.state == DhcpState::Requesting && o.msg_type == MSG_NAK {
            &&& r matches Some(DhcpAction::Nak)
            &&& c2 == (DhcpClient { state: DhcpState::Idle, ..c })
        } else {
            r is None && c2 == c
        }
    }
}

impl DhcpClient {
    /// A client in the `Idle` state whose transaction id is the last four
    /// bytes of `mac`, big-endian.
    pub fn new(mac: &[u8; 6]) -> (c: Self)
        ensures
            c.state == DhcpState::Idle,
            c.xid == be32_at(mac@, 2),
            c.offered_ip@ == seq![0u8, 0, 0, 0] && c.server_ip@ == seq![0u8, 0, 0, 0],
            c.subnet_mask@ == seq![0u8, 0, 0, 0] && c.gateway@ == seq![0u8, 0, 0, 0],
            c.lease_secs == 86400,
    {
        let xid = u32_from_be(mac.as_slice(), 2);
        let c = DhcpClient {
            state: DhcpState::Idle,
            xid,
            offered_ip: [0; 4],
            server_ip: [0; 4],
            subnet_mask: [0; 4],
            gateway: [0; 4],
            lease_secs: 86400,
        };
        assert(c.offered_ip@ =~= seq![0u8, 0, 0, 0]);
        c
    }

    /// A DHCPDISCOVER packet.
    pub fn build_discover(&self, mac: &[u8; 6]) -> (p: Vec<u8>)
        ensures
            p@ == bootp_header(self.xid, mac@) + bootp_options(MSG_DISCOVER, seq![0u8, 0, 0, 0],
                seq![0u8, 0, 0, 0]),
    {
        let z = [0u8; 4];
        assert(z@ =~= seq![0u8, 0, 0, 0]);
        self.build_bootp(mac, MSG_DISCOVER, z, z)
    }

    /// A DHCPREQUEST packet echoing the offered address and server.
    pub fn build_request(&self, mac: &[u8; 6]) -> (p: Vec<u8>)
        ensures
            p@ == bootp_header(self.xid, mac@) + bootp_options(MSG_REQUEST, self.offered_ip@,
                self.server_ip@),
    {
        self.build_bootp(mac, MSG_REQUEST, self.offered_ip, self.server_ip)
    }

    fn build_bootp(&self, mac: &[u8; 6], msg_type: u8, requested_ip: [u8; 4], server_id: [u8; 4]) -> (p: Vec<u8>)
        ensures
            p@ == bootp_header(self.xid, mac@) + bootp_options(msg_type, requested_ip@, server_id@),
    {
        let mut p: Vec<u8> = Vec::new();
        let mut i: usize = 0;
        while i < 240
            invariant
                i <= 240,
                p@ == bootp_header(self.xid, mac@).take(i as int),
            decreases 240 - i,
        {
            let b: u8 = if i == 0 || i == 1 {
                1
            } else if i == 2 {
                6
            } else if i == 4 {
                (self.xid / 16777216) as u8
            } else if i == 5 {
                ((self.xid / 65536) % 256) as u8
            } else if i == 6 {
                ((self.xid / 256) % 256) as u8
            } else if i == 7 {
                (self.xid % 256) as u8
            } else if i == 10 {
                0x80
            } else if 28 <= i && i < 34 {
                mac[i - 28]
            } else if i == 236 || i == 239 {
                0x63
            } else if i == 237 {
                0x82
            } else if i == 238 {
                0x53
            } else {
                0
            };
            p.push(b);
            i = i + 1;
            assert(p@ =~= bootp_header(self.xid, mac@).take(i as int));
        }
        let ghost hdr = p@;
        assert(hdr =~= bootp_header(self.xid, mac@));
        p.push(53);
        p.push(1);
        p.push(msg_type);
        let z = requested_ip[0] == 0 && requested_ip[1] == 0 && requested_ip[2] == 0 && requested_ip[3] == 0;
        assert(z == (requested_ip@ == seq![0u8, 0, 0, 0])) by {
            if requested_ip@ == seq![0u8, 0, 0, 0] {
                assert(requested_ip@[0] == 0 && requested_ip@[3] == 0);
            }
            if z {
                assert(requested_ip@ =~= seq![0u8, 0, 0, 0]);
            }
        }
        if !z {
            p.push(50);
            p.push(4);
            push_all(&mut p, requested_ip.as_slice());
        }
        let zs = server_id[0] == 0 && server_id[1] == 0 && server_id[2] == 0 && server_id[3] == 0;
        assert(zs == (server_id@ == seq![0u8, 0, 0, 0])) by {
            if server_id@ == seq![0u8, 0, 0, 0] {
                assert(server_id@[0] == 0 && server_id@[3] == 0);
            }
            if zs {
                assert(server_id@ =~= seq![0u8, 0, 0, 0]);
            }
        }
        if !zs {
            p.push(54);
            p.push(4);
            push_all(&mut p, server_id.as_slice());
        }
        p.push(55);
        p.push(3);
        p.push(1);
        p.push(3);
        p.push(51);
        p.push(255);
        assert(p@ =~= hdr + bootp_options(msg_type, requested_ip@, server_id@));
        p
    }

    /// Process a reply from the server (see `dhcp_handled`).
    pub fn handle_packet(&mut self, data: &[u8]) -> (r: Option<DhcpAction>)
        ensures
            dhcp_handled(*old(self), data@, *final(self), r),
    {
        if data.len() < 240 {
            return None;
        }
        if data[0] != 2 {
            return None;
        }
        if data[236] != 0x63 || data[237] != 0x82 || data[238] != 0x53 || data[239] != 0x63 {
            proof {
                if data@.subrange(236, 240) == magic() {
                    assert(data@.subrange(236, 240)[0] == data@[236]);
                    assert(data@.subrange(236, 240)[3] == data@[239]);
                }
            }
            return None;
        }
        assert(data@.subrange(236, 240) =~= magic());
        let xid = u32_from_be(data, 4);
        if xid != self.xid {
            return None;
        }
        let yiaddr = [data[16], data[17], data[18], data[19]];
        assert(yiaddr@ =~= data@.subrange(16, 20));
        let mut msg_type: u8 = 0;
        let mut server_id = [0u8; 4];
        let mut subnet_mask = [0u8; 4];
        let mut gateway = [0u8; 4];
        let mut lease_secs: u32 = 86400;
        assert(server_id@ =~= seq![0u8, 0, 0, 0]);
        let mut i: usize = 240;
        while i < data.len()
            invariant_except_break
                240 <= i <= data@.len(),
                opts_walk(data@, i as int, (DhcpOpts { msg_type, server_id: server_id@, subnet_mask:
                    subnet_mask@, gateway: gateway@, lease_secs })) == opts_walk(data@, 240, opts_init()),
            ensures
                (DhcpOpts { msg_type, server_id: server_id@, subnet_mask: subnet_mask@, gateway:
                    gateway@, lease_secs }) == opts_walk(data@, 240, opts_init()),
            decreases data.len() - i,
        {
            let tag = data[i];
            if tag == 255 {
                break;
            }
            if tag == 0 {
                i = i + 1;
                continue;
            }
            if i + 1 >= data.len() {
                break;
            }
            let len = data[i + 1] as usize;
            if len > data.len() - i - 2 {
                break;
            }
            let ghost val = data@.subrange(i + 2, i + 2 + len);
            if tag == 53 && len >= 1 {
                msg_type = data[i + 2];
            } else if tag == 54 && len >= 4 {
                server_id = [data[i + 2], data[i + 3], data[i + 4], data[i + 5]];
                assert(server_id@ =~= val.take(4));
            } else if tag == 1 && len >= 4 {
                subnet_mask = [data[i + 2], data[i + 3], data[i + 4], data[i + 5]];
                assert(subnet_mask@ =~= val.take(4));
            } else if tag == 3 && len >= 4 {
                gateway = [data[i + 2], data[i + 3], data[i + 4], data[i + 5]];
                assert(gateway@ =~= val.take(4));
            } else if tag == 51 && len >= 4 {
                lease_secs = u32_from_be(data, i + 2);
            }
            i = i + 2 + len;
        }
        if self.state == DhcpState::Selecting && msg_type == MSG_OFFER {
            self.offered_ip = yiaddr;
            self.server_ip = server_id;
            self.subnet_mask = subnet_mask;
            self.gateway = gateway;
            self.lease_secs = lease_secs;
            self.state = DhcpState::Requesting;
            Some(DhcpAction::SendRequest)
        } else if self.state == DhcpState::Requesting && msg_type == MSG_ACK {
            self.offered_ip = yiaddr;
            self.state = DhcpState::Bound;
            Some(DhcpAction::Bound(yiaddr))
        } else if self.state == DhcpState::Requesting && msg_type == MSG_NAK {
            self.state = DhcpState::Idle;
            Some(DhcpAction::Nak)
        } else {
            None
        }
    }
}

} // verus!
