//! The classifier: finds the DNS question in an Ethernet frame, and decides
//! whether the frame passes.
use crate::event::{self, BlockEvent, MAX_DOMAIN_LEN};
use crate::hash;
use crate::wire::MAX_WIRE_LEN;
use vstd::prelude::*;

verus! {

/// Standard Ethernet header size: two addresses and the type.
pub const ETH_HDR_LEN: usize = 14;

/// A DNS message header is 12 bytes.
pub const DNS_HDR_LEN: usize = 12;

/// The well-known port of DNS over UDP.
pub const DNS_PORT: u16 = 53;

/// No byte of a frame behind these can change what is found in it.
pub const FRAME_PREFIX_LEN: usize = 351;

/// `network_types::ip::Ipv4Hdr::LEN`: an IPv4 header without options is 20 bytes.
#[verifier::external_body]
fn ipv4_hdr_len() -> (n: usize)
    ensures
        n == 20,
{
    network_types::ip::Ipv4Hdr::LEN
}

/// `network_types::ip::Ipv6Hdr::LEN`: an IPv6 header is 40 bytes.
#[verifier::external_body]
fn ipv6_hdr_len() -> (n: usize)
    ensures
        n == 40,
{
    network_types::ip::Ipv6Hdr::LEN
}

/// `network_types::udp::UdpHdr::LEN`: a UDP header is 8 bytes.
#[verifier::external_body]
fn udp_hdr_len() -> (n: usize)
    ensures
        n == 8,
{
    network_types::udp::UdpHdr::LEN
}

/// `network_types::ip::IpProto::Udp`: the protocol number of UDP is 17.
#[verifier::external_body]
fn udp_protocol() -> (n: u8)
    ensures
        n == 17,
{
    network_types::ip::IpProto::Udp as u8
}

/// `network_types::eth::EtherType::Ipv4`: its value, in memory as on the wire, is
/// the bytes 08 00.
#[verifier::external_body]
fn ipv4_ether_type() -> (bytes: [u8; 2])
    ensures
        bytes@ == seq![0x08u8, 0x00],
{
    (network_types::eth::EtherType::Ipv4 as u16).to_ne_bytes()
}

/// `network_types::eth::EtherType::Ipv6`: its value, in memory as on the wire, is
/// the bytes 86 DD.
#[verifier::external_body]
fn ipv6_ether_type() -> (bytes: [u8; 2])
    ensures
        bytes@ == seq![0x86u8, 0xDD],
{
    (network_types::eth::EtherType::Ipv6 as u16).to_ne_bytes()
}

/// The number whose two bytes, most significant first, stand at `at`.
pub open spec fn be16(frame: Seq<u8>, at: int) -> u16 {
    (frame[at] * 256 + frame[at + 1]) as u16
}

/// The IPv4 address at `at`, in network byte order: the number whose bytes in an
/// event are the four that stand there.
pub open spec fn addr_at(frame: Seq<u8>, at: int) -> u32 {
    (frame[at] + frame[at + 1] * 0x100 + frame[at + 2] * 0x1_0000 + frame[at + 3]
        * 0x100_0000) as u32
}

/// Where the UDP header of a frame starts, and the addresses that the frame goes
/// between, in network byte order.
pub struct UdpDatagram {
    pub offset: usize,
    /// 0 for IPv6.
    pub src_addr: u32,
    /// 0 for IPv6.
    pub dst_addr: u32,
}

/// The UDP datagram in a frame; none where the frame is neither IPv4 nor IPv6,
/// is cut short in the IP header, or carries another protocol.
pub open spec fn udp_datagram(frame: Seq<u8>) -> Option<UdpDatagram> {
    if frame.len() < ETH_HDR_LEN {
        None
    } else if be16(frame, 12) == 0x0800 {
        if frame.len() < 34 || frame[23] != 17 {
            None
        } else {
            Some(
                UdpDatagram {
                    offset: (14 + frame[14] % 16 * 4) as usize,
                    src_addr: addr_at(frame, 26),
                    dst_addr: addr_at(frame, 30),
                },
            )
        }
    } else if be16(frame, 12) == 0x86DD {
        if frame.len() < 54 || frame[20] != 17 {
            None
        } else {
            Some(UdpDatagram { offset: 54, src_addr: 0, dst_addr: 0 })
        }
    } else {
        None
    }
}

/// Whether a frame with its UDP header at `udp` carries a DNS query with a
/// question: to or from the DNS port, with both headers whole, the response bit
/// clear and a question count other than zero.
pub open spec fn carries_query(frame: Seq<u8>, udp: int) -> bool {
    &&& frame.len() >= udp + 20
    &&& be16(frame, udp) == DNS_PORT || be16(frame, udp + 2) == DNS_PORT
    &&& frame[udp + 10] < 0x80
    &&& be16(frame, udp + 12) != 0
}

/// Where the first question starts in the frame of a DNS query.
pub open spec fn question_offset(frame: Seq<u8>) -> Option<int> {
    match udp_datagram(frame) {
        Some(udp) => if carries_query(frame, udp.offset as int) {
            Some(udp.offset + 20)
        } else {
            None
        },
        None => None,
    }
}

/// The bytes at `at` that a name can take: no more than the 255 of the longest
/// name, and none past the end of the frame.
pub open spec fn window_at(frame: Seq<u8>, at: int) -> Seq<u8> {
    frame.subrange(
        at,
        if at + MAX_WIRE_LEN < frame.len() {
            at + MAX_WIRE_LEN
        } else {
            frame.len() as int
        },
    )
}

/// As much of a name as an event has room for.
pub open spec fn cut(name: Seq<u8>) -> Seq<u8> {
    if name.len() <= MAX_DOMAIN_LEN {
        name
    } else {
        name.take(MAX_DOMAIN_LEN as int)
    }
}

/// The name that stands at `at`: up to and with its zero byte. Of bytes that hold
/// no whole name, for want of a zero byte, those that an event has room for.
pub open spec fn name_at(frame: Seq<u8>, at: int) -> Seq<u8> {
    if window_at(frame, at).contains(0) {
        hash::through_nul(window_at(frame, at))
    } else {
        cut(window_at(frame, at))
    }
}

/// A byte with both high bits set starts a compression pointer.
pub open spec fn has_pointer(name: Seq<u8>) -> bool {
    exists|i: int| 0 <= i < name.len() && name[i] >= 0xC0
}

/// The name of the question in the frame of a DNS query; none where the frame is
/// no query, the name is compressed, or the query type behind it is cut off.
pub open spec fn question_name(frame: Seq<u8>) -> Option<Seq<u8>> {
    match question_offset(frame) {
        Some(at) => {
            let name = name_at(frame, at);
            if has_pointer(name) || frame.len() < at + name.len() + 2 {
                None
            } else {
                Some(name)
            }
        },
        None => None,
    }
}

/// A name in the field of an event: what fits of it, filled up with zeros.
pub open spec fn domain_field(name: Seq<u8>) -> Seq<u8> {
    cut(name) + Seq::new((MAX_DOMAIN_LEN - cut(name).len()) as nat, |i: int| 0u8)
}

/// A DNS query found in a frame.
pub struct DnsQuery {
    /// The hash of the name, by which the deny map knows it.
    pub hash: u64,
    /// What is reported if the query is blocked.
    pub event: BlockEvent,
}

/// The query that a frame with a question of the name `name` holds.
pub open spec fn is_query_of(query: DnsQuery, frame: Seq<u8>, name: Seq<u8>) -> bool {
    let udp = udp_datagram(frame)->0;
    &&& query.hash == hash::fnv_fold(hash::FNV_OFFSET, name)
    &&& query.event.src_addr == udp.src_addr
    &&& query.event.dst_addr == udp.dst_addr
    &&& query.event.src_port == be16(frame, udp.offset as int)
    &&& query.event.dst_port == be16(frame, udp.offset + 2)
    &&& query.event.qtype == be16(frame, udp.offset + 20 + name.len())
    &&& query.event._pad@ == seq![0u8, 0]
    &&& query.event.domain@ == domain_field(name)
}

fn read_be16(frame: &[u8], at: usize) -> (x: u16)
    requires
        at + 2 <= frame@.len(),
    ensures
        x == be16(frame@, at as int),
{
    frame[at] as u16 * 256 + frame[at + 1] as u16
}

fn read_addr(frame: &[u8], at: usize) -> (addr: u32)
    requires
        at + 4 <= frame@.len(),
    ensures
        addr == addr_at(frame@, at as int),
{
    frame[at] as u32 + frame[at + 1] as u32 * 0x100 + frame[at + 2] as u32 * 0x1_0000 + frame[at
        + 3] as u32 * 0x100_0000
}

/// Finds the UDP datagram in a frame.
pub fn find_udp(frame: &[u8]) -> (udp: Option<UdpDatagram>)
    ensures
        udp == udp_datagram(frame@),
{
    if frame.len() < ETH_HDR_LEN {
        return None;
    }
    let ipv4: [u8; 2] = ipv4_ether_type();
    let ipv6: [u8; 2] = ipv6_ether_type();
    if frame[12] == ipv4[0] && frame[13] == ipv4[1] {
        if frame.len() < ETH_HDR_LEN + ipv4_hdr_len() || frame[23] != udp_protocol() {
            return None;
        }
        Some(
            UdpDatagram {
                offset: ETH_HDR_LEN + (frame[14] % 16) as usize * 4,
                src_addr: read_addr(frame, 26),
                dst_addr: read_addr(frame, 30),
            },
        )
    } else if frame[12] == ipv6[0] && frame[13] == ipv6[1] {
        if frame.len() < ETH_HDR_LEN + ipv6_hdr_len() || frame[20] != udp_protocol() {
            return None;
        }
        Some(UdpDatagram { offset: ETH_HDR_LEN + ipv6_hdr_len(), src_addr: 0, dst_addr: 0 })
    } else {
        None
    }
}

/// The length of the name that stands at `at`.
fn name_len(frame: &[u8], at: usize) -> (len: usize)
    requires
        at <= frame@.len(),
    ensures
        len <= MAX_WIRE_LEN,
        at + len <= frame@.len(),
        name_at(frame@, at as int) == frame@.subrange(at as int, at + len),
{
    let end: usize = frame.len();
    let limit: usize = if end - at < MAX_WIRE_LEN {
        end - at
    } else {
        MAX_WIRE_LEN
    };
    let ghost window = window_at(frame@, at as int);
    let mut n: usize = 0;
    while n < limit
        invariant
            n <= limit <= MAX_WIRE_LEN,
            at + limit <= end == frame@.len(),
            window == window_at(frame@, at as int),
            window == frame@.subrange(at as int, at + limit),
            forall|j: int| 0 <= j < n ==> window[j] != 0,
        decreases limit - n,
    {
        if frame[at + n] == 0 {
            proof {
                assert(window[n as int] == 0);
                hash::lemma_through_nul(window, n as int);
                assert(window.take(n + 1) =~= frame@.subrange(at as int, at + n + 1));
            }
            return n + 1;
        }
        assert(window[n as int] != 0);
        n += 1;
    }
    let len: usize = if limit < MAX_DOMAIN_LEN {
        limit
    } else {
        MAX_DOMAIN_LEN
    };
    assert(!window.contains(0));
    assert(cut(window) =~= frame@.subrange(at as int, at + len));
    len
}

/// Finds the DNS query in a frame.
///
/// The hash covers the whole name. The event has room for 128 bytes of it; what is
/// behind them is left out there.
///
/// A question without a zero byte in the 255 bytes that a name can take is looked
/// up by its first 128 bytes, and what follows them is taken for the query type.
pub fn find_query(frame: &[u8]) -> (query: Option<DnsQuery>)
    ensures
        query is Some <==> question_name(frame@) is Some,
        query matches Some(query) ==> is_query_of(query, frame@, question_name(frame@)->0),
        query matches Some(query) ==> has_addresses_of(query.event, frame@),
{
    let udp: UdpDatagram = match find_udp(frame) {
        Some(udp) => udp,
        None => return None,
    };
    let dns: usize = udp.offset + udp_hdr_len();
    if frame.len() < dns {
        return None;
    }
    let src_port: u16 = read_be16(frame, udp.offset);
    let dst_port: u16 = read_be16(frame, udp.offset + 2);
    if src_port != DNS_PORT && dst_port != DNS_PORT {
        return None;
    }
    if frame.len() < dns + DNS_HDR_LEN {
        return None;
    }
    if frame[dns + 2] >= 0x80 || read_be16(frame, dns + 4) == 0 {
        return None;
    }
    let question: usize = dns + DNS_HDR_LEN;
    let len: usize = name_len(frame, question);
    let mut domain: [u8; MAX_DOMAIN_LEN] = [0u8; MAX_DOMAIN_LEN];
    let mut hash: u64 = hash::FNV_OFFSET;
    let mut n: usize = 0;
    let ghost name = name_at(frame@, question as int);
    assert(question_offset(frame@) == Some(question as int));
    assert(name.take(0) =~= Seq::empty());
    while n < len
        invariant
            n <= len <= MAX_WIRE_LEN,
            question + len <= frame@.len(),
            question_offset(frame@) == Some(question as int),
            name == name_at(frame@, question as int),
            name == frame@.subrange(question as int, question + len),
            hash == hash::fnv_fold(hash::FNV_OFFSET, name.take(n as int)),
            forall|j: int| 0 <= j < n && j < MAX_DOMAIN_LEN ==> domain@[j] == name[j],
            forall|j: int| n <= j < MAX_DOMAIN_LEN ==> domain@[j] == 0,
            forall|j: int| 0 <= j < n ==> name[j] < 0xC0,
        decreases len - n,
    {
        let byte: u8 = frame[question + n];
        assert(name[n as int] == byte);
        if byte >= 0xC0 {
            return None;
        }
        if n < MAX_DOMAIN_LEN {
            domain[n] = byte;
        }
        hash = hash::fnv_round(hash, byte);
        assert(name.take(n + 1).drop_last() =~= name.take(n as int));
        n += 1;
    }
    assert(name.take(n as int) =~= name);
    if frame.len() - question < len + 2 {
        return None;
    }
    let qtype: u16 = read_be16(frame, question + len);
    let event = BlockEvent {
        src_addr: udp.src_addr,
        dst_addr: udp.dst_addr,
        src_port,
        dst_port,
        qtype,
        _pad: [0u8; 2],
        domain,
    };
    proof {
        assert(event._pad@ =~= seq![0u8, 0]);
        assert(event.domain@ =~= domain_field(name));
        law_event_has_the_addresses_of_the_frame(frame@, DnsQuery { hash, event }, name);
    }
    Some(DnsQuery { hash, event })
}

/// The addresses of an event are, byte for byte, those of the IPv4 frame.
pub open spec fn has_addresses_of(event: BlockEvent, frame: Seq<u8>) -> bool {
    be16(frame, 12) == 0x0800 ==> event.bytes().take(8) == frame.subrange(26, 34)
}

/// The event of a query has the addresses of an IPv4 frame in network byte order:
/// their bytes stand in the ring buffer as they stand in the frame.
pub proof fn law_event_has_the_addresses_of_the_frame(
    frame: Seq<u8>,
    query: DnsQuery,
    name: Seq<u8>,
)
    requires
        question_name(frame) == Some(name),
        is_query_of(query, frame, name),
    ensures
        has_addresses_of(query.event, frame),
{
    if be16(frame, 12) == 0x0800 {
        event::lemma_le32_of_bytes(frame[26], frame[27], frame[28], frame[29]);
        event::lemma_le32_of_bytes(frame[30], frame[31], frame[32], frame[33]);
        assert(query.event.bytes().take(8) =~= event::le32(query.event.src_addr) + event::le32(
            query.event.dst_addr,
        ));
        assert(event::le32(query.event.src_addr) + event::le32(query.event.dst_addr)
            =~= frame.subrange(26, 34));
    }
}

/// What becomes of a frame.
#[derive(Clone, Copy, Debug, PartialEq, Eq, Structural)]
pub enum Action {
    /// It goes on unchanged.
    Pass,
    /// It is dropped, and never reaches its destination.
    Drop,
}

/// The decision on a frame, with the query to report where the frame is dropped.
pub struct Verdict {
    pub action: Action,
    pub blocked: Option<DnsQuery>,
}

/// A query is dropped and reported if its name is denied, and passes otherwise.
pub open spec fn decided(query: DnsQuery, denied: bool) -> Verdict {
    if denied {
        Verdict { action: Action::Drop, blocked: Some(query) }
    } else {
        Verdict { action: Action::Pass, blocked: None }
    }
}

/// The decision on a frame while the deny map has the keys `keys`.
pub open spec fn is_verdict(verdict: Verdict, frame: Seq<u8>, keys: Set<Seq<u8>>) -> bool {
    match question_name(frame) {
        Some(name) => exists|query: DnsQuery| #[trigger]
            is_query_of(query, frame, name) && verdict == decided(
                query,
                keys.contains(hash::be_bytes(query.hash)),
            ),
        None => verdict == (Verdict { action: Action::Pass, blocked: None }),
    }
}

/// Whether `denied` answers for a deny map with the keys `keys`.
pub open spec fn answers_for<F: Fn([u8; 8]) -> bool>(denied: F, keys: Set<Seq<u8>>) -> bool {
    forall|key: [u8; 8], found: bool| #[trigger]
        call_ensures(denied, (key,), found) ==> found == keys.contains(key@)
}

/// Decides on a query, given what the deny map holds under its key.
pub fn decide(query: DnsQuery, denied: bool) -> (verdict: Verdict)
    ensures
        verdict == decided(query, denied),
{
    if denied {
        Verdict { action: Action::Drop, blocked: Some(query) }
    } else {
        Verdict { action: Action::Pass, blocked: None }
    }
}

/// The classifier, called for every frame. `denied` looks a key up in the deny
/// map.
///
/// A frame without a DNS query to inspect passes; a query passes or is dropped as
/// the deny map has the key of its name or not.
pub fn dnsblk<F: Fn([u8; 8]) -> bool>(frame: &[u8], denied: F) -> (verdict: Verdict)
    requires
        forall|key: [u8; 8]| call_requires(denied, (key,)),
    ensures
        question_name(frame@) is None ==> verdict == (Verdict {
            action: Action::Pass,
            blocked: None,
        }),
        question_name(frame@) matches Some(name) ==> exists|
            query: DnsQuery,
            key: [u8; 8],
            found: bool,
        |
            #![trigger decided(query, found), call_ensures(denied, (key,), found)]
            is_query_of(query, frame@, name) && key@ == hash::be_bytes(query.hash)
                && call_ensures(denied, (key,), found) && verdict == decided(query, found),
        forall|keys: Set<Seq<u8>>| #[trigger]
            answers_for(denied, keys) ==> is_verdict(verdict, frame@, keys),
        verdict.blocked matches Some(query) ==> has_addresses_of(query.event, frame@),
{
    match find_query(frame) {
        Some(query) => {
            let key: [u8; 8] = hash::deny_key(query.hash);
            let found: bool = denied(key);
            decide(query, found)
        },
        None => Verdict { action: Action::Pass, blocked: None },
    }
}

/// Nothing behind the first 351 bytes of a frame has a part in what is found in
/// it: the longest headers, the longest name and the query type end there.
pub proof fn law_frame_prefix_suffices(frame: Seq<u8>, query: DnsQuery, name: Seq<u8>)
    requires
        frame.len() > FRAME_PREFIX_LEN,
    ensures
        question_name(frame.take(FRAME_PREFIX_LEN as int)) == question_name(frame),
        question_name(frame) == Some(name) ==> is_query_of(
            query,
            frame.take(FRAME_PREFIX_LEN as int),
            name,
        ) == is_query_of(query, frame, name),
{
    let prefix = frame.take(FRAME_PREFIX_LEN as int);
    assert(udp_datagram(prefix) == udp_datagram(frame));
    if let Some(udp) = udp_datagram(frame) {
        let at = udp.offset + 20;
        assert(at <= 94);
        assert(window_at(prefix, at) =~= window_at(frame, at));
        hash::lemma_through_nul_is_prefix(window_at(frame, at));
    }
}

/// The name in the event of a query has the hash that the query is looked up by,
/// unless it is cut off there.
pub proof fn law_event_has_the_hash_of_the_query(frame: Seq<u8>, query: DnsQuery, name: Seq<u8>)
    requires
        question_name(frame) == Some(name),
        is_query_of(query, frame, name),
        name.len() <= MAX_DOMAIN_LEN,
    ensures
        hash::name_hash(query.event.domain@) == query.hash,
{
    let window = window_at(frame, question_offset(frame)->0);
    if window.contains(0) {
        let zeros = Seq::new((MAX_DOMAIN_LEN - name.len()) as nat, |i: int| 0u8);
        hash::lemma_through_nul_ends(window);
        hash::lemma_through_nul_prefix(name, zeros);
    } else {
        assert forall|j: int| 0 <= j < name.len() implies name[j] != 0 by {
            assert(name[j] == window[j]);
        }
        hash::lemma_through_nul(name, name.len() as int);
        assert(query.event.domain@ =~= name);
    }
}

/// Of two queries for one name, both pass or both are dropped: nothing else in a
/// frame has a part in the decision.
pub proof fn law_the_name_decides(
    frame: Seq<u8>,
    verdict: Verdict,
    other: Seq<u8>,
    other_verdict: Verdict,
    keys: Set<Seq<u8>>,
)
    requires
        question_name(frame) == question_name(other),
        is_verdict(verdict, frame, keys),
        is_verdict(other_verdict, other, keys),
    ensures
        verdict.action == other_verdict.action,
{
}

/// A query frame whose question is the name `name`: the name stands where the
/// question starts, with a query type behind it.
pub open spec fn asks_for(frame: Seq<u8>, name: Seq<u8>) -> bool {
    &&& question_offset(frame) is Some
    &&& frame.len() >= question_offset(frame)->0 + name.len() + 2
    &&& frame.subrange(question_offset(frame)->0, question_offset(frame)->0 + name.len()) == name
}

/// A query for a wire-format name is found, and looked up by the hash of that
/// name, unless the name looks compressed.
pub proof fn law_query_is_found(frame: Seq<u8>, wire: Seq<u8>)
    requires
        wire.contains(0),
        hash::through_nul(wire).len() <= MAX_WIRE_LEN,
        !has_pointer(hash::through_nul(wire)),
        asks_for(frame, hash::through_nul(wire)),
    ensures
        question_name(frame) == Some(hash::through_nul(wire)),
        forall|query: DnsQuery|
            #[trigger] is_query_of(query, frame, hash::through_nul(wire)) ==> query.hash
                == hash::name_hash(wire),
{
    let at = question_offset(frame)->0;
    let name = hash::through_nul(wire);
    let window = window_at(frame, at);
    let behind = window.skip(name.len() as int);
    assert(window =~= name + behind);
    hash::lemma_through_nul_ends(wire);
    hash::lemma_through_nul_prefix(name, behind);
    assert(window[name.len() - 1] == 0);
}

/// What a UDP datagram is found in, and where. In an IPv4 header the protocol decides
/// and the header length says where the datagram starts; in an IPv6 header the next
/// header decides, and the datagram follows. Nothing else in a header has a part.
pub proof fn law_where_udp_is_found(frame: Seq<u8>)
    ensures
        ({
            let ipv4 = frame.len() >= 34 && frame[12] == 0x08 && frame[13] == 0x00 && frame[23]
                == 17;
            let ipv6 = frame.len() >= 54 && frame[12] == 0x86 && frame[13] == 0xDD && frame[20]
                == 17;
            &&& udp_datagram(frame) is Some <==> ipv4 || ipv6
            &&& ipv4 ==> (udp_datagram(frame) matches Some(udp) && udp.offset == 14 + 4 * (frame[14]
                % 16) && udp.src_addr == frame[26] + frame[27] * 0x100 + frame[28] * 0x1_0000
                + frame[29] * 0x100_0000 && udp.dst_addr == frame[30] + frame[31] * 0x100
                + frame[32] * 0x1_0000 + frame[33] * 0x100_0000)
            &&& ipv6 ==> (udp_datagram(frame) matches Some(udp) && udp.offset == 54 && udp.src_addr
                == 0 && udp.dst_addr == 0)
        }),
{
}

/// When a datagram is a DNS query with a question: one of its ports is 53, the
/// response bit is clear, and the question count is not zero. The question follows
/// the UDP and the DNS header.
pub proof fn law_where_a_question_is_found(frame: Seq<u8>)
    ensures
        udp_datagram(frame) is None ==> question_offset(frame) is None,
        udp_datagram(frame) matches Some(udp) ==> {
            let o = udp.offset as int;
            let query = {
                &&& frame.len() >= o + 20
                &&& (frame[o] == 0 && frame[o + 1] == 53) || (frame[o + 2] == 0 && frame[o + 3]
                    == 53)
                &&& frame[o + 10] < 0x80
                &&& frame[o + 12] != 0 || frame[o + 13] != 0
            };
            question_offset(frame) == if query {
                Some(o + 20)
            } else {
                None
            }
        },
        question_offset(frame) is None ==> question_name(frame) is None,
{
}

/// The name of a question ends with its first zero byte, if that is among its first
/// 255 bytes. The question has no name to look up if a byte of the name is 0xC0 or
/// more, or if less than two bytes follow it.
pub proof fn law_name_ends_with_its_zero_byte(frame: Seq<u8>, at: int, j: int)
    requires
        question_offset(frame) == Some(at),
        0 <= j < 255,
        at + j < frame.len(),
        frame[at + j] == 0,
        forall|i: int| at <= i < at + j ==> frame[i] != 0,
    ensures
        question_name(frame) == if (exists|i: int| at <= i <= at + j && frame[i] >= 0xC0)
            || frame.len() < at + j + 3 {
            None
        } else {
            Some(frame.subrange(at, at + j + 1))
        },
{
    let window = window_at(frame, at);
    let name = frame.subrange(at, at + j + 1);
    assert(window[j] == 0);
    assert forall|i: int| 0 <= i < j implies window[i] != 0 by {
        assert(window[i] == frame[at + i]);
    }
    hash::lemma_through_nul(window, j);
    assert(window.take(j + 1) =~= name);
    lemma_has_pointer(frame, at, name);
}

/// A question without a zero byte among its first 255 bytes is looked up by its
/// first 128 bytes, if none of them is 0xC0 or more and two bytes follow them.
pub proof fn law_question_without_a_zero_byte(frame: Seq<u8>, at: int)
    requires
        question_offset(frame) == Some(at),
        forall|i: int| at <= i < at + 255 && i < frame.len() ==> frame[i] != 0,
    ensures
        question_name(frame) == if frame.len() < at + 130 || (exists|i: int|
            at <= i < at + 128 && frame[i] >= 0xC0) {
            None
        } else {
            Some(frame.subrange(at, at + 128))
        },
{
    let window = window_at(frame, at);
    assert(!window.contains(0)) by {
        if window.contains(0) {
            let i = window.index_of(0);
            assert(frame[at + i] == 0);
        }
    }
    if frame.len() >= at + 130 {
        let name = frame.subrange(at, at + 128);
        assert(cut(window) =~= name);
        lemma_has_pointer(frame, at, name);
    } else {
        hash::lemma_through_nul_is_prefix(window);
    }
}

/// A byte of a name in its place in the frame.
proof fn lemma_has_pointer(frame: Seq<u8>, at: int, name: Seq<u8>)
    requires
        0 <= at,
        at + name.len() <= frame.len(),
        name == frame.subrange(at, at + name.len()),
    ensures
        has_pointer(name) <==> exists|i: int| at <= i < at + name.len() && frame[i] >= 0xC0,
{
    if has_pointer(name) {
        let i = choose|i: int| 0 <= i < name.len() && name[i] >= 0xC0;
        assert(frame[at + i] >= 0xC0);
    }
    if exists|i: int| at <= i < at + name.len() && frame[i] >= 0xC0 {
        let i = choose|i: int| at <= i < at + name.len() && frame[i] >= 0xC0;
        assert(name[i - at] >= 0xC0);
    }
}

/// The event of a query has the addresses, the ports, the query type behind the
/// name, and the first 128 bytes of the name with zeros behind a shorter one. The
/// query is looked up by the hash of the name.
pub proof fn law_what_a_query_holds(frame: Seq<u8>, query: DnsQuery, name: Seq<u8>)
    requires
        question_name(frame) == Some(name),
        is_query_of(query, frame, name),
    ensures
        query.hash == hash::name_hash(name),
        ({
            let udp = udp_datagram(frame)->0;
            let o = udp.offset as int;
            let event = query.event;
            &&& event.src_addr == udp.src_addr
            &&& event.dst_addr == udp.dst_addr
            &&& event.src_port == frame[o] * 256 + frame[o + 1]
            &&& event.dst_port == frame[o + 2] * 256 + frame[o + 3]
            &&& event.qtype == frame[o + 20 + name.len()] * 256 + frame[o + 21 + name.len()]
            &&& event._pad[0] == 0 && event._pad[1] == 0
            &&& forall|i: int|
                0 <= i < 128 ==> #[trigger] event.domain[i] == if i < name.len() {
                    name[i]
                } else {
                    0
                }
        }),
{
    let window = window_at(frame, question_offset(frame)->0);
    if window.contains(0) {
        hash::lemma_through_nul_ends(window);
    } else {
        assert forall|j: int| 0 <= j < name.len() implies name[j] != 0 by {
            assert(name[j] == window[j]);
        }
        hash::lemma_through_nul(name, name.len() as int);
    }
    assert(query.event._pad@[0] == 0 && query.event._pad@[1] == 0);
    assert forall|i: int| 0 <= i < 128 implies #[trigger] query.event.domain[i] == if i
        < name.len() {
        name[i]
    } else {
        0
    } by {
        assert(query.event.domain@[i] == domain_field(name)[i]);
    }
}

/// A frame is dropped exactly if it holds a query and the key of its name is in the
/// deny map. What is reported is that query, and nothing of a frame that passes.
pub proof fn law_what_is_dropped(verdict: Verdict, frame: Seq<u8>, keys: Set<Seq<u8>>)
    requires
        is_verdict(verdict, frame, keys),
    ensures
        verdict.action == Action::Drop <==> (question_name(frame) matches Some(name)
            && keys.contains(hash::be_bytes(hash::name_hash(name)))),
        verdict.blocked is Some <==> verdict.action == Action::Drop,
        verdict.blocked matches Some(query) ==> (question_name(frame) matches Some(name)
            && is_query_of(query, frame, name)),
{
    if let Some(name) = question_name(frame) {
        let query = choose|query: DnsQuery| #[trigger]
            is_query_of(query, frame, name) && verdict == decided(
                query,
                keys.contains(hash::be_bytes(query.hash)),
            );
        law_what_a_query_holds(frame, query, name);
    }
}

/// A query is dropped and reported exactly if it is denied.
pub proof fn law_denied_is_dropped(query: DnsQuery, denied: bool)
    ensures
        decided(query, denied).action == Action::Drop <==> denied,
        decided(query, denied).blocked == if denied {
            Some(query)
        } else {
            None
        },
{
}

/// A lookup that tells whether a key is among the keys answers for them.
pub proof fn law_lookup_answers_for_its_keys<F: Fn([u8; 8]) -> bool>(
    denied: F,
    keys: Set<Seq<u8>>,
)
    requires
        forall|key: [u8; 8], found: bool| #[trigger]
            call_ensures(denied, (key,), found) ==> found == keys.contains(key@),
    ensures
        answers_for(denied, keys),
{
}

/// Of two IPv4 frames that agree in type, header length, protocol, and from the UDP
/// header on, both hold the same question or none, whatever else their headers hold:
/// flags, fragment offset, identification, time to live, addresses, options.
pub proof fn law_other_ipv4_header_bytes_do_not_matter(frame: Seq<u8>, other: Seq<u8>)
    requires
        frame.len() == other.len(),
        frame.len() >= 34,
        frame[12] == 0x08 && other[12] == 0x08,
        frame[13] == 0x00 && other[13] == 0x00,
        frame[14] % 16 == other[14] % 16,
        frame[23] == other[23],
        forall|i: int| 14 + 4 * (frame[14] % 16) <= i < frame.len() ==> frame[i] == other[i],
    ensures
        question_name(frame) == question_name(other),
{
    law_where_udp_is_found(frame);
    law_where_udp_is_found(other);
    lemma_same_behind(frame, other);
}

/// Of two IPv6 frames that agree in type, next header, and from the UDP header on,
/// both hold the same question or none.
pub proof fn law_other_ipv6_header_bytes_do_not_matter(frame: Seq<u8>, other: Seq<u8>)
    requires
        frame.len() == other.len(),
        frame.len() >= 54,
        frame[12] == 0x86 && other[12] == 0x86,
        frame[13] == 0xDD && other[13] == 0xDD,
        frame[20] == other[20],
        forall|i: int| 54 <= i < frame.len() ==> frame[i] == other[i],
    ensures
        question_name(frame) == question_name(other),
{
    law_where_udp_is_found(frame);
    law_where_udp_is_found(other);
    lemma_same_behind(frame, other);
}

/// Frames with their UDP headers at one place that agree from there on hold the
/// same question.
proof fn lemma_same_behind(frame: Seq<u8>, other: Seq<u8>)
    requires
        frame.len() == other.len(),
        udp_datagram(frame) is Some <==> udp_datagram(other) is Some,
        udp_datagram(frame) matches Some(udp) ==> udp.offset == udp_datagram(other)->0.offset
            && forall|i: int| udp.offset <= i < frame.len() ==> frame[i] == other[i],
    ensures
        question_name(frame) == question_name(other),
{
    if let Some(udp) = udp_datagram(frame) {
        let o = udp.offset as int;
        if frame.len() >= o + 20 {
            assert(frame[o] == other[o] && frame[o + 1] == other[o + 1]);
            assert(frame[o + 2] == other[o + 2] && frame[o + 3] == other[o + 3]);
            assert(frame[o + 10] == other[o + 10]);
            assert(frame[o + 12] == other[o + 12] && frame[o + 13] == other[o + 13]);
            assert(window_at(frame, o + 20) =~= window_at(other, o + 20));
        }
    }
}

} // verus!
