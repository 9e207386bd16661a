//! The record of a blocked query, as the classifier sends it and the worker
//! reads it.
use vstd::prelude::*;

verus! {

/// Maximum length in bytes of a domain name in an event; a longer name is cut off.
pub const MAX_DOMAIN_LEN: usize = 128;

/// The bytes that an event takes in the ring buffer.
pub const BLOCK_EVENT_LEN: usize = 144;

/// DNS query type A (IPv4 address).
pub const DNS_TYPE_A: u16 = 1;

/// DNS query type AAAA (IPv6 address).
pub const DNS_TYPE_AAAA: u16 = 28;

/// Event produced by the eBPF program when a DNS query is blocked.
#[derive(Clone, Copy)]
pub struct BlockEvent {
    /// Source IPv4 address in network byte order (0 for IPv6): in the ring buffer
    /// its bytes stand as in the packet.
    pub src_addr: u32,
    /// Destination IPv4 address in network byte order (0 for IPv6).
    pub dst_addr: u32,
    /// Source port.
    pub src_port: u16,
    /// Destination port.
    pub dst_port: u16,
    /// DNS query type (A, AAAA, etc.).
    pub qtype: u16,
    /// Alignment padding.
    pub _pad: [u8; 2],
    /// Domain name in wire format (null-terminated, up to `MAX_DOMAIN_LEN` bytes;
    /// a longer one is cut off).
    pub domain: [u8; MAX_DOMAIN_LEN],
}

/// Validate that the Rust-side `BlockEvent` matches the eBPF-side layout.
#[must_use]
pub fn validate_block_event() -> (ok: bool)
    ensures
        ok == (vstd::layout::size_of::<BlockEvent>() == BLOCK_EVENT_LEN),
        ok == (vstd::layout::size_of::<BlockEvent>() == 144),
{
    core::mem::size_of::<BlockEvent>() == 4 + 4 + 2 + 2 + 2 + 2 + MAX_DOMAIN_LEN
}

/// The bytes of `x`, least significant first.
pub open spec fn le16(x: u16) -> Seq<u8> {
    seq![(x % 256) as u8, (x / 256) as u8]
}

/// The bytes of `x`, least significant first.
pub open spec fn le32(x: u32) -> Seq<u8> {
    seq![
        (x % 256) as u8,
        (x / 0x100 % 256) as u8,
        (x / 0x1_0000 % 256) as u8,
        (x / 0x100_0000) as u8,
    ]
}

impl BlockEvent {
    /// The event in the ring buffer: its fields in order, numbers least
    /// significant byte first.
    pub open spec fn bytes(self) -> Seq<u8> {
        le32(self.src_addr) + le32(self.dst_addr) + le16(self.src_port) + le16(self.dst_port)
            + le16(self.qtype) + self._pad@ + self.domain@
    }

    /// The bytes of the event, as they go into the ring buffer.
    pub fn encode(&self) -> (bytes: [u8; BLOCK_EVENT_LEN])
        ensures
            bytes@ == self.bytes(),
    {
        let mut out: [u8; BLOCK_EVENT_LEN] = [0u8; BLOCK_EVENT_LEN];
        out[0] = (self.src_addr % 256) as u8;
        out[1] = (self.src_addr / 0x100 % 256) as u8;
        out[2] = (self.src_addr / 0x1_0000 % 256) as u8;
        out[3] = (self.src_addr / 0x100_0000) as u8;
        out[4] = (self.dst_addr % 256) as u8;
        out[5] = (self.dst_addr / 0x100 % 256) as u8;
        out[6] = (self.dst_addr / 0x1_0000 % 256) as u8;
        out[7] = (self.dst_addr / 0x100_0000) as u8;
        out[8] = (self.src_port % 256) as u8;
        out[9] = (self.src_port / 256) as u8;
        out[10] = (self.dst_port % 256) as u8;
        out[11] = (self.dst_port / 256) as u8;
        out[12] = (self.qtype % 256) as u8;
        out[13] = (self.qtype / 256) as u8;
        out[14] = self._pad[0];
        out[15] = self._pad[1];
        let ghost head = out@.take(16);
        let mut i: usize = 0;
        while i < MAX_DOMAIN_LEN
            invariant
                i <= MAX_DOMAIN_LEN,
                out@.take(16) == head,
                forall|j: int| 0 <= j < i ==> out@[16 + j] == self.domain@[j],
            decreases MAX_DOMAIN_LEN - i,
        {
            out[16 + i] = self.domain[i];
            assert(out@.take(16) =~= head);
            i += 1;
        }
        proof {
            let fields = le32(self.src_addr) + le32(self.dst_addr) + le16(self.src_port) + le16(
                self.dst_port,
            ) + le16(self.qtype) + self._pad@;
            assert(fields =~= head);
            assert(out@ =~= self.bytes());
        }
        out
    }

    /// Reads an event off the front of a ring-buffer item; nothing where the
    /// item is too short to hold one.
    pub fn decode(item: &[u8]) -> (event: Option<BlockEvent>)
        ensures
            event == event_in(item@),
            event is Some <==> item@.len() >= BLOCK_EVENT_LEN,
            event matches Some(event) ==> event.bytes() == item@.take(BLOCK_EVENT_LEN as int),
    {
        if item.len() < BLOCK_EVENT_LEN {
            return None;
        }
        let mut domain: [u8; MAX_DOMAIN_LEN] = [0u8; MAX_DOMAIN_LEN];
        let mut i: usize = 0;
        while i < MAX_DOMAIN_LEN
            invariant
                i <= MAX_DOMAIN_LEN,
                item@.len() >= BLOCK_EVENT_LEN,
                forall|j: int| 0 <= j < i ==> domain@[j] == item@[16 + j],
            decreases MAX_DOMAIN_LEN - i,
        {
            domain[i] = item[16 + i];
            i += 1;
        }
        let event = BlockEvent {
            src_addr: read_le32(item, 0),
            dst_addr: read_le32(item, 4),
            src_port: read_le16(item, 8),
            dst_port: read_le16(item, 10),
            qtype: read_le16(item, 12),
            _pad: [item[14], item[15]],
            domain,
        };
        proof {
            let fields = le32(event.src_addr) + le32(event.dst_addr) + le16(event.src_port) + le16(
                event.dst_port,
            ) + le16(event.qtype) + event._pad@;
            assert(fields =~= item@.take(16));
            assert(event.bytes() =~= item@.take(BLOCK_EVENT_LEN as int));
            lemma_bytes_injective(event_in(item@)->0, event);
        }
        Some(event)
    }
}

/// The event whose bytes stand at the front of a ring-buffer item, if the item is
/// long enough.
pub open spec fn event_in(item: Seq<u8>) -> Option<BlockEvent> {
    if item.len() < BLOCK_EVENT_LEN {
        None
    } else {
        Some(choose|event: BlockEvent| #[trigger] event.bytes() == item.take(BLOCK_EVENT_LEN as int))
    }
}

/// The number whose bytes, least significant first, stand at `at`.
fn read_le16(item: &[u8], at: usize) -> (x: u16)
    requires
        at + 2 <= item@.len(),
    ensures
        le16(x) == item@.subrange(at as int, at + 2),
{
    let x: u16 = item[at] as u16 + item[at + 1] as u16 * 256;
    assert(le16(x) =~= item@.subrange(at as int, at + 2));
    x
}

/// The number whose bytes, least significant first, stand at `at`.
fn read_le32(item: &[u8], at: usize) -> (x: u32)
    requires
        at + 4 <= item@.len(),
    ensures
        le32(x) == item@.subrange(at as int, at + 4),
{
    let x: u32 = item[at] as u32 + item[at + 1] as u32 * 0x100 + item[at + 2] as u32 * 0x1_0000
        + item[at + 3] as u32 * 0x100_0000;
    proof {
        lemma_le32_of_bytes(
            item@[at as int],
            item@[at + 1],
            item@[at + 2],
            item@[at + 3],
        );
    }
    assert(le32(x) =~= item@.subrange(at as int, at + 4));
    x
}

/// The bytes of a number determine it.
proof fn lemma_le32_injective(x: u32, y: u32)
    requires
        le32(x) == le32(y),
    ensures
        x == y,
{
    let a = le32(x);
    let b = le32(y);
    assert(a[0] == b[0] && a[1] == b[1] && a[2] == b[2] && a[3] == b[3]);
    assert(x == y) by (bit_vector)
        requires
            x % 256 == y % 256,
            x / 0x100 % 256 == y / 0x100 % 256,
            x / 0x1_0000 % 256 == y / 0x1_0000 % 256,
            x / 0x100_0000 == y / 0x100_0000,
    ;
}

/// The bytes of a number that is made of four bytes, least significant first.
pub(crate) proof fn lemma_le32_of_bytes(a: u8, b: u8, c: u8, d: u8)
    ensures
        le32((a + b * 0x100 + c * 0x1_0000 + d * 0x100_0000) as u32) == seq![a, b, c, d],
{
    let x = (a + b * 0x100 + c * 0x1_0000 + d * 0x100_0000) as u32;
    let (b0, b1, b2, b3) = (a as u32, b as u32, c as u32, d as u32);
    assert(x % 256 == b0 && x / 0x100 % 256 == b1 && x / 0x1_0000 % 256 == b2 && x / 0x100_0000
        == b3) by (bit_vector)
        requires
            x == b0 + b1 * 0x100 + b2 * 0x1_0000 + b3 * 0x100_0000,
            b0 < 256,
            b1 < 256,
            b2 < 256,
            b3 < 256,
    ;
    assert(le32(x) =~= seq![a, b, c, d]);
}

/// Where each field stands in the bytes of an event.
proof fn lemma_fields(e: BlockEvent)
    ensures
        e.bytes().len() == BLOCK_EVENT_LEN,
        e.bytes().subrange(0, 4) == le32(e.src_addr),
        e.bytes().subrange(4, 8) == le32(e.dst_addr),
        e.bytes().subrange(8, 10) == le16(e.src_port),
        e.bytes().subrange(10, 12) == le16(e.dst_port),
        e.bytes().subrange(12, 14) == le16(e.qtype),
        e.bytes().subrange(14, 16) == e._pad@,
        e.bytes().subrange(16, 144) == e.domain@,
{
    let (src, dst) = (le32(e.src_addr), le32(e.dst_addr));
    assert(src.len() == 4 && dst.len() == 4);
    assert(e.bytes().subrange(0, 4) =~= src);
    assert(e.bytes().subrange(4, 8) =~= dst);
    assert(e.bytes().subrange(8, 10) =~= le16(e.src_port));
    assert(e.bytes().subrange(10, 12) =~= le16(e.dst_port));
    assert(e.bytes().subrange(12, 14) =~= le16(e.qtype));
    assert(e.bytes().subrange(14, 16) =~= e._pad@);
    assert(e.bytes().subrange(16, 144) =~= e.domain@);
}

proof fn lemma_le16_injective(x: u16, y: u16)
    requires
        le16(x) == le16(y),
    ensures
        x == y,
{
    let a = le16(x);
    let b = le16(y);
    assert(a[0] == b[0] && a[1] == b[1]);
}

/// Two events with the same bytes are the same event.
proof fn lemma_bytes_injective(a: BlockEvent, b: BlockEvent)
    requires
        a.bytes() == b.bytes(),
    ensures
        a == b,
{
    lemma_fields(a);
    lemma_fields(b);
    lemma_le32_injective(a.src_addr, b.src_addr);
    lemma_le32_injective(a.dst_addr, b.dst_addr);
    lemma_le16_injective(a.src_port, b.src_port);
    lemma_le16_injective(a.dst_port, b.dst_port);
    lemma_le16_injective(a.qtype, b.qtype);
    assert(a._pad =~= b._pad);
    assert(a.domain =~= b.domain);
}

/// What is read from the bytes of an event is that event, whatever follows them.
pub proof fn law_decode_undoes_encode(sent: BlockEvent, trailer: Seq<u8>)
    ensures
        event_in(sent.bytes() + trailer) == Some(sent),
{
    let item = sent.bytes() + trailer;
    assert(item.take(BLOCK_EVENT_LEN as int) =~= sent.bytes());
    lemma_bytes_injective(event_in(item)->0, sent);
}

/// What the bytes of a number are worth, least significant first.
proof fn lemma_le32_value(x: u32)
    ensures
        le32(x).len() == 4,
        le32(x)[0] + le32(x)[1] * 0x100 + le32(x)[2] * 0x1_0000 + le32(x)[3] * 0x100_0000 == x,
{
    let h1 = x / 0x100;
    let h2 = h1 / 0x100;
    let h3 = h2 / 0x100;
    assert(h2 == x / 0x1_0000);
    assert(h3 == x / 0x100_0000);
}

/// The bytes of an event are 144: four for each address, two for each port and for
/// the query type, two of padding, and the 128 of the domain. Numbers have their
/// least significant byte first.
pub proof fn law_where_the_fields_stand(event: BlockEvent)
    ensures
        ({
            let b = event.bytes();
            &&& b.len() == 144
            &&& event.src_addr == b[0] + b[1] * 0x100 + b[2] * 0x1_0000 + b[3] * 0x100_0000
            &&& event.dst_addr == b[4] + b[5] * 0x100 + b[6] * 0x1_0000 + b[7] * 0x100_0000
            &&& event.src_port == b[8] + b[9] * 0x100
            &&& event.dst_port == b[10] + b[11] * 0x100
            &&& event.qtype == b[12] + b[13] * 0x100
            &&& event._pad[0] == b[14] && event._pad[1] == b[15]
            &&& forall|i: int| 0 <= i < 128 ==> #[trigger] event.domain[i] == b[16 + i]
        }),
{
    let b = event.bytes();
    lemma_fields(event);
    lemma_le32_value(event.src_addr);
    lemma_le32_value(event.dst_addr);
    assert(b[0] == b.subrange(0, 4)[0] && b[1] == b.subrange(0, 4)[1]);
    assert(b[2] == b.subrange(0, 4)[2] && b[3] == b.subrange(0, 4)[3]);
    assert(b[4] == b.subrange(4, 8)[0] && b[5] == b.subrange(4, 8)[1]);
    assert(b[6] == b.subrange(4, 8)[2] && b[7] == b.subrange(4, 8)[3]);
    assert(b[8] == b.subrange(8, 10)[0] && b[9] == b.subrange(8, 10)[1]);
    assert(b[10] == b.subrange(10, 12)[0] && b[11] == b.subrange(10, 12)[1]);
    assert(b[12] == b.subrange(12, 14)[0] && b[13] == b.subrange(12, 14)[1]);
    assert(b[14] == b.subrange(14, 16)[0] && b[15] == b.subrange(14, 16)[1]);
    assert forall|i: int| 0 <= i < 128 implies #[trigger] event.domain[i] == b[16 + i] by {
        assert(b.subrange(16, 144)[i] == event.domain@[i]);
    }
}

/// An item holds an event exactly if it has the bytes for one, and which event it is
/// does not depend on what follows them.
pub proof fn law_what_holds_an_event(item: Seq<u8>, event: BlockEvent)
    ensures
        event_in(item) is None <==> item.len() < 144,
        item.len() >= 144 && item.take(144) == event.bytes() ==> event_in(item) == Some(event),
{
    if item.len() >= 144 && item.take(144) == event.bytes() {
        assert(item =~= event.bytes() + item.skip(144));
        law_decode_undoes_encode(event, item.skip(144));
    }
}

} // verus!
