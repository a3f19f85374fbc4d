//! Packet framing and the reordering/loss-tolerant receive buffer.
//!
//! The wire format is a four-byte big-endian sequence number followed by the
//! raw payload; nothing else. Received datagrams land in a fixed-capacity
//! circular buffer addressed by `sequence_number mod capacity`. Arrivals are
//! classified by their wrapped distance from the consumer cursor
//! `earliest_seq`: in-window arrivals are stored, far-ahead arrivals force
//! eviction of the oldest positions, and arrivals at least half the sequence
//! space behind are discarded as late. Consuming always advances the cursor
//! by exactly one, whether or not the slot held a packet — a skipped position
//! is how the protocol tolerates loss.
//!
//! Slots hold copies of the received bytes; nothing here reinterprets a
//! buffer in place. That is a storage choice only: the wire format above is
//! bit-exact either way.

use crate::PACKET_PAYLOAD_SIZE_THRESHOLD;
use vstd::prelude::*;
use vstd::slice::slice_to_vec;
use vstd::wrapping::u32_specs;

verus! {

/// Bytes in a packet header: one 32-bit sequence number in big-endian order.
pub const HEADER_SIZE: usize = 4;

/// An arriving sequence number whose wrapped distance from `earliest_seq` is
/// at least this threshold (half the sequence space) is treated as late.
pub const LATE_THRESHOLD: u32 = 0x7FFF_FFFF;

/// Wrapped distance from `earliest` forward to `seq` on the cyclic sequence
/// number line.
pub open spec fn seq_delta(seq: u32, earliest: u32) -> u32 {
    u32_specs::wrapping_sub(seq, earliest)
}

/// The four header bytes carrying `seq` in big-endian order.
pub open spec fn spec_header_bytes(seq: u32) -> Seq<u8> {
    seq![(seq >> 24) as u8, (seq >> 16) as u8, (seq >> 8) as u8, seq as u8]
}

/// The sequence number carried by the first four bytes of a datagram.
pub open spec fn spec_header_seq(bytes: Seq<u8>) -> u32
    recommends
        bytes.len() >= 4,
{
    ((bytes[0] as u32) << 24) | ((bytes[1] as u32) << 16) | ((bytes[2] as u32) << 8) | (
    bytes[3] as u32)
}

/// A framed packet: the header bytes for `seq`, then the payload unchanged.
pub open spec fn spec_frame(seq: u32, payload: Seq<u8>) -> Seq<u8> {
    spec_header_bytes(seq) + payload
}

/// Parsing a datagram: `None` for anything shorter than a header; otherwise
/// the header's sequence number and the remaining bytes as the payload.
pub open spec fn spec_parse(bytes: Seq<u8>) -> Option<(u32, Seq<u8>)> {
    if bytes.len() < HEADER_SIZE {
        None
    } else {
        Some((spec_header_seq(bytes), bytes.skip(HEADER_SIZE as int)))
    }
}

/// Write the header for `seq` followed by `payload` into a fresh buffer.
/// Exactly `HEADER_SIZE + payload.len()` bytes are produced.
pub fn frame_packet(seq: u32, payload: &[u8]) -> (r: Vec<u8>)
    requires
        payload@.len() <= PACKET_PAYLOAD_SIZE_THRESHOLD,
    ensures
        r@ == spec_frame(seq, payload@),
{
    let mut r: Vec<u8> = Vec::new();
    r.push((seq >> 24) as u8);
    r.push((seq >> 16) as u8);
    r.push((seq >> 8) as u8);
    r.push(seq as u8);
    let mut i: usize = 0;
    while i < payload.len()
        invariant
            i <= payload@.len(),
            r@ == spec_header_bytes(seq) + payload@.take(i as int),
        decreases payload@.len() - i,
        {
        r.push(payload[i]);
        proof {
            assert(payload@.take(i + 1) =~= payload@.take(i as int).push(payload@[i as int]));
        }
        i = i + 1;
    }
    proof {
        assert(payload@.take(payload@.len() as int) =~= payload@);
    }
    r
}

/// Validate and split a received datagram: the sequence number from the
/// header and a copy of the payload bytes, or `None` if the datagram is too
/// short to hold a header.
pub fn parse_packet(bytes: &[u8]) -> (r: Option<(u32, Vec<u8>)>)
    ensures
        match r {
            None => spec_parse(bytes@) is None,
            Some((seq, payload)) => spec_parse(bytes@) == Some((seq, payload@)),
        },
{
    if bytes.len() < HEADER_SIZE {
        return None;
    }
    let seq: u32 = ((bytes[0] as u32) << 24) | ((bytes[1] as u32) << 16) | ((bytes[2] as u32) << 8)
        | (bytes[3] as u32);
    let payload_slice: &[u8] = vstd::slice::slice_subrange(bytes, HEADER_SIZE, bytes.len());
    let payload: Vec<u8> = slice_to_vec(payload_slice);
    Some((seq, payload))
}

/// Framing then parsing gives back exactly the sequence number and payload
/// that went in, byte for byte.
pub proof fn lemma_frame_parse_round_trip(seq: u32, payload: Seq<u8>)
    requires
        payload.len() <= PACKET_PAYLOAD_SIZE_THRESHOLD,
    ensures
        spec_parse(spec_frame(seq, payload)) == Some((seq, payload)),
{
    let framed = spec_frame(seq, payload);
    assert(framed.len() >= 4);
    assert(framed.skip(4) =~= payload);
    assert(framed[0] == (seq >> 24) as u8);
    assert(framed[1] == (seq >> 16) as u8);
    assert(framed[2] == (seq >> 8) as u8);
    assert(framed[3] == seq as u8);
    lemma_header_seq_round_trip(seq);
}

/// The big-endian byte decomposition of a `u32` reassembles to the same value.
proof fn lemma_header_seq_round_trip(seq: u32)
    ensures
        spec_header_seq(spec_header_bytes(seq)) == seq,
{
    assert(((((seq >> 24) as u8) as u32) << 24) | ((((seq >> 16) as u8) as u32) << 16) | ((((seq
        >> 8) as u8) as u32) << 8) | ((seq as u8) as u32) == seq) by (bit_vector);
}

/// Mathematical state of the circular receive buffer: the consumer cursor,
/// the early-latest span hint, and one entry per slot holding the bytes of a
/// received, not yet consumed datagram.
pub ghost struct BufferModel {
    /// The sequence number the consumer expects next.
    pub earliest: u32,
    /// How far ahead of `earliest` the most recently accepted packet was,
    /// saturating down as positions are consumed.
    pub span: u32,
    /// Slot contents, indexed by `sequence_number mod capacity`.
    pub slots: Seq<Option<Seq<u8>>>,
}

impl BufferModel {
    /// Number of slots.
    pub open spec fn cap(self) -> int {
        self.slots.len() as int
    }

    /// Capacity is positive and small against the sequence space, and the
    /// span hint never reaches the capacity.
    pub open spec fn wf(self) -> bool {
        &&& 1 <= self.cap() < LATE_THRESHOLD
        &&& (self.span as int) < self.cap()
    }

    /// The slot index a sequence number is stored at.
    pub open spec fn slot_index(self, seq: u32) -> int {
        (seq as int) % self.cap()
    }

    /// Contents of the slot a sequence number maps to.
    pub open spec fn slot_of(self, seq: u32) -> Option<Seq<u8>> {
        self.slots[self.slot_index(seq)]
    }

    /// A sequence number is addressable only while its wrapped distance from
    /// the cursor is below the capacity.
    pub open spec fn in_window(self, seq: u32) -> bool {
        (seq_delta(seq, self.earliest) as int) < self.cap()
    }

    /// An arrival at least half the sequence space away is a late packet
    /// (or one from a wrapped-around past) and is discarded.
    pub open spec fn too_late(self, seq: u32) -> bool {
        seq_delta(seq, self.earliest) >= LATE_THRESHOLD
    }
}

/// The packet a slot's bytes parse to, if the slot is occupied and the bytes
/// hold at least a header.
pub open spec fn spec_slot_packet(slot: Option<Seq<u8>>) -> Option<(u32, Seq<u8>)> {
    match slot {
        None => None,
        Some(bytes) => spec_parse(bytes),
    }
}

/// What the consumer sees at the cursor without consuming it.
pub open spec fn spec_peek(m: BufferModel) -> Option<(u32, Seq<u8>)> {
    spec_slot_packet(m.slot_of(m.earliest))
}

/// One consume step: the cursor's slot is vacated, the cursor advances by
/// exactly one (wrapping), and the span hint decrements, saturating at zero.
/// This is also the eviction step of the insertion policy.
pub open spec fn spec_consume(m: BufferModel) -> BufferModel {
    BufferModel {
        earliest: u32_specs::wrapping_add(m.earliest, 1),
        span: if m.span == 0 {
            0u32
        } else {
            (m.span - 1) as u32
        },
        slots: m.slots.update(m.slot_index(m.earliest), None),
    }
}

/// Consume positions at the cursor until `seq` fits inside the window.
pub open spec fn spec_evict(m: BufferModel, seq: u32) -> BufferModel
    decreases seq_delta(seq, m.earliest),
    when m.slots.len() >= 1 && seq_delta(seq, m.earliest) < LATE_THRESHOLD
{
    if seq_delta(seq, m.earliest) >= m.slots.len() {
        spec_evict(spec_consume(m), seq)
    } else {
        m
    }
}

/// The full insertion policy for an arriving datagram claiming sequence
/// number `seq`: discard if late, otherwise evict as needed, raise the span
/// hint to the arrival's distance from the cursor, and store the bytes.
pub open spec fn spec_insert(m: BufferModel, seq: u32, data: Seq<u8>) -> BufferModel {
    if m.too_late(seq) {
        m
    } else {
        let evicted = spec_evict(m, seq);
        let delta = seq_delta(seq, evicted.earliest);
        BufferModel {
            earliest: evicted.earliest,
            span: if evicted.span >= delta {
                evicted.span
            } else {
                delta
            },
            slots: evicted.slots.update(evicted.slot_index(seq), Some(data)),
        }
    }
}

/// One slot of the circular buffer: the bytes of a fully received, not yet
/// consumed datagram, or nothing.
pub struct MaybeInitPacket {
    recv: Option<Vec<u8>>,
}

impl View for MaybeInitPacket {
    type V = Option<Seq<u8>>;

    closed spec fn view(&self) -> Option<Seq<u8>> {
        match self.recv {
            Some(bytes) => Some(bytes@),
            None => None,
        }
    }
}

impl MaybeInitPacket {
    /// Whether the slot holds a received, not yet consumed datagram.
    pub fn is_init(&self) -> (r: bool)
        ensures
            r == (self@ is Some),
    {
        self.recv.is_some()
    }

    /// The packet this slot's bytes parse to: header sequence number and a
    /// copy of the payload. `None` for an empty slot, and also for bytes too
    /// short to hold a header — garbage never crashes the consumer.
    pub fn get_data(&self) -> (r: Option<(u32, Vec<u8>)>)
        ensures
            match r {
                None => spec_slot_packet(self@) is None,
                Some((seq, payload)) => spec_slot_packet(self@) == Some((seq, payload@)),
            },
    {
        match &self.recv {
            None => None,
            Some(bytes) => parse_packet(bytes.as_slice()),
        }
    }
}

/// A fixed-capacity circular buffer of received datagrams, addressed by
/// wrapping sequence numbers.
pub struct RtpCircularBuffer {
    earliest_seq: u32,
    early_latest_span: u32,
    buf: Vec<MaybeInitPacket>,
}

impl View for RtpCircularBuffer {
    type V = BufferModel;

    closed spec fn view(&self) -> BufferModel {
        BufferModel {
            earliest: self.earliest_seq,
            span: self.early_latest_span,
            slots: Seq::new(self.buf@.len(), |i: int| self.buf@[i]@),
        }
    }
}

impl RtpCircularBuffer {
    /// An empty buffer with `capacity` slots and the cursor at sequence zero.
    pub fn new(capacity: usize) -> (r: Self)
        requires
            1 <= capacity < LATE_THRESHOLD as usize,
        ensures
            r@.wf(),
            r@.earliest == 0,
            r@.span == 0,
            r@.cap() == capacity,
            forall|i: int| 0 <= i < capacity ==> r@.slots[i] is None,
    {
        let mut buf: Vec<MaybeInitPacket> = Vec::new();
        let mut i: usize = 0;
        while i < capacity
            invariant
                i <= capacity,
                buf@.len() == i,
                forall|j: int| 0 <= j < i ==> buf@[j]@ is None,
            decreases capacity - i,
        {
            buf.push(MaybeInitPacket { recv: None });
            i = i + 1;
        }
        RtpCircularBuffer { earliest_seq: 0, early_latest_span: 0, buf }
    }

    /// The sequence number the consumer expects next.
    pub fn earliest_seq(&self) -> (r: u32)
        ensures
            r == self@.earliest,
    {
        self.earliest_seq
    }

    /// How far ahead of `earliest_seq` the most recently accepted packet was.
    pub fn early_latest_span(&self) -> (r: u32)
        ensures
            r == self@.span,
    {
        self.early_latest_span
    }

    /// The slot `seq_num` maps to, regardless of occupancy, or `None` when
    /// `seq_num` lies outside the acceptance window.
    pub fn get(&self, seq_num: u32) -> (r: Option<&MaybeInitPacket>)
        ensures
            match r {
                None => !self@.in_window(seq_num),
                Some(slot) => self@.in_window(seq_num) && slot@ == self@.slot_of(seq_num),
            },
    {
        if seq_num.wrapping_sub(self.earliest_seq) as usize >= self.buf.len() {
            None
        } else {
            let idx: usize = (seq_num as usize) % self.buf.len();
            Some(&self.buf[idx])
        }
    }

    /// The packet at the cursor, if the slot is occupied and parses; the
    /// buffer is not changed.
    pub fn peek_earliest_packet(&self) -> (r: Option<(u32, Vec<u8>)>)
        requires
            self@.wf(),
        ensures
            match r {
                None => spec_peek(self@) is None,
                Some((seq, payload)) => spec_peek(self@) == Some((seq, payload@)),
            },
    {
        match self.get(self.earliest_seq) {
            None => None,
            Some(slot) => slot.get_data(),
        }
    }

    /// Vacate the cursor's slot and advance: the one state change shared by
    /// consumption and eviction.
    fn advance_earliest(&mut self)
        requires
            old(self)@.wf(),
        ensures
            final(self)@ == spec_consume(old(self)@),
            final(self)@.wf(),
    {
        let idx: usize = (self.earliest_seq as usize) % self.buf.len();
        self.buf[idx] = MaybeInitPacket { recv: None };
        self.earliest_seq = self.earliest_seq.wrapping_add(1);
        self.early_latest_span = if self.early_latest_span == 0 {
            0
        } else {
            self.early_latest_span - 1
        };
        proof {
            assert(self@.slots =~= spec_consume(old(self)@).slots);
        }
    }

    /// Read the slot at the cursor and advance past it, in one step that the
    /// caller cannot separate. The cursor moves by exactly one and the slot
    /// is vacated whether or not it held a packet; an empty consume is how a
    /// lost position is skipped for good.
    pub fn consume_earliest_packet(&mut self) -> (r: Option<(u32, Vec<u8>)>)
        requires
            old(self)@.wf(),
        ensures
            final(self)@ == spec_consume(old(self)@),
            final(self)@.wf(),
            match r {
                None => spec_peek(old(self)@) is None,
                Some((seq, payload)) => spec_peek(old(self)@) == Some((seq, payload@)),
            },
    {
        let r = self.peek_earliest_packet();
        self.advance_earliest();
        r
    }

    /// Apply the insertion policy to an arriving datagram claiming `seq_num`:
    /// a late arrival is discarded and nothing changes; otherwise old
    /// positions are evicted until `seq_num` fits, the span hint is raised to
    /// its distance from the cursor, and the bytes are stored in its slot.
    /// Returns whether the datagram was accepted.
    pub fn insert_packet(&mut self, seq_num: u32, datagram: &[u8]) -> (accepted: bool)
        requires
            old(self)@.wf(),
            1 <= datagram@.len() <= HEADER_SIZE + PACKET_PAYLOAD_SIZE_THRESHOLD,
        ensures
            final(self)@ == spec_insert(old(self)@, seq_num, datagram@),
            accepted == !old(self)@.too_late(seq_num),
            final(self)@.wf(),
    {
        if seq_num.wrapping_sub(self.earliest_seq) >= LATE_THRESHOLD {
            return false;
        }
        while seq_num.wrapping_sub(self.earliest_seq) as usize >= self.buf.len()
            invariant
                self@.wf(),
                seq_delta(seq_num, self@.earliest) < LATE_THRESHOLD,
                self@.cap() == old(self)@.cap(),
                spec_evict(self@, seq_num) == spec_evict(old(self)@, seq_num),
            decreases seq_delta(seq_num, self@.earliest),
        {
            self.advance_earliest();
        }
        let delta: u32 = seq_num.wrapping_sub(self.earliest_seq);
        if self.early_latest_span < delta {
            self.early_latest_span = delta;
        }
        let idx: usize = (seq_num as usize) % self.buf.len();
        self.buf[idx] = MaybeInitPacket { recv: Some(slice_to_vec(datagram)) };
        proof {
            assert(self@.slots =~= spec_insert(old(self)@, seq_num, datagram@).slots);
        }
        true
    }
}

/// Adding `x` to a cursor moves the wrapped distance back to exactly `x`.
proof fn lemma_delta_of_add(earliest: u32, x: u32)
    ensures
        seq_delta(u32_specs::wrapping_add(earliest, x), earliest) == x,
{
}

/// Advancing the cursor by one brings a sequence number ahead of it exactly
/// one step closer.
proof fn lemma_delta_after_advance(seq: u32, earliest: u32)
    requires
        seq_delta(seq, earliest) >= 1,
    ensures
        seq_delta(seq, u32_specs::wrapping_add(earliest, 1)) == seq_delta(seq, earliest) - 1,
{
}

/// Folding one step into a chain of wrapping additions.
proof fn lemma_wrapping_add_chain(earliest: u32, x: u32)
    requires
        x < 0xFFFF_FFFF,
    ensures
        u32_specs::wrapping_add(u32_specs::wrapping_add(earliest, 1), x) == u32_specs::wrapping_add(
            earliest,
            (x + 1) as u32,
        ),
{
}

/// A sequence number whose wrapped distance from the cursor is at least half
/// the sequence space is discarded without any change to the buffer.
pub proof fn lemma_late_arrival_discarded(m: BufferModel, seq: u32, data: Seq<u8>)
    requires
        seq_delta(seq, m.earliest) >= LATE_THRESHOLD,
    ensures
        spec_insert(m, seq, data) == m,
{
}

/// An arrival inside the acceptance window is stored in its slot without
/// moving the cursor and without touching any other slot; the span hint
/// rises to the arrival's distance if that is further than any seen before.
pub proof fn lemma_in_window_insert(m: BufferModel, seq: u32, data: Seq<u8>)
    requires
        m.wf(),
        m.in_window(seq),
    ensures
        ({
            let r = spec_insert(m, seq, data);
            &&& r.earliest == m.earliest
            &&& r.slot_of(seq) == Some(data)
            &&& forall|i: int| 0 <= i < m.cap() && i != m.slot_index(seq) ==> r.slots[i] == m.slots[i]
            &&& r.span == (if m.span >= seq_delta(seq, m.earliest) {
                m.span
            } else {
                seq_delta(seq, m.earliest)
            })
        }),
{
    assert(!m.too_late(seq));
    assert(spec_evict(m, seq) == m);
}

/// Consuming advances the cursor by exactly one (wrapping), vacates exactly
/// the slot the cursor occupied, and leaves every other slot as it was —
/// whether or not the vacated slot held a packet.
pub proof fn lemma_consume_always_advances(m: BufferModel)
    requires
        m.wf(),
    ensures
        spec_consume(m).earliest == u32_specs::wrapping_add(m.earliest, 1),
        spec_consume(m).slot_of(m.earliest) is None,
        spec_consume(m).slots.len() == m.slots.len(),
        forall|i: int|
            0 <= i < m.cap() && i != m.slot_index(m.earliest) ==> spec_consume(m).slots[i]
                == m.slots[i],
{
}

/// The span hint rises only when an accepted packet arrives further ahead of
/// the cursor than any seen before, falls by exactly one (saturating at
/// zero) on each consume, and never moves for a discarded arrival.
pub proof fn lemma_span_updates(m: BufferModel, seq: u32, data: Seq<u8>)
    requires
        m.wf(),
    ensures
        spec_consume(m).span == (if m.span == 0 {
            0u32
        } else {
            (m.span - 1) as u32
        }),
        m.in_window(seq) ==> spec_insert(m, seq, data).span == (if m.span >= seq_delta(
            seq,
            m.earliest,
        ) {
            m.span
        } else {
            seq_delta(seq, m.earliest)
        }),
        m.too_late(seq) ==> spec_insert(m, seq, data).span == m.span,
{
    if m.in_window(seq) {
        assert(!m.too_late(seq));
        assert(spec_evict(m, seq) == m);
    }
}

/// What a chain of evictions does: for an accepted arrival at wrapped
/// distance `delta >= capacity`, exactly `delta - capacity + 1` positions are
/// consumed, the cursor lands so that the arrival sits at the far edge of
/// the window, the consumed positions' slots are vacant, and a vacant slot
/// never becomes occupied.
proof fn lemma_evict_chain(m: BufferModel, seq: u32)
    requires
        m.wf(),
        m.cap() <= seq_delta(seq, m.earliest) < LATE_THRESHOLD,
    ensures
        ({
            let r = spec_evict(m, seq);
            let evictions = seq_delta(seq, m.earliest) - m.cap() + 1;
            &&& r.wf()
            &&& r.slots.len() == m.slots.len()
            &&& r.earliest == u32_specs::wrapping_add(m.earliest, evictions as u32)
            &&& seq_delta(seq, r.earliest) == m.cap() - 1
            &&& forall|j: int|
                0 <= j < evictions ==> r.slots[m.slot_index(
                    #[trigger] u32_specs::wrapping_add(m.earliest, j as u32),
                )] is None
            &&& forall|i: int| 0 <= i < m.cap() && m.slots[i] is None ==> r.slots[i] is None
        }),
    decreases seq_delta(seq, m.earliest),
{
    let delta = seq_delta(seq, m.earliest);
    let evictions = delta - m.cap() + 1;
    let stepped = spec_consume(m);
    lemma_delta_after_advance(seq, m.earliest);
    assert(seq_delta(seq, stepped.earliest) == delta - 1);
    assert(stepped.wf());
    if delta == m.cap() {
        assert(spec_evict(m, seq) == spec_evict(stepped, seq));
        assert(spec_evict(stepped, seq) == stepped);
        assert(stepped.earliest == u32_specs::wrapping_add(m.earliest, 1));
        assert(forall|j: int|
            0 <= j < 1 ==> #[trigger] u32_specs::wrapping_add(m.earliest, j as u32) == m.earliest);
    } else {
        lemma_evict_chain(stepped, seq);
        let r = spec_evict(stepped, seq);
        assert(spec_evict(m, seq) == r);
        let inner = seq_delta(seq, stepped.earliest) - m.cap() + 1;
        assert(inner == evictions - 1);
        lemma_wrapping_add_chain(m.earliest, inner as u32);
        assert(r.earliest == u32_specs::wrapping_add(m.earliest, evictions as u32));
        assert forall|j: int|
            0 <= j < evictions implies r.slots[m.slot_index(
            #[trigger] u32_specs::wrapping_add(m.earliest, j as u32),
        )] is None by {
            if j == 0 {
                assert(stepped.slots[m.slot_index(m.earliest)] is None);
                assert(r.slots[m.slot_index(m.earliest)] is None);
            } else {
                lemma_wrapping_add_chain(m.earliest, (j - 1) as u32);
                assert(u32_specs::wrapping_add(stepped.earliest, (j - 1) as u32)
                    == u32_specs::wrapping_add(m.earliest, j as u32));
                assert(r.slots[stepped.slot_index(
                    u32_specs::wrapping_add(stepped.earliest, (j - 1) as u32),
                )] is None);
            }
        }
    }
}

/// Inserting a packet `k` positions past the window of a buffer with cursor
/// `E` and capacity `N` (sequence number `E + N + k`, wrapping) moves the
/// cursor to `E + k + 1`, stores the packet in its slot, raises the span
/// hint to the window's far edge, and leaves no occupied slot at any of the
/// skipped positions `E`, …, `E + k`.
pub proof fn lemma_eviction(m: BufferModel, k: u32, seq: u32, data: Seq<u8>)
    requires
        m.wf(),
        m.cap() + k < LATE_THRESHOLD,
        seq == u32_specs::wrapping_add(m.earliest, (m.cap() + k) as u32),
    ensures
        ({
            let r = spec_insert(m, seq, data);
            &&& r.earliest == u32_specs::wrapping_add(m.earliest, (k + 1) as u32)
            &&& r.slot_of(seq) == Some(data)
            &&& r.span == (m.cap() - 1) as u32
            &&& forall|j: u32|
                j <= k && r.slot_index(u32_specs::wrapping_add(m.earliest, j)) != r.slot_index(seq)
                    ==> r.slot_of(u32_specs::wrapping_add(m.earliest, j)) is None
        }),
{
    lemma_delta_of_add(m.earliest, (m.cap() + k) as u32);
    assert(seq_delta(seq, m.earliest) == m.cap() + k);
    assert(!m.too_late(seq));
    lemma_evict_chain(m, seq);
    let evicted = spec_evict(m, seq);
    assert(seq_delta(seq, evicted.earliest) == m.cap() - 1);
    let r = spec_insert(m, seq, data);
    assert(r.slots == evicted.slots.update(evicted.slot_index(seq), Some(data)));
    assert forall|j: u32|
        j <= k && r.slot_index(u32_specs::wrapping_add(m.earliest, j)) != r.slot_index(seq)
            implies r.slot_of(u32_specs::wrapping_add(m.earliest, j)) is None by {
        assert(evicted.slots[m.slot_index(u32_specs::wrapping_add(m.earliest, j as int as u32))]
            is None);
    }
}

/// Sequence-stamping state of a sender: a running counter, initialized to
/// zero, advanced by exactly one for each framed datagram. Handing the framed
/// bytes to a transport is the caller's concern.
pub struct RtpSender {
    seq_num: u32,
}

impl View for RtpSender {
    type V = u32;

    closed spec fn view(&self) -> u32 {
        self.seq_num
    }
}

impl RtpSender {
    /// A sender whose next packet carries sequence number zero.
    pub fn new() -> (r: Self)
        ensures
            r@ == 0,
    {
        RtpSender { seq_num: 0 }
    }

    /// The sequence number the next framed packet will carry.
    pub fn seq_num(&self) -> (r: u32)
        ensures
            r == self@,
    {
        self.seq_num
    }

    /// Frame `payload` under the current sequence number and advance the
    /// counter by exactly one, wrapping — one datagram per call, whatever the
    /// payload size.
    pub fn frame_next(&mut self, payload: &[u8]) -> (r: Vec<u8>)
        requires
            payload@.len() <= PACKET_PAYLOAD_SIZE_THRESHOLD,
        ensures
            r@ == spec_frame(old(self)@, payload@),
            final(self)@ == u32_specs::wrapping_add(old(self)@, 1),
    {
        let framed = frame_packet(self.seq_num, payload);
        self.seq_num = self.seq_num.wrapping_add(1);
        framed
    }
}

} // verus!
