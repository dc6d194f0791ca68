//! The event queue is one of two information outputs of the orderbook.
//!
//! It provides a linear event-based interface to propagate the matching and
//! modifying of orders to other use-case specific data structures: a circular
//! buffer of events, each with two slots of callback information.
use crate::error::AccountError;
use crate::state::layout::FixedBytes;
use crate::state::{AccountTag, Side};
use vstd::bytes::*;
use vstd::prelude::*;

verus! {

/// Represents an order being filled, a match between two parties.
#[derive(Clone, Copy, Debug, PartialEq, Eq)]
pub struct FillEvent {
    /// The u8 representation for an [`EventTag`]
    pub tag: u8,
    /// The u8 representation for a [`Side`] enum
    pub taker_side: u8,
    pub _padding: [u8; 6],
    /// The total quote size of the transaction
    pub quote_size: u64,
    /// The order id of the maker order
    pub maker_order_id: u128,
    /// The total base size of the transaction
    pub base_size: u64,
}

impl FillEvent {
    /// Byte length of the FillEvent object
    pub const LEN: usize = 48;
}

/// Represents an order being modified or yanked from the orderbook without
/// being matched.
#[derive(Clone, Copy, Debug, PartialEq, Eq)]
pub struct OutEvent {
    /// The u8 representation for an [`EventTag`]
    pub tag: u8,
    /// The u8 representation for a [`Side`] enum
    pub side: u8,
    /// Whether the order was deleted
    pub delete: u8,
    pub _padding: [u8; 13],
    /// The order id of the maker order
    pub order_id: u128,
    /// The total base size of the transaction
    pub base_size: u64,
}

/// A fill event in the queue, with the callback information of both
/// parties.
#[derive(Clone, Copy, Debug, PartialEq, Eq)]
pub struct FillEventRef<C> {
    pub event: FillEvent,
    pub maker_callback_info: C,
    pub taker_callback_info: C,
}

/// An out event in the queue, with the callback information of the order's
/// owner.
#[derive(Clone, Copy, Debug, PartialEq, Eq)]
pub struct OutEventRef<C> {
    pub event: OutEvent,
    pub callback_info: C,
}

/// An event of the queue.
#[derive(Clone, Copy, Debug, PartialEq, Eq)]
pub enum EventRef<C> {
    Fill(FillEventRef<C>),
    Out(OutEventRef<C>),
}

/// The kind of an event, in its first byte.
#[derive(Clone, Copy, Debug, PartialEq, Eq, Structural)]
pub enum EventTag {
    Fill,
    Out,
}

impl EventTag {
    /// The byte that stands for the tag.
    pub open spec fn spec_as_u8(&self) -> u8 {
        match self {
            EventTag::Fill => 0,
            EventTag::Out => 1,
        }
    }

    /// The byte that stands for the tag.
    pub fn as_u8(&self) -> (r: u8)
        ensures
            r == self.spec_as_u8(),
    {
        match self {
            EventTag::Fill => 0,
            EventTag::Out => 1,
        }
    }

    /// The tag that a byte stands for, if any.
    pub fn from_u8(b: u8) -> (r: Option<EventTag>)
        ensures
            b == 0 ==> r == Some(EventTag::Fill),
            b == 1 ==> r == Some(EventTag::Out),
            b > 1 ==> r is None,
    {
        if b == 0 {
            Some(EventTag::Fill)
        } else if b == 1 {
            Some(EventTag::Out)
        } else {
            None
        }
    }
}

/// The eight bytes of `x`, least significant first.
pub open spec fn le8(x: u64) -> Seq<u8> {
    spec_u64_to_le_bytes(x)
}

/// An out event stored in the layout of a fill event: the bytes stay where
/// they are, so the out event's padding carries the fill event's padding and
/// quote size.
pub open spec fn spec_out_as_fill(e: OutEvent) -> FillEvent {
    FillEvent {
        tag: e.tag,
        taker_side: e.side,
        _padding: [e.delete, e._padding[0], e._padding[1], e._padding[2], e._padding[3], e._padding[4]],
        quote_size: spec_u64_from_le_bytes(e._padding@.subrange(5, 13)),
        maker_order_id: e.order_id,
        base_size: e.base_size,
    }
}

/// A stored fill event read back as an out event.
pub open spec fn spec_fill_as_out(f: FillEvent) -> OutEvent {
    OutEvent {
        tag: f.tag,
        side: f.taker_side,
        delete: f._padding[0],
        _padding: [
            f._padding[1],
            f._padding[2],
            f._padding[3],
            f._padding[4],
            f._padding[5],
            le8(f.quote_size)[0],
            le8(f.quote_size)[1],
            le8(f.quote_size)[2],
            le8(f.quote_size)[3],
            le8(f.quote_size)[4],
            le8(f.quote_size)[5],
            le8(f.quote_size)[6],
            le8(f.quote_size)[7],
        ],
        order_id: f.maker_order_id,
        base_size: f.base_size,
    }
}

/// A stored out event reads back as itself.
pub proof fn lemma_out_event_roundtrip(e: OutEvent)
    ensures
        spec_fill_as_out(spec_out_as_fill(e)) == e,
{
    lemma_auto_spec_u64_to_from_le_bytes();
    let s = e._padding@.subrange(5, 13);
    assert(s.len() == 8);
    let q = spec_u64_from_le_bytes(s);
    assert(spec_u64_to_le_bytes(q) == s);
    let r = spec_fill_as_out(spec_out_as_fill(e));
    assert(r._padding@ =~= e._padding@);
    assert(r._padding == e._padding);
}

/// A stored fill event read as an out event and stored back is unchanged.
pub proof fn lemma_fill_event_roundtrip(f: FillEvent)
    ensures
        spec_out_as_fill(spec_fill_as_out(f)) == f,
{
    lemma_auto_spec_u64_to_from_le_bytes();
    let o = spec_fill_as_out(f);
    assert(o._padding@.subrange(5, 13) =~= le8(f.quote_size));
    let r = spec_out_as_fill(o);
    assert(r._padding@ =~= f._padding@);
    assert(r._padding == f._padding);
}

/// An event that can be stored in the queue.
pub trait Event: Sized + Copy {
    /// The event as it is stored, with its tag set.
    spec fn spec_to_generic(&self) -> FillEvent;

    /// The event as it is stored, with its tag set.
    fn to_generic(&self) -> (r: FillEvent)
        ensures
            r == self.spec_to_generic(),
    ;
}

impl Event for FillEvent {
    open spec fn spec_to_generic(&self) -> FillEvent {
        FillEvent { tag: 0, ..*self }
    }

    fn to_generic(&self) -> (r: FillEvent) {
        FillEvent { tag: EventTag::Fill.as_u8(), ..*self }
    }
}

impl Event for OutEvent {
    open spec fn spec_to_generic(&self) -> FillEvent {
        spec_out_as_fill(OutEvent { tag: 1, ..*self })
    }

    fn to_generic(&self) -> (r: FillEvent) {
        let p = self._padding;
        let ps = p.as_slice();
        let q = u64_from_le_bytes(vstd::slice::slice_subrange(ps, 5, 13));
        FillEvent {
            tag: EventTag::Out.as_u8(),
            taker_side: self.side,
            _padding: [self.delete, p[0], p[1], p[2], p[3], p[4]],
            quote_size: q,
            maker_order_id: self.order_id,
            base_size: self.base_size,
        }
    }
}

/// Reads a stored event as an out event.
fn fill_as_out(f: &FillEvent) -> (r: OutEvent)
    ensures
        r == spec_fill_as_out(*f),
{
    let b = u64_to_le_bytes(f.quote_size);
    let p = f._padding;
    OutEvent {
        tag: f.tag,
        side: f.taker_side,
        delete: p[0],
        _padding: [p[1], p[2], p[3], p[4], p[5], b[0], b[1], b[2], b[3], b[4], b[5], b[6], b[7]],
        order_id: f.maker_order_id,
        base_size: f.base_size,
    }
}

// ------------------------------------------------------------------------
// Event Queue
/// Describes the current state of the event queue
#[derive(Clone, Copy, Debug)]
pub struct EventQueueHeader {
    /// The current event
    pub head: u64,
    /// The current event queue length
    pub count: u64,
    pub seq_num: u64,
}

impl EventQueueHeader {
    /// The byte size for the EventQueueHeader object
    pub const LEN: usize = 24;
}

/// The event queue: a header and a circular buffer of events, with two
/// callback information slots per event (maker, then taker).
pub struct EventQueue<C> {
    pub header: EventQueueHeader,
    pub events: Vec<FillEvent>,
    pub callback_infos: Vec<C>,
}

/// The price and the sequence number that make an order id: the price is the
/// upper 64 bits; bids store the complement of the sequence number, so that
/// among bids of equal price the older one has the larger id.
pub open spec fn spec_order_id(limit_price: u64, side: Side, seq_num: u64) -> u128 {
    let lower: u64 = match side {
        Side::Bid => (u64::MAX - seq_num) as u64,
        Side::Ask => seq_num,
    };
    (limit_price as int * 0x1_0000_0000_0000_0000 + lower as int) as u128
}

proof fn lemma_bv_order_id(p: u64, l: u64)
    by (bit_vector)
    ensures
        ((p as u128) << 64u128) | (l as u128) == (p as u128) * 0x1_0000_0000_0000_0000u128 + (l as u128),
        !l == 0xFFFF_FFFF_FFFF_FFFFu64 - l,
{
}

impl<C> EventQueue<C> {
    /// The queue's buffers and header fit together.
    pub open spec fn wf(&self) -> bool {
        &&& self.events.len() > 0
        &&& self.callback_infos.len() >= 2 * self.events.len()
        &&& self.events.len() <= 0x4000_0000_0000_0000
        &&& self.header.head < self.events.len()
        &&& self.header.count <= self.events.len()
    }

    /// Whether the queue's buffers and header fit together.
    pub fn is_wf(&self) -> (r: bool)
        ensures
            r == self.wf(),
    {
        self.events.len() > 0 && self.callback_infos.len() / 2 >= self.events.len()
            && self.events.len() as u64 <= 0x4000_0000_0000_0000u64 && self.header.head
            < self.events.len() as u64
            && self.header.count <= self.events.len() as u64
    }

    /// The number of events that can still be pushed.
    pub open spec fn room(&self) -> int {
        self.events.len() - self.header.count
    }

    /// The physical slot of the `i`-th event of the queue.
    pub open spec fn slot(&self, i: int) -> int {
        (self.header.head + i) % (self.events.len() as int)
    }

    /// The events of the queue, oldest first, each with its maker and taker
    /// callback information.
    pub open spec fn entries(&self) -> Seq<(FillEvent, C, C)> {
        Seq::new(
            self.header.count as nat,
            |i: int|
                (
                    self.events@[self.slot(i)],
                    self.callback_infos@[2 * self.slot(i)],
                    self.callback_infos@[2 * self.slot(i) + 1],
                ),
        )
    }

    /// Generates the id of a new order from its price, its side and the
    /// next sequence number.
    pub fn gen_order_id(&mut self, limit_price: u64, side: Side) -> (r: u128)
        requires
            old(self).header.seq_num < u64::MAX,
        ensures
            r == spec_order_id(limit_price, side, old(self).header.seq_num),
            final(self).header.seq_num == old(self).header.seq_num + 1,
            final(self).header.head == old(self).header.head,
            final(self).header.count == old(self).header.count,
            final(self).events == old(self).events,
            final(self).callback_infos == old(self).callback_infos,
    {
        let seq_num = self.gen_seq_num();
        let upper = (limit_price as u128) << 64;
        let lower = match side {
            Side::Bid => !seq_num,
            Side::Ask => seq_num,
        };
        proof {
            lemma_bv_order_id(limit_price, lower);
            lemma_bv_order_id(limit_price, seq_num);
        }
        upper | (lower as u128)
    }

    fn gen_seq_num(&mut self) -> (r: u64)
        requires
            old(self).header.seq_num < u64::MAX,
        ensures
            r == old(self).header.seq_num,
            final(self).header.seq_num == old(self).header.seq_num + 1,
            final(self).header.head == old(self).header.head,
            final(self).header.count == old(self).header.count,
            final(self).events == old(self).events,
            final(self).callback_infos == old(self).callback_infos,
    {
        let seq_num = self.header.seq_num;
        self.header.seq_num = self.header.seq_num + 1;
        seq_num
    }

    /// Whether the queue holds as many events as it has room for.
    pub fn full(&self) -> (r: bool)
        requires
            self.wf(),
        ensures
            r == (self.header.count == self.events.len()),
    {
        self.header.count as usize == self.events.len()
    }

    /// The event stored at a physical slot, with its callback information.
    pub open spec fn spec_event_at(&self, slot: int) -> EventRef<C> {
        let event = self.events@[slot];
        if event.tag == 0 {
            EventRef::Fill(
                FillEventRef {
                    event,
                    maker_callback_info: self.callback_infos@[2 * slot],
                    taker_callback_info: self.callback_infos@[2 * slot + 1],
                },
            )
        } else {
            EventRef::Out(
                OutEventRef {
                    event: spec_fill_as_out(event),
                    callback_info: self.callback_infos@[2 * slot],
                },
            )
        }
    }

    /// The events of the queue, oldest first, as `peek_at` gives them.
    pub open spec fn spec_events(&self) -> Seq<EventRef<C>> {
        Seq::new(self.header.count as nat, |i: int| self.spec_event_at(self.slot(i)))
    }

    /// Every event in the queue carries a known tag.
    pub open spec fn tags_ok(&self) -> bool {
        forall|i: int| 0 <= i < self.entries().len() ==> #[trigger] self.entries()[i].0.tag <= 1
    }
}

impl<C: FixedBytes> EventQueue<C> {
    /// The byte size of the account of an event queue of a given capacity.
    pub open spec fn spec_allocation_size(desired_event_capacity: int) -> int {
        desired_event_capacity * (FillEvent::LEN + 2 * C::spec_size())
            + EventQueueHeader::LEN + 8
    }

    /// Compute the allocation size for an event queue of a desired capacity
    pub fn compute_allocation_size(desired_event_capacity: usize) -> (r: usize)
        requires
            FillEvent::LEN + 2 * C::spec_size() <= usize::MAX,
            Self::spec_allocation_size(desired_event_capacity as int) <= usize::MAX,
        ensures
            r == Self::spec_allocation_size(desired_event_capacity as int),
    {
        let c = C::size();
        proof {
            vstd::arithmetic::mul::lemma_mul_upper_bound(
                desired_event_capacity as int,
                desired_event_capacity as int,
                FillEvent::LEN + 2 * c as int,
                FillEvent::LEN + 2 * c as int,
            );
            if desired_event_capacity > 0 {
                vstd::arithmetic::mul::lemma_mul_inequality(
                    1,
                    desired_event_capacity as int,
                    FillEvent::LEN + 2 * c as int,
                );
            }
        }
        desired_event_capacity * (FillEvent::LEN + 2 * c) + EventQueueHeader::LEN + 8
    }

    /// The buffer of an event queue account must hold the tag, the header
    /// and at least five events, with no bytes left over.
    pub open spec fn spec_buffer_size_ok(len: int) -> bool {
        let event_size = FillEvent::LEN + 2 * C::spec_size();
        &&& len >= EventQueueHeader::LEN + 8 + 5 * event_size
        &&& (len - (EventQueueHeader::LEN + 8)) % event_size == 0
    }

    /// Checks the size of the buffer of an event queue account.
    pub fn check_buffer_size(buffer: &[u8]) -> (r: Result<(), AccountError>)
        requires
            FillEvent::LEN + 2 * C::spec_size() <= usize::MAX / 8,
        ensures
            r is Ok <==> Self::spec_buffer_size_ok(buffer@.len() as int),
            r is Err ==> r == Err::<(), AccountError>(AccountError::InvalidAccountData),
    {
        let header_offset: usize = EventQueueHeader::LEN + 8;
        let event_size: usize = FillEvent::LEN + 2 * C::size();
        let account_len = buffer.len();
        if account_len < header_offset + 5 * event_size {
            return Err(AccountError::InvalidAccountData);
        }
        if (account_len - header_offset) % event_size != 0 {
            return Err(AccountError::InvalidAccountData);
        }
        Ok(())
    }

}

impl<C: Copy> EventQueue<C> {
    /// Appends an event with its callback information. A `None` leaves the
    /// slot's previous callback information in place. A full queue hands the
    /// event back.
    pub fn push_back<Ev: Event>(
        &mut self,
        event: Ev,
        maker_callback_info: Option<&C>,
        taker_callback_info: Option<&C>,
    ) -> (r: Result<(), Ev>)
        requires
            old(self).wf(),
        ensures
            final(self).wf(),
            r is Err <==> old(self).header.count == old(self).events.len(),
            r matches Err(e) ==> e == event && *final(self) == *old(self),
            r is Ok ==> {
                let slot = old(self).slot(old(self).header.count as int);
                let maker = match maker_callback_info {
                    Some(c) => *c,
                    None => old(self).callback_infos@[2 * slot],
                };
                let taker = match taker_callback_info {
                    Some(c) => *c,
                    None => old(self).callback_infos@[2 * slot + 1],
                };
                &&& final(self).entries() == old(self).entries().push(
                    (event.spec_to_generic(), maker, taker),
                )
                &&& final(self).header.seq_num == old(self).header.seq_num
                &&& final(self).header.head == old(self).header.head
                &&& final(self).header.count == old(self).header.count + 1
                &&& final(self).events@ == old(self).events@.update(slot, event.spec_to_generic())
                &&& final(self).callback_infos@ == old(self).callback_infos@.update(
                    2 * slot,
                    maker,
                ).update(2 * slot + 1, taker)
            },
    {
        if self.full() {
            return Err(event);
        }
        let ghost s = *self;
        let generic_event = event.to_generic();
        let event_idx = ((self.header.head as usize) + (self.header.count as usize))
            % self.events.len();
        self.events.set(event_idx, generic_event);
        self.header.count = self.header.count + 1;
        if let Some(c) = maker_callback_info {
            self.callback_infos.set(event_idx * 2, *c);
        }
        if let Some(c) = taker_callback_info {
            self.callback_infos.set(event_idx * 2 + 1, *c);
        }
        proof {
            let n = s.events.len() as int;
            let slot = s.slot(s.header.count as int);
            assert(event_idx == slot);
            let t = *self;
            assert forall|i: int| 0 <= i < s.header.count implies t.slot(i) != slot && t.slot(i)
                == s.slot(i) by {
                vstd::arithmetic::div_mod::lemma_mod_bound(s.header.head + i, n);
                if t.slot(i) == slot {
                    vstd::arithmetic::div_mod::lemma_mod_equivalence(
                        s.header.head + s.header.count,
                        s.header.head + i,
                        n,
                    );
                    assert((s.header.head + s.header.count) - (s.header.head + i) == s.header.count - i);
                    vstd::arithmetic::div_mod::lemma_small_mod((s.header.count - i) as nat, n as nat);
                }
            }
            assert(t.entries() =~= s.entries().push(
                (
                    event.spec_to_generic(),
                    t.callback_infos@[2 * slot],
                    t.callback_infos@[2 * slot + 1],
                ),
            ));
        }
        Ok(())
    }
}

impl<C: Copy> EventQueue<C> {
    /// Retrieves the event at position `index` in the queue.
    pub fn peek_at(&self, index: u64) -> (r: Option<EventRef<C>>)
        requires
            self.wf(),
            self.tags_ok(),
        ensures
            r == (if index < self.header.count {
                Some(self.spec_event_at(self.slot(index as int)))
            } else {
                None
            }),
            index < self.header.count ==> r == Some(self.spec_events()[index as int]),
    {
        if self.header.count <= index {
            return None;
        }
        let event_idx = (self.header.head.checked_add(index).unwrap() as usize)
            % self.events.len();
        proof {
            vstd::arithmetic::div_mod::lemma_mod_bound(self.header.head + index, self.events.len() as int);
            assert(self.entries()[index as int].0.tag <= 1);
        }
        Some(self.get_event(event_idx))
    }

    fn get_event(&self, event_idx: usize) -> (r: EventRef<C>)
        requires
            self.wf(),
            event_idx < self.events.len(),
            self.events@[event_idx as int].tag <= 1,
        ensures
            r == self.spec_event_at(event_idx as int),
    {
        let event = self.events[event_idx];
        match EventTag::from_u8(event.tag).unwrap() {
            EventTag::Fill => EventRef::Fill(
                FillEventRef {
                    event,
                    maker_callback_info: self.callback_infos[2 * event_idx],
                    taker_callback_info: self.callback_infos[2 * event_idx + 1],
                },
            ),
            EventTag::Out => EventRef::Out(
                OutEventRef { event: fill_as_out(&event), callback_info: self.callback_infos[2 * event_idx] },
            ),
        }
    }

    /// Pop n entries from the event queue
    pub fn pop_n(&mut self, number_of_entries_to_pop: u64)
        requires
            old(self).wf(),
        ensures
            final(self).wf(),
            final(self).entries() == old(self).entries().skip(
                vstd::math::min(old(self).header.count as int, number_of_entries_to_pop as int),
            ),
            final(self).header.count == old(self).header.count - vstd::math::min(
                old(self).header.count as int,
                number_of_entries_to_pop as int,
            ),
            final(self).header.seq_num == old(self).header.seq_num,
            final(self).events == old(self).events,
            final(self).callback_infos == old(self).callback_infos,
    {
        let ghost s = *self;
        let capped_number_of_entries_to_pop = if self.header.count < number_of_entries_to_pop {
            self.header.count
        } else {
            number_of_entries_to_pop
        };
        self.header.count = self.header.count - capped_number_of_entries_to_pop;
        self.header.head = (self.header.head + capped_number_of_entries_to_pop) % (
        self.events.len() as u64);
        proof {
            let n = s.events.len() as int;
            let k = capped_number_of_entries_to_pop as int;
            vstd::arithmetic::div_mod::lemma_mod_bound(s.header.head + k, n);
            assert forall|i: int| 0 <= i < self.header.count implies self.slot(i) == s.slot(i + k) by {
                vstd::arithmetic::div_mod::lemma_add_mod_noop(s.header.head + k, i, n);
                vstd::arithmetic::div_mod::lemma_small_mod(i as nat, n as nat);
                assert(s.header.head + k + i == s.header.head + (i + k));
            }
            assert(self.entries() =~= s.entries().skip(k));
        }
    }

    /// Returns an iterator over all the queue's events
    pub fn iter(&self) -> (r: QueueIterator<'_, C>)
        ensures
            r.queue == self,
            r.current_index == 0,
            r.remaining == self.header.count,
            r.to_come() == self.spec_events(),
    {
        QueueIterator { queue: self, current_index: 0, remaining: self.header.count }
    }

    /// Checks whether the event queue is currently empty
    pub fn is_empty(&self) -> (r: bool)
        ensures
            r == (self.header.count == 0),
    {
        self.header.count == 0
    }

    /// Returns the current length of the event queue
    pub fn len(&self) -> (r: u64)
        ensures
            r == self.header.count,
    {
        self.header.count
    }
}

/// Utility struct for iterating over a queue
pub struct QueueIterator<'a, C> {
    pub queue: &'a EventQueue<C>,
    pub current_index: usize,
    pub remaining: u64,
}

impl<'a, C: Copy> QueueIterator<'a, C> {
    /// The events that the iterator has still to give, in order.
    pub open spec fn to_come(&self) -> Seq<EventRef<C>> {
        Seq::new(
            self.remaining as nat,
            |j: int| self.queue.spec_event_at(self.queue.slot(self.current_index + j)),
        )
    }

    /// An iterator that has given `current_index` events has the rest of
    /// the queue still to give: the events that `peek_at` finds from
    /// `current_index` on.
    pub proof fn lemma_to_come_is_rest_of_queue(&self)
        requires
            self.current_index + self.remaining == self.queue.header.count,
        ensures
            self.to_come() == self.queue.spec_events().subrange(
                self.current_index as int,
                self.queue.header.count as int,
            ),
    {
        assert(self.to_come() =~= self.queue.spec_events().subrange(
            self.current_index as int,
            self.queue.header.count as int,
        ));
    }

    /// The next event of the queue, oldest first.
    pub fn next(&mut self) -> (r: Option<EventRef<C>>)
        requires
            old(self).queue.wf(),
            old(self).queue.tags_ok(),
            old(self).current_index + old(self).remaining == old(self).queue.header.count,
        ensures
            final(self).queue == old(self).queue,
            final(self).current_index + final(self).remaining == final(self).queue.header.count,
            old(self).remaining == 0 ==> r is None && *final(self) == *old(self),
            old(self).remaining > 0 ==> {
                &&& r == Some(old(self).queue.spec_event_at(old(self).queue.slot(old(self).current_index as int)))
                &&& final(self).current_index == old(self).current_index + 1
                &&& final(self).remaining == old(self).remaining - 1
            },
            r == (if old(self).to_come().len() == 0 {
                None
            } else {
                Some(old(self).to_come()[0])
            }),
            final(self).to_come() == (if old(self).to_come().len() == 0 {
                old(self).to_come()
            } else {
                old(self).to_come().drop_first()
            }),
    {
        if self.remaining == 0 {
            return None;
        }
        let event_idx = ((self.queue.header.head as usize) + self.current_index)
            % self.queue.events.len();
        self.current_index = self.current_index + 1;
        self.remaining = self.remaining - 1;
        proof {
            let q = self.queue;
            let i = (self.current_index - 1) as int;
            vstd::arithmetic::div_mod::lemma_mod_bound(q.header.head + i, q.events.len() as int);
            assert(q.entries()[i].0.tag <= 1);
        }
        let r = Some(self.queue.get_event(event_idx));
        proof {
            assert(self.to_come() =~= old(self).to_come().drop_first());
        }
        r
    }
}

} // verus!
