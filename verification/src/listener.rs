//! The inbound half of the connection: frame accumulation, decoding, and
//! routing of decoded envelopes to per-address consumer queues.
//!
//! The listener owns the routing table and every queue.  The transport
//! layer feeds it raw stream chunks and reports I/O failures; callers
//! register interest in addresses and poll the handles they get back.
//! Register/unregister control frames are placed in an outbox for the
//! transport layer to write.

use vstd::prelude::*;
use crate::framing;
use crate::framing::FrameDecoder;
use crate::message::{
    ErrorMessage, ErrorMessageView, FrameTooLarge, InMessage, InMessageView, Message,
    MessageView, OutMessage, OutMessageView, RegisterMessage, TransportErrorKind, UserMessage,
};

verus! {

/// A caller-held handle to one address queue of a listener.
pub struct MessageConsumer {
    id: usize,
}

impl MessageConsumer {
    /// The queue this handle reads.
    pub closed spec fn queue_id(&self) -> int {
        self.id as int
    }
}

/// A caller-held handle to one error queue of a listener.
pub struct ErrorConsumer {
    id: usize,
}

impl ErrorConsumer {
    /// The queue this handle reads.
    pub closed spec fn queue_id(&self) -> int {
        self.id as int
    }
}

/// The model of a listener.
#[verifier::ext_equal]
pub struct ListenerView {
    /// Every address queue ever created, in creation order; an abandoned
    /// or superseded queue keeps its place and simply stops growing.
    pub queues: Seq<Seq<UserMessage<MessageView>>>,
    /// The routing table: address to queue index, addresses unique.
    pub table: Seq<(Seq<char>, int)>,
    /// Every error queue ever created.
    pub error_queues: Seq<Seq<UserMessage<ErrorMessageView>>>,
    /// The error queue currently receiving error notices, if any.
    pub error_slot: Option<int>,
    /// Control frames waiting for the transport layer to write them.
    pub outbox: Seq<Seq<u8>>,
    /// Stream bytes received and not yet consumed by a complete frame.
    pub buffered: Seq<u8>,
    /// Whether a fatal transport error has stopped the read loop.
    pub terminated: bool,
    /// How many complete frames failed to decode and were dropped.
    pub decode_failures: int,
}

/// The model of one address-queue item.
pub open spec fn user_msg_view(m: UserMessage<Message>) -> UserMessage<MessageView> {
    match m {
        Ok(msg) => Ok(msg@),
        Err(k) => Err(k),
    }
}

/// The model of one error-queue item.
pub open spec fn error_msg_view(m: UserMessage<ErrorMessage>) -> UserMessage<ErrorMessageView> {
    match m {
        Ok(e) => Ok(e@),
        Err(k) => Err(k),
    }
}

/// The model of an address queue.
pub open spec fn queue_view(q: Seq<UserMessage<Message>>) -> Seq<UserMessage<MessageView>> {
    Seq::new(q.len(), |i: int| user_msg_view(q[i]))
}

/// The model of an error queue.
pub open spec fn error_queue_view(q: Seq<UserMessage<ErrorMessage>>) -> Seq<
    UserMessage<ErrorMessageView>,
> {
    Seq::new(q.len(), |i: int| error_msg_view(q[i]))
}

/// The queue index registered for an address, if any.
pub open spec fn lookup(table: Seq<(Seq<char>, int)>, addr: Seq<char>) -> Option<int>
    decreases table,
{
    if table.len() == 0 {
        None
    } else if table[0].0 == addr {
        Some(table[0].1)
    } else {
        lookup(table.drop_first(), addr)
    }
}

/// The table with the entry for an address removed; unchanged when the
/// address has no entry.
pub open spec fn remove_addr(table: Seq<(Seq<char>, int)>, addr: Seq<char>) -> Seq<
    (Seq<char>, int),
>
    decreases table,
{
    if table.len() == 0 {
        table
    } else if table[0].0 == addr {
        table.drop_first()
    } else {
        seq![table[0]] + remove_addr(table.drop_first(), addr)
    }
}

/// The table after registering an address: any previous entry is removed
/// and the new one appended, so the last registration wins.
pub open spec fn upsert(table: Seq<(Seq<char>, int)>, addr: Seq<char>, id: int) -> Seq<
    (Seq<char>, int),
> {
    remove_addr(table, addr).push((addr, id))
}

/// The connection engine's inbound side.
pub struct EventBusListener {
    queues: Vec<Vec<UserMessage<Message>>>,
    table: Vec<(String, usize)>,
    error_queues: Vec<Vec<UserMessage<ErrorMessage>>>,
    error_slot: Option<usize>,
    outbox: Vec<Vec<u8>>,
    decoder: FrameDecoder,
    terminated: bool,
    decode_failures: usize,
}

impl View for EventBusListener {
    type V = ListenerView;

    closed spec fn view(&self) -> ListenerView {
        ListenerView {
            queues: Seq::new(self.queues@.len(), |i: int| queue_view(self.queues@[i]@)),
            table: Seq::new(
                self.table@.len(),
                |i: int| (self.table@[i].0@, self.table@[i].1 as int),
            ),
            error_queues: Seq::new(
                self.error_queues@.len(),
                |i: int| error_queue_view(self.error_queues@[i]@),
            ),
            error_slot: match self.error_slot {
                Some(e) => Some(e as int),
                None => None,
            },
            outbox: Seq::new(self.outbox@.len(), |i: int| self.outbox@[i]@),
            buffered: self.decoder.buffered(),
            terminated: self.terminated,
            decode_failures: self.decode_failures as int,
        }
    }
}

/// Internal consistency of a listener model: table entries point at real
/// queues, addresses are unique, and the error slot points at a real
/// error queue.
pub open spec fn wf_view(s: ListenerView) -> bool {
    &&& forall|i: int| 0 <= i < s.table.len() ==> 0 <= (#[trigger] s.table[i]).1 < s.queues.len()
    &&& forall|i: int, j: int|
        0 <= i < j < s.table.len() ==> (#[trigger] s.table[i]).0 != (#[trigger] s.table[j]).0
    &&& match s.error_slot {
        Some(e) => 0 <= e < s.error_queues.len(),
        None => true,
    }
}

/// Removing an address whose first occurrence is at `i` removes exactly
/// that entry.
proof fn lemma_remove_addr_at(table: Seq<(Seq<char>, int)>, addr: Seq<char>, i: int)
    requires
        0 <= i < table.len(),
        table[i].0 == addr,
        forall|j: int| 0 <= j < i ==> (#[trigger] table[j]).0 != addr,
    ensures
        remove_addr(table, addr) == table.remove(i),
    decreases table,
{
    if i == 0 {
        assert(table.remove(0) =~= table.drop_first());
    } else {
        lemma_remove_addr_at(table.drop_first(), addr, i - 1);
        assert(seq![table[0]] + table.drop_first().remove(i - 1) =~= table.remove(i));
    }
}

/// Removing an address that has no entry changes nothing.
proof fn lemma_remove_addr_absent(table: Seq<(Seq<char>, int)>, addr: Seq<char>)
    requires
        forall|j: int| 0 <= j < table.len() ==> (#[trigger] table[j]).0 != addr,
    ensures
        remove_addr(table, addr) == table,
    decreases table,
{
    if table.len() > 0 {
        lemma_remove_addr_absent(table.drop_first(), addr);
        assert(seq![table[0]] + table.drop_first() =~= table);
    }
}

/// After removal, no entry carries the removed address, every remaining
/// entry comes from the old table, and other addresses resolve as before.
proof fn lemma_remove_addr_props(table: Seq<(Seq<char>, int)>, addr: Seq<char>)
    requires
        forall|i: int, j: int|
            0 <= i < j < table.len() ==> (#[trigger] table[i]).0 != (#[trigger] table[j]).0,
    ensures
        forall|i: int|
            0 <= i < remove_addr(table, addr).len() ==> (#[trigger] remove_addr(table, addr)[i]).0
                != addr,
        forall|i: int|
            0 <= i < remove_addr(table, addr).len() ==> exists|j: int|
                0 <= j < table.len() && table[j] == #[trigger] remove_addr(table, addr)[i],
        forall|i: int, j: int|
            0 <= i < j < remove_addr(table, addr).len() ==> (#[trigger] remove_addr(
                table,
                addr,
            )[i]).0 != (#[trigger] remove_addr(table, addr)[j]).0,
    decreases table,
{
    if table.len() > 0 {
        let rest = table.drop_first();
        assert(forall|i: int, j: int|
            0 <= i < j < rest.len() ==> (#[trigger] rest[i]).0 != (#[trigger] rest[j]).0) by {
            assert forall|i: int, j: int|
                0 <= i < j < rest.len() implies (#[trigger] rest[i]).0 != (#[trigger] rest[j]).0 by {
                assert(rest[i] == table[i + 1]);
                assert(rest[j] == table[j + 1]);
            }
        }
        lemma_remove_addr_props(rest, addr);
        if table[0].0 == addr {
            assert forall|i: int| 0 <= i < remove_addr(table, addr).len() implies (
            #[trigger] remove_addr(table, addr)[i]).0 != addr by {
                assert(remove_addr(table, addr)[i] == table[i + 1]);
                assert(table[0].0 != table[i + 1].0);
            }
            assert forall|i: int| 0 <= i < remove_addr(table, addr).len() implies exists|j: int|
                0 <= j < table.len() && table[j] == #[trigger] remove_addr(table, addr)[i] by {
                assert(table[i + 1] == remove_addr(table, addr)[i]);
            }
        } else {
            let r = remove_addr(table, addr);
            let rr = remove_addr(rest, addr);
            assert(r == seq![table[0]] + rr);
            assert forall|i: int| 0 <= i < r.len() implies (#[trigger] r[i]).0 != addr by {
                if i > 0 {
                    assert(r[i] == rr[i - 1]);
                }
            }
            assert forall|i: int| 0 <= i < r.len() implies exists|j: int|
                0 <= j < table.len() && table[j] == #[trigger] r[i] by {
                if i == 0 {
                    assert(table[0] == r[0]);
                } else {
                    assert(r[i] == rr[i - 1]);
                    let j0 = choose|j: int| 0 <= j < rest.len() && rest[j] == rr[i - 1];
                    assert(table[j0 + 1] == r[i]);
                }
            }
            assert forall|i: int, j: int| 0 <= i < j < r.len() implies (#[trigger] r[i]).0 != (
            #[trigger] r[j]).0 by {
                if i == 0 {
                    assert(r[j] == rr[j - 1]);
                    let j0 = choose|jj: int| 0 <= jj < rest.len() && rest[jj] == rr[j - 1];
                    assert(rest[j0] == r[j]);
                    assert(table[j0 + 1] == r[j]);
                    assert(table[0].0 != table[j0 + 1].0);
                } else {
                    assert(r[i] == rr[i - 1]);
                    assert(r[j] == rr[j - 1]);
                }
            }
        }
    }
}

impl EventBusListener {
    /// Internal consistency; established by the constructor and kept by
    /// every operation.
    pub open spec fn wf(&self) -> bool {
        wf_view(self@)
    }

    /// A fresh listener: no queues, no table entries, no error consumer,
    /// nothing buffered, nothing outbound, running.
    pub fn new() -> (r: EventBusListener)
        ensures
            r.wf(),
            r@.queues == Seq::<Seq<UserMessage<MessageView>>>::empty(),
            r@.table == Seq::<(Seq<char>, int)>::empty(),
            r@.error_queues == Seq::<Seq<UserMessage<ErrorMessageView>>>::empty(),
            r@.error_slot is None,
            r@.outbox == Seq::<Seq<u8>>::empty(),
            r@.buffered == Seq::<u8>::empty(),
            !r@.terminated,
            r@.decode_failures == 0,
    {
        let r = EventBusListener {
            queues: Vec::new(),
            table: Vec::new(),
            error_queues: Vec::new(),
            error_slot: None,
            outbox: Vec::new(),
            decoder: FrameDecoder::new(),
            terminated: false,
            decode_failures: 0,
        };
        proof {
            assert(r@.queues =~= Seq::<Seq<UserMessage<MessageView>>>::empty());
            assert(r@.table =~= Seq::<(Seq<char>, int)>::empty());
            assert(r@.error_queues =~= Seq::<Seq<UserMessage<ErrorMessageView>>>::empty());
            assert(r@.outbox =~= Seq::<Seq<u8>>::empty());
        }
        r
    }

    /// Removes the table entry for an address; a no-op when there is
    /// none.  The queue it pointed at stays, so an old handle can still
    /// drain what it already received.
    fn table_remove(&mut self, address: &String)
        requires
            old(self).wf(),
        ensures
            final(self).wf(),
            final(self)@.table == remove_addr(old(self)@.table, address@),
            final(self)@ == (ListenerView { table: final(self)@.table, ..old(self)@ }),
    {
        let ghost tv = self@.table;
        match find_addr(&self.table, address) {
            Some(i) => {
                proof {
                    assert(tv[i as int].0 == address@);
                    assert forall|j: int| 0 <= j < i implies (#[trigger] tv[j]).0 != address@ by {
                        assert(self.table@[j].0@ != address@);
                    }
                    lemma_remove_addr_at(tv, address@, i as int);
                }
                self.table.remove(i);
                proof {
                    assert(Seq::new(
                        self.table@.len(),
                        |k: int| (self.table@[k].0@, self.table@[k].1 as int),
                    ) =~= tv.remove(i as int));
                    assert(self@ =~= (ListenerView {
                        table: remove_addr(old(self)@.table, address@),
                        ..old(self)@
                    }));
                    assert forall|a: int, b: int|
                        0 <= a < b < tv.remove(i as int).len() implies (#[trigger] tv.remove(
                        i as int,
                    )[a]).0 != (#[trigger] tv.remove(i as int)[b]).0 by {
                        if a < i && b < i {
                            assert(tv.remove(i as int)[a] == tv[a]);
                            assert(tv.remove(i as int)[b] == tv[b]);
                        } else if a < i {
                            assert(tv.remove(i as int)[a] == tv[a]);
                            assert(tv.remove(i as int)[b] == tv[b + 1]);
                        } else {
                            assert(tv.remove(i as int)[a] == tv[a + 1]);
                            assert(tv.remove(i as int)[b] == tv[b + 1]);
                        }
                    }
                    assert forall|a: int|
                        0 <= a < tv.remove(i as int).len() implies 0 <= (#[trigger] tv.remove(
                        i as int,
                    )[a]).1 < old(self)@.queues.len() by {
                        if a < i {
                            assert(tv.remove(i as int)[a] == tv[a]);
                        } else {
                            assert(tv.remove(i as int)[a] == tv[a + 1]);
                        }
                    }
                }
            },
            None => {
                proof {
                    assert forall|j: int| 0 <= j < tv.len() implies (#[trigger] tv[j]).0
                        != address@ by {
                        assert(self.table@[j].0@ != address@);
                    }
                    lemma_remove_addr_absent(tv, address@);
                    assert(self@ =~= (ListenerView {
                        table: remove_addr(old(self)@.table, address@),
                        ..old(self)@
                    }));
                }
            },
        }
    }
}

/// The framed `register` control message for an address.
pub open spec fn register_frame(addr: Seq<char>) -> Seq<u8> {
    framing::frame(crate::message::encoded_out(OutMessageView::Register(addr)))
}

/// The framed `unregister` control message for an address.
pub open spec fn unregister_frame(addr: Seq<char>) -> Seq<u8> {
    framing::frame(crate::message::encoded_out(OutMessageView::Unregister(addr)))
}

/// Whether a register control payload fits in one frame.
pub open spec fn register_fits(addr: Seq<char>) -> bool {
    crate::message::encoded_out(OutMessageView::Register(addr)).len() <= u32::MAX
}

/// Whether an unregister control payload fits in one frame.
pub open spec fn unregister_fits(addr: Seq<char>) -> bool {
    crate::message::encoded_out(OutMessageView::Unregister(addr)).len() <= u32::MAX
}

impl EventBusListener {
    /// Registers interest in an address: a fresh queue is created, the
    /// table entry for the address now points at it (a previous
    /// registration for the same address is superseded and its queue
    /// stops receiving), and a `register` control frame is placed in the
    /// outbox.  Fails, leaving everything unchanged, exactly when the
    /// encoded control frame would be too long.
    pub fn consumer(&mut self, address: String) -> (r: Result<MessageConsumer, FrameTooLarge>)
        requires
            old(self).wf(),
        ensures
            final(self).wf(),
            register_fits(address@) ==> r is Ok,
            !register_fits(address@) ==> r is Err && final(self)@ == old(self)@,
            r matches Ok(c) ==> c.queue_id() == old(self)@.queues.len(),
            r is Ok ==> final(self)@.queues == old(self)@.queues.push(
                Seq::<UserMessage<MessageView>>::empty(),
            ),
            r is Ok ==> final(self)@.table == upsert(
                old(self)@.table,
                address@,
                old(self)@.queues.len() as int,
            ),
            r is Ok ==> final(self)@.outbox == old(self)@.outbox.push(register_frame(address@)),
            r is Ok ==> final(self)@ == (ListenerView {
                queues: final(self)@.queues,
                table: final(self)@.table,
                outbox: final(self)@.outbox,
                ..old(self)@
            }),
    {
        let payload = crate::message::encode_out(
            OutMessage::Register(RegisterMessage { address: address.clone() }),
        );
        match framing::frame_payload(payload.as_slice()) {
            None => Err(FrameTooLarge),
            Some(fr) => {
                let id = self.queues.len();
                self.table_remove(&address);
                self.queues.push(Vec::new());
                self.table.push((address, id));
                self.outbox.push(fr);
                proof {
                    let ov = old(self)@;
                    let nv = self@;
                    assert(nv.queues =~= ov.queues.push(Seq::<UserMessage<MessageView>>::empty()))
                        by {
                        assert(queue_view(Seq::<UserMessage<Message>>::empty()) =~= Seq::<
                            UserMessage<MessageView>,
                        >::empty());
                    }
                    assert(nv.table =~= remove_addr(ov.table, address@).push(
                        (address@, id as int),
                    ));
                    assert(nv.outbox =~= ov.outbox.push(fr@));
                    lemma_remove_addr_props(ov.table, address@);
                    let rt = remove_addr(ov.table, address@);
                    assert forall|a: int| 0 <= a < nv.table.len() implies 0 <= (
                    #[trigger] nv.table[a]).1 < nv.queues.len() by {
                        if a < rt.len() {
                            assert(nv.table[a] == rt[a]);
                            let j = choose|j: int| 0 <= j < ov.table.len() && ov.table[j] == rt[a];
                            assert(0 <= ov.table[j].1 < ov.queues.len());
                        }
                    }
                    assert forall|a: int, b: int| 0 <= a < b < nv.table.len() implies (
                    #[trigger] nv.table[a]).0 != (#[trigger] nv.table[b]).0 by {
                        if b < rt.len() {
                            assert(nv.table[a] == rt[a]);
                            assert(nv.table[b] == rt[b]);
                        } else {
                            assert(nv.table[a] == rt[a]);
                            assert(nv.table[b].0 == address@);
                            assert(rt[a].0 != address@);
                        }
                    }
                }
                Ok(MessageConsumer { id })
            },
        }
    }

    /// Removes the registration for an address and places an `unregister`
    /// control frame in the outbox.  Unregistering an address that is not
    /// registered, or twice, is not an error: the table is simply left
    /// without an entry either way.  Fails, leaving everything unchanged,
    /// exactly when the encoded control frame would be too long.
    pub fn unregister_consumer(&mut self, address: String) -> (r: Result<(), FrameTooLarge>)
        requires
            old(self).wf(),
        ensures
            final(self).wf(),
            unregister_fits(address@) ==> r is Ok,
            !unregister_fits(address@) ==> r is Err && final(self)@ == old(self)@,
            r is Ok ==> final(self)@.table == remove_addr(old(self)@.table, address@),
            r is Ok ==> final(self)@.outbox == old(self)@.outbox.push(unregister_frame(address@)),
            r is Ok ==> final(self)@ == (ListenerView {
                table: final(self)@.table,
                outbox: final(self)@.outbox,
                ..old(self)@
            }),
    {
        let payload = crate::message::encode_out(
            OutMessage::Unregister(RegisterMessage { address: address.clone() }),
        );
        match framing::frame_payload(payload.as_slice()) {
            None => Err(FrameTooLarge),
            Some(fr) => {
                self.table_remove(&address);
                self.outbox.push(fr);
                proof {
                    assert(self@.outbox =~= old(self)@.outbox.push(fr@));
                }
                Ok(())
            },
        }
    }

    /// Installs a fresh error consumer, superseding any previous one: a
    /// new error queue is created and becomes the one receiving error
    /// notices; the old queue stops receiving but keeps what it has.
    pub fn errors(&mut self) -> (r: ErrorConsumer)
        requires
            old(self).wf(),
        ensures
            final(self).wf(),
            r.queue_id() == old(self)@.error_queues.len(),
            final(self)@.error_queues == old(self)@.error_queues.push(
                Seq::<UserMessage<ErrorMessageView>>::empty(),
            ),
            final(self)@.error_slot == Some(old(self)@.error_queues.len() as int),
            final(self)@ == (ListenerView {
                error_queues: final(self)@.error_queues,
                error_slot: final(self)@.error_slot,
                ..old(self)@
            }),
    {
        let id = self.error_queues.len();
        self.error_queues.push(Vec::new());
        self.error_slot = Some(id);
        proof {
            assert(self@.error_queues =~= old(self)@.error_queues.push(
                Seq::<UserMessage<ErrorMessageView>>::empty(),
            )) by {
                assert(error_queue_view(Seq::<UserMessage<ErrorMessage>>::empty()) =~= Seq::<
                    UserMessage<ErrorMessageView>,
                >::empty());
            }
        }
        ErrorConsumer { id }
    }

    /// Takes the next item off a consumer's queue, or nothing when the
    /// queue is empty.  Never blocks.
    pub fn poll(&mut self, c: &MessageConsumer) -> (r: Option<UserMessage<Message>>)
        requires
            old(self).wf(),
        ensures
            final(self).wf(),
            0 <= c.queue_id() < old(self)@.queues.len() && old(self)@.queues[c.queue_id()].len()
                > 0 ==> (r matches Some(m) && user_msg_view(m) == old(self)@.queues[c.queue_id()][0]
                && final(self)@.queues == old(self)@.queues.update(
                c.queue_id(),
                old(self)@.queues[c.queue_id()].drop_first(),
            ) && final(self)@ == (ListenerView { queues: final(self)@.queues, ..old(self)@ })),
            !(0 <= c.queue_id() < old(self)@.queues.len() && old(self)@.queues[c.queue_id()].len()
                > 0) ==> (r is None && final(self)@ == old(self)@),
    {
        if c.id >= self.queues.len() {
            return None;
        }
        let q = &mut self.queues[c.id];
        if q.len() == 0 {
            proof {
                assert(self@ =~= old(self)@) by {
                    assert(self@.queues =~= old(self)@.queues);
                }
            }
            return None;
        }
        let ghost q0 = q@;
        let item = q.remove(0);
        proof {
            assert(queue_view(q@) =~= queue_view(q0).drop_first());
        }
        let r = Some(item);
        proof {
            assert(self@.queues =~= old(self)@.queues.update(
                c.queue_id(),
                old(self)@.queues[c.queue_id()].drop_first(),
            ));
        }
        r
    }

    /// Takes the next item off an error consumer's queue, or nothing when
    /// the queue is empty.  Never blocks.
    pub fn poll_error(&mut self, c: &ErrorConsumer) -> (r: Option<UserMessage<ErrorMessage>>)
        requires
            old(self).wf(),
        ensures
            final(self).wf(),
            0 <= c.queue_id() < old(self)@.error_queues.len() && old(self)@.error_queues[c.queue_id()].len()
                > 0 ==> (r matches Some(m) && error_msg_view(m) == old(
                self,
            )@.error_queues[c.queue_id()][0] && final(self)@.error_queues == old(
                self,
            )@.error_queues.update(
                c.queue_id(),
                old(self)@.error_queues[c.queue_id()].drop_first(),
            ) && final(self)@ == (ListenerView {
                error_queues: final(self)@.error_queues,
                ..old(self)@
            })),
            !(0 <= c.queue_id() < old(self)@.error_queues.len()
                && old(self)@.error_queues[c.queue_id()].len() > 0) ==> (r is None && final(self)@
                == old(self)@),
    {
        if c.id >= self.error_queues.len() {
            return None;
        }
        let q = &mut self.error_queues[c.id];
        if q.len() == 0 {
            proof {
                assert(self@ =~= old(self)@) by {
                    assert(self@.error_queues =~= old(self)@.error_queues);
                }
            }
            return None;
        }
        let ghost q0 = q@;
        let item = q.remove(0);
        proof {
            assert(error_queue_view(q@) =~= error_queue_view(q0).drop_first());
        }
        let r = Some(item);
        proof {
            assert(self@.error_queues =~= old(self)@.error_queues.update(
                c.queue_id(),
                old(self)@.error_queues[c.queue_id()].drop_first(),
            ));
        }
        r
    }

    /// Whether a fatal transport error has stopped the read loop.
    pub fn is_terminated(&self) -> (r: bool)
        ensures
            r == self@.terminated,
    {
        self.terminated
    }

    /// How many complete frames failed to decode and were dropped.
    pub fn decode_failures(&self) -> (r: usize)
        ensures
            r as int == self@.decode_failures,
    {
        self.decode_failures
    }

    /// Hands the accumulated control frames to the transport layer,
    /// leaving the outbox empty.
    pub fn take_frames(&mut self) -> (r: Vec<Vec<u8>>)
        requires
            old(self).wf(),
        ensures
            final(self).wf(),
            Seq::new(r@.len(), |i: int| r@[i]@) == old(self)@.outbox,
            final(self)@.outbox == Seq::<Seq<u8>>::empty(),
            final(self)@ == (ListenerView { outbox: final(self)@.outbox, ..old(self)@ }),
    {
        let mut out: Vec<Vec<u8>> = Vec::new();
        std::mem::swap(&mut out, &mut self.outbox);
        proof {
            assert(self@.outbox =~= Seq::<Seq<u8>>::empty());
            assert(Seq::new(out@.len(), |i: int| out@[i]@) =~= old(self)@.outbox);
        }
        out
    }
}

/// The effect of one complete frame's payload on the listener: a decoded
/// message is delivered to the queue registered for its address, or
/// silently dropped when no address is registered; an error notice goes
/// to the installed error queue, if any; a heartbeat reply is ignored;
/// and a payload that fails to decode only counts a failure — it never
/// stops the loop and reaches no consumer.
pub open spec fn dispatch_step(s: ListenerView, payload: Seq<u8>) -> ListenerView {
    match crate::message::decode_in_spec(payload) {
        Some(InMessageView::Message(mv)) => match lookup(s.table, mv.address) {
            Some(id) => ListenerView {
                queues: s.queues.update(id, s.queues[id].push(Ok(mv))),
                ..s
            },
            None => s,
        },
        Some(InMessageView::Error(ev)) => match s.error_slot {
            Some(e) => ListenerView {
                error_queues: s.error_queues.update(e, s.error_queues[e].push(Ok(ev))),
                ..s
            },
            None => s,
        },
        Some(InMessageView::Pong) => s,
        None => ListenerView {
            decode_failures: if s.decode_failures < usize::MAX {
                s.decode_failures + 1
            } else {
                s.decode_failures
            },
            ..s
        },
    }
}

/// Dispatches every complete frame in the buffer, in order, leaving any
/// trailing partial frame buffered.
pub open spec fn drain(s: ListenerView) -> ListenerView
    decreases s.buffered.len(),
{
    if framing::has_frame(s.buffered) {
        let payload = framing::first_payload(s.buffered);
        let s2 = dispatch_step(
            ListenerView { buffered: framing::after_first_frame(s.buffered), ..s },
            payload,
        );
        drain(s2)
    } else {
        s
    }
}

/// The effect of one received stream chunk: nothing once terminated;
/// otherwise the chunk joins the buffer and every complete frame is
/// dispatched.
pub open spec fn feed_spec(s: ListenerView, chunk: Seq<u8>) -> ListenerView {
    if s.terminated {
        s
    } else {
        drain(ListenerView { buffered: s.buffered + chunk, ..s })
    }
}

/// The effect of a fatal transport failure: the same terminal error is
/// appended to every queue in creation order — registered or not, so no
/// abandoned handle misses it — and to the active error queue, after
/// whatever was already enqueued (nothing is truncated), and the read
/// loop stops.
pub open spec fn fatal_step(s: ListenerView, kind: TransportErrorKind) -> ListenerView {
    ListenerView {
        queues: Seq::new(s.queues.len(), |i: int| s.queues[i].push(Err(kind))),
        error_queues: match s.error_slot {
            Some(e) => s.error_queues.update(e, s.error_queues[e].push(Err(kind))),
            None => s.error_queues,
        },
        terminated: true,
        ..s
    }
}

/// The effect of an I/O error report: a transient condition is swallowed
/// and retried; any other kind is fatal.  Nothing changes after
/// termination.
pub open spec fn io_error_step(s: ListenerView, kind: TransportErrorKind) -> ListenerView {
    if kind.is_transient() || s.terminated {
        s
    } else {
        fatal_step(s, kind)
    }
}

/// An address whose first table entry is at `i` resolves to that entry.
proof fn lemma_lookup_at(table: Seq<(Seq<char>, int)>, addr: Seq<char>, i: int)
    requires
        0 <= i < table.len(),
        table[i].0 == addr,
        forall|j: int| 0 <= j < i ==> (#[trigger] table[j]).0 != addr,
    ensures
        lookup(table, addr) == Some(table[i].1),
    decreases table,
{
    if i > 0 {
        lemma_lookup_at(table.drop_first(), addr, i - 1);
    }
}

/// A successful lookup returns the index stored in some table entry.
proof fn lemma_lookup_in_table(table: Seq<(Seq<char>, int)>, addr: Seq<char>)
    requires
        lookup(table, addr) is Some,
    ensures
        exists|i: int|
            0 <= i < table.len() && (#[trigger] table[i]).0 == addr && table[i].1 == lookup(
                table,
                addr,
            )->0,
    decreases table,
{
    if table.len() > 0 && table[0].0 != addr {
        lemma_lookup_in_table(table.drop_first(), addr);
        let i0 = choose|i: int|
            0 <= i < table.drop_first().len() && (#[trigger] table.drop_first()[i]).0 == addr
                && table.drop_first()[i].1 == lookup(table.drop_first(), addr)->0;
        assert(table[i0 + 1] == table.drop_first()[i0]);
    }
}

/// An address with no table entry resolves to nothing.
proof fn lemma_lookup_absent(table: Seq<(Seq<char>, int)>, addr: Seq<char>)
    requires
        forall|j: int| 0 <= j < table.len() ==> (#[trigger] table[j]).0 != addr,
    ensures
        lookup(table, addr) is None,
    decreases table,
{
    if table.len() > 0 {
        lemma_lookup_absent(table.drop_first(), addr);
    }
}

impl EventBusListener {
    /// Routes one decoded frame payload, as [`dispatch_step`] says.
    fn dispatch(&mut self, payload: &[u8])
        requires
            old(self).wf(),
        ensures
            final(self).wf(),
            final(self)@ == dispatch_step(old(self)@, payload@),
    {
        match crate::message::decode_in(payload) {
            Ok(InMessage::Message(msg)) => {
                let ghost mv = msg@;
                match find_addr(&self.table, &msg.address) {
                    Some(i) => {
                        proof {
                            assert forall|j: int| 0 <= j < i implies (#[trigger] self@.table[j]).0
                                != mv.address by {
                                assert(self.table@[j].0@ != mv.address);
                            }
                            lemma_lookup_at(self@.table, mv.address, i as int);
                        }
                        let id = self.table[i].1;
                        proof {
                            assert(self@.table[i as int].1 == id as int);
                            assert(0 <= id < self.queues@.len());
                        }
                        let ghost q0 = self@.queues[id as int];
                        let q = &mut self.queues[id];
                        q.push(Ok(msg));
                        proof {
                            assert(queue_view(q@) =~= q0.push(Ok(mv)));
                            assert(self@.queues =~= old(self)@.queues.update(
                                id as int,
                                old(self)@.queues[id as int].push(Ok(mv)),
                            ));
                            assert(self@ =~= dispatch_step(old(self)@, payload@));
                        }
                    },
                    None => {
                        proof {
                            assert forall|j: int|
                                0 <= j < self@.table.len() implies (#[trigger] self@.table[j]).0
                                != mv.address by {
                                assert(self.table@[j].0@ != mv.address);
                            }
                            lemma_lookup_absent(self@.table, mv.address);
                        }
                    },
                }
            },
            Ok(InMessage::Error(e)) => {
                let ghost ev = e@;
                match self.error_slot {
                    Some(eid) => {
                        let ghost q0 = self@.error_queues[eid as int];
                        let q = &mut self.error_queues[eid];
                        q.push(Ok(e));
                        proof {
                            assert(error_queue_view(q@) =~= q0.push(Ok(ev)));
                            assert(self@.error_queues =~= old(self)@.error_queues.update(
                                eid as int,
                                old(self)@.error_queues[eid as int].push(Ok(ev)),
                            ));
                            assert(self@ =~= dispatch_step(old(self)@, payload@));
                        }
                    },
                    None => {},
                }
            },
            Ok(InMessage::Pong) => {},
            Err(_) => {
                if self.decode_failures < usize::MAX {
                    self.decode_failures = self.decode_failures + 1;
                }
            },
        }
    }

    /// Accepts one chunk of the inbound byte stream, however the stream
    /// happened to be cut, and dispatches every frame it completes, as
    /// [`feed_spec`] says.
    pub fn feed(&mut self, chunk: &[u8])
        requires
            old(self).wf(),
        ensures
            final(self).wf(),
            final(self)@ == feed_spec(old(self)@, chunk@),
    {
        if self.terminated {
            return ;
        }
        self.decoder.feed(chunk);
        let ghost start = self@;
        proof {
            assert(start =~= (ListenerView {
                buffered: old(self)@.buffered + chunk@,
                ..old(self)@
            }));
            assert(drain(start) == feed_spec(old(self)@, chunk@));
        }
        loop
            invariant
                self.wf(),
                drain(self@) == drain(start),
                drain(start) == feed_spec(old(self)@, chunk@),
            decreases self@.buffered.len(),
        {
            let ghost pre = self@;
            match self.decoder.next_frame() {
                None => {
                    proof {
                        assert(drain(self@) == self@);
                    }
                    return ;
                },
                Some(p) => {
                    proof {
                        assert(self@ =~= (ListenerView {
                            buffered: framing::after_first_frame(pre.buffered),
                            ..pre
                        }));
                    }
                    self.dispatch(p.as_slice());
                    proof {
                        assert(drain(pre) == drain(self@));
                    }
                },
            }
        }
    }

    /// Reports an I/O failure from the transport layer, as
    /// [`io_error_step`] says: a transient condition changes nothing and
    /// the read loop carries on; any other kind fans the terminal error
    /// out to every queue and stops the loop.
    pub fn on_io_error(&mut self, kind: TransportErrorKind)
        requires
            old(self).wf(),
        ensures
            final(self).wf(),
            final(self)@ == io_error_step(old(self)@, kind),
    {
        if kind.transient() || self.terminated {
            return ;
        }
        self.terminated = true;
        let n = self.queues.len();
        let mut i: usize = 0;
        while i < n
            invariant
                old(self).wf(),
                n == old(self)@.queues.len(),
                i <= n,
                self@.queues.len() == n,
                forall|k: int|
                    0 <= k < i ==> #[trigger] self@.queues[k] == old(self)@.queues[k].push(
                        Err(kind),
                    ),
                forall|k: int| i <= k < n ==> #[trigger] self@.queues[k] == old(self)@.queues[k],
                self@ == (ListenerView { queues: self@.queues, terminated: true, ..old(self)@ }),
            decreases n - i,
        {
            let ghost pre = self@;
            let ghost q0 = self@.queues[i as int];
            let q = &mut self.queues[i];
            q.push(Err(kind));
            proof {
                assert(queue_view(q@) =~= q0.push(Err(kind)));
                assert(self@.queues =~= pre.queues.update(i as int, q0.push(Err(kind))));
            }
            i = i + 1;
        }
        proof {
            assert(self@.queues =~= Seq::new(
                old(self)@.queues.len(),
                |k: int| old(self)@.queues[k].push(Err(kind)),
            ));
        }
        match self.error_slot {
            Some(eid) => {
                let ghost q0 = self@.error_queues[eid as int];
                let q = &mut self.error_queues[eid];
                q.push(Err(kind));
                proof {
                    assert(error_queue_view(q@) =~= q0.push(Err(kind)));
                    assert(self@.error_queues =~= old(self)@.error_queues.update(
                        eid as int,
                        old(self)@.error_queues[eid as int].push(Err(kind)),
                    ));
                    assert(self@ =~= fatal_step(old(self)@, kind));
                }
            },
            None => {
                proof {
                    assert(self@ =~= fatal_step(old(self)@, kind));
                }
            },
        }
    }
}

/// Routing exclusivity: a delivered message reaches exactly the queue
/// registered for its address — every other queue, and every error
/// queue, is untouched — and a message for an address with no
/// registration is dropped without a trace.
pub proof fn lemma_routing_exclusivity(s: ListenerView, payload: Seq<u8>)
    requires
        wf_view(s),
    ensures
        (match crate::message::decode_in_spec(payload) {
            Some(InMessageView::Message(mv)) => {
                &&& (match lookup(s.table, mv.address) {
                    Some(id) => {
                        &&& dispatch_step(s, payload).queues[id] == s.queues[id].push(Ok(mv))
                        &&& forall|j: int|
                            0 <= j < s.queues.len() && j != id ==> #[trigger] dispatch_step(
                                s,
                                payload,
                            ).queues[j] == s.queues[j]
                    },
                    None => dispatch_step(s, payload) == s,
                })
                &&& dispatch_step(s, payload).error_queues == s.error_queues
            },
            _ => true,
        }),
{
    if let Some(InMessageView::Message(mv)) = crate::message::decode_in_spec(payload) {
        if lookup(s.table, mv.address) is Some {
            lemma_lookup_in_table(s.table, mv.address);
        }
    }
}

/// At most one error consumer is active: an error notice reaches exactly
/// the error queue in the active slot — every other error queue, and
/// every address queue, is untouched — and is dropped when none is
/// installed.  Installing a new error consumer moves the slot, so a
/// superseded queue receives nothing further.
pub proof fn lemma_error_exclusivity(s: ListenerView, payload: Seq<u8>)
    requires
        wf_view(s),
    ensures
        (match crate::message::decode_in_spec(payload) {
            Some(InMessageView::Error(ev)) => {
                &&& (match s.error_slot {
                    Some(e) => {
                        &&& dispatch_step(s, payload).error_queues[e] == s.error_queues[e].push(
                            Ok(ev),
                        )
                        &&& forall|j: int|
                            0 <= j < s.error_queues.len() && j != e ==> #[trigger] dispatch_step(
                                s,
                                payload,
                            ).error_queues[j] == s.error_queues[j]
                    },
                    None => dispatch_step(s, payload) == s,
                })
                &&& dispatch_step(s, payload).queues == s.queues
            },
            _ => true,
        }),
{
}

/// A superseded error queue receives nothing further: once the slot
/// points elsewhere, no dispatched payload of any kind can touch it.
pub proof fn lemma_error_consumer_superseded(s: ListenerView, payload: Seq<u8>, old_slot: int)
    requires
        wf_view(s),
        0 <= old_slot < s.error_queues.len(),
        (match s.error_slot {
            Some(e) => e != old_slot,
            None => true,
        }),
    ensures
        dispatch_step(s, payload).error_queues[old_slot] == s.error_queues[old_slot],
{
    lemma_error_exclusivity(s, payload);
}

/// Fatal-error fan-out: a non-transient failure appends the same
/// terminal error to every queue — after whatever was already enqueued,
/// truncating nothing — and to the active error queue, stops the read
/// loop, and no chunk fed afterwards has any effect.
pub proof fn lemma_fatal_fan_out(s: ListenerView, kind: TransportErrorKind, chunk: Seq<u8>)
    requires
        wf_view(s),
        !kind.is_transient(),
        !s.terminated,
    ensures
        io_error_step(s, kind).queues.len() == s.queues.len(),
        forall|i: int|
            0 <= i < s.queues.len() ==> #[trigger] io_error_step(s, kind).queues[i]
                == s.queues[i].push(Err(kind)),
        (match s.error_slot {
            Some(e) => io_error_step(s, kind).error_queues[e] == s.error_queues[e].push(Err(kind)),
            None => io_error_step(s, kind).error_queues == s.error_queues,
        }),
        io_error_step(s, kind).terminated,
        feed_spec(io_error_step(s, kind), chunk) == io_error_step(s, kind),
{
}

/// A complete frame at the front of a buffer is still there, unchanged,
/// after more bytes arrive.
proof fn lemma_prefix_frame(b: Seq<u8>, c: Seq<u8>)
    requires
        framing::has_frame(b),
    ensures
        framing::has_frame(b + c),
        framing::first_payload(b + c) == framing::first_payload(b),
        framing::after_first_frame(b + c) == framing::after_first_frame(b) + c,
{
    assert((b + c)[0] == b[0]);
    assert((b + c)[1] == b[1]);
    assert((b + c)[2] == b[2]);
    assert((b + c)[3] == b[3]);
    assert(framing::frame_len(b + c) == framing::frame_len(b));
    assert(framing::first_payload(b + c) =~= framing::first_payload(b));
    assert(framing::after_first_frame(b + c) =~= framing::after_first_frame(b) + c);
}

/// Dispatching never reads or writes the stream buffer.
proof fn lemma_dispatch_swap_buffered(s: ListenerView, x: Seq<u8>, p: Seq<u8>)
    ensures
        dispatch_step(ListenerView { buffered: x, ..s }, p) == (ListenerView {
            buffered: x,
            ..dispatch_step(s, p)
        }),
{
    assert(dispatch_step(ListenerView { buffered: x, ..s }, p) =~= (ListenerView {
        buffered: x,
        ..dispatch_step(s, p)
    }));
}

/// Dispatching never stops the read loop.
proof fn lemma_drain_terminated(s: ListenerView)
    ensures
        drain(s).terminated == s.terminated,
    decreases s.buffered.len(),
{
    if framing::has_frame(s.buffered) {
        let s2 = dispatch_step(
            ListenerView { buffered: framing::after_first_frame(s.buffered), ..s },
            framing::first_payload(s.buffered),
        );
        lemma_drain_terminated(s2);
    }
}

/// Bytes that arrive after a drain are handled exactly as if they had
/// been part of the drained buffer all along.
proof fn lemma_drain_append(s: ListenerView, c: Seq<u8>)
    ensures
        drain(ListenerView { buffered: drain(s).buffered + c, ..drain(s) }) == drain(
            ListenerView { buffered: s.buffered + c, ..s },
        ),
    decreases s.buffered.len(),
{
    if framing::has_frame(s.buffered) {
        let p = framing::first_payload(s.buffered);
        let after = framing::after_first_frame(s.buffered);
        let s2 = dispatch_step(ListenerView { buffered: after, ..s }, p);
        assert(drain(s) == drain(s2));
        lemma_prefix_frame(s.buffered, c);
        assert(s2.buffered == after);
        lemma_dispatch_swap_buffered(ListenerView { buffered: after, ..s }, after + c, p);
        assert(ListenerView { buffered: after + c, ..(ListenerView { buffered: after, ..s }) }
            =~= (ListenerView { buffered: after + c, ..s }));
        assert(dispatch_step(ListenerView { buffered: after + c, ..s }, p) == (ListenerView {
            buffered: s2.buffered + c,
            ..s2
        }));
        assert(drain(ListenerView { buffered: s.buffered + c, ..s }) == drain(
            ListenerView { buffered: s2.buffered + c, ..s2 },
        ));
        lemma_drain_append(s2, c);
    } else {
        assert(drain(s) == s);
    }
}

/// Framing correctness at the engine's edge: how the inbound byte stream
/// is cut into chunks makes no difference — feeding two chunks one after
/// the other leaves the listener exactly as feeding their concatenation
/// would.
pub proof fn lemma_feed_chunking(s: ListenerView, c1: Seq<u8>, c2: Seq<u8>)
    requires
        !s.terminated,
    ensures
        feed_spec(feed_spec(s, c1), c2) == feed_spec(s, c1 + c2),
{
    let x = ListenerView { buffered: s.buffered + c1, ..s };
    lemma_drain_terminated(x);
    assert(feed_spec(s, c1) == drain(x));
    assert(!drain(x).terminated);
    lemma_drain_append(x, c2);
    assert((s.buffered + c1) + c2 =~= s.buffered + (c1 + c2));
    assert(ListenerView { buffered: (s.buffered + c1) + c2, ..x } =~= (ListenerView {
        buffered: s.buffered + (c1 + c2),
        ..s
    }));
}

/// Idempotent unregister: removing an address leaves no entry for it, so
/// removing it again — or removing an address that was never registered —
/// changes nothing, and neither is an error.
pub proof fn lemma_unregister_idempotent(table: Seq<(Seq<char>, int)>, addr: Seq<char>)
    requires
        forall|i: int, j: int|
            0 <= i < j < table.len() ==> (#[trigger] table[i]).0 != (#[trigger] table[j]).0,
    ensures
        lookup(remove_addr(table, addr), addr) is None,
        remove_addr(remove_addr(table, addr), addr) == remove_addr(table, addr),
{
    lemma_remove_addr_props(table, addr);
    lemma_lookup_absent(remove_addr(table, addr), addr);
    lemma_remove_addr_absent(remove_addr(table, addr), addr);
}

/// Index of the first table entry for an address, if any.
fn find_addr(table: &Vec<(String, usize)>, address: &String) -> (r: Option<usize>)
    ensures
        r matches Some(i) ==> i < table@.len() && table@[i as int].0@ == address@,
        r is None ==> forall|j: int| 0 <= j < table@.len() ==> (#[trigger] table@[j]).0@
            != address@,
        r matches Some(i) ==> forall|j: int| 0 <= j < i ==> (#[trigger] table@[j]).0@ != address@,
{
    let n = table.len();
    let mut i: usize = 0;
    while i < n
        invariant
            n == table@.len(),
            i <= n,
            forall|j: int| 0 <= j < i ==> (#[trigger] table@[j]).0@ != address@,
        decreases n - i,
    {
        if table[i].0 == *address {
            return Some(i);
        }
        i = i + 1;
    }
    None
}

} // verus!
