//! The outbound half of the connection: user messages and the heartbeat.
//!
//! The publisher turns send/publish/ping calls into complete wire frames
//! and leaves them in an outbox for the transport layer to write.  All
//! three share one write path; the transport layer must write each frame
//! whole, so frames from different callers never interleave on the wire.

use vstd::prelude::*;
use crate::framing;
use crate::message::{FrameTooLarge, Message, OutMessage, OutMessageView, SendMessage};

verus! {

/// How many seconds pass between two heartbeat pings.  The transport
/// layer writes [`EventBusPublisher::ping`]'s frame at this interval for
/// the lifetime of the connection.
pub const HEARTBEAT_INTERVAL_SECS: u64 = 10;

/// The framed form of an outbound envelope.
pub open spec fn out_frame(m: OutMessageView) -> Seq<u8> {
    framing::frame(crate::message::encoded_out(m))
}

/// Whether an outbound envelope's payload fits in one frame.
pub open spec fn out_fits(m: OutMessageView) -> bool {
    crate::message::encoded_out(m).len() <= u32::MAX
}

/// The connection engine's outbound side.
pub struct EventBusPublisher {
    outbox: Vec<Vec<u8>>,
}

impl View for EventBusPublisher {
    type V = Seq<Seq<u8>>;

    closed spec fn view(&self) -> Seq<Seq<u8>> {
        Seq::new(self.outbox@.len(), |i: int| self.outbox@[i]@)
    }
}

impl EventBusPublisher {
    /// A fresh publisher with an empty outbox.
    pub fn new() -> (r: EventBusPublisher)
        ensures
            r@ == Seq::<Seq<u8>>::empty(),
    {
        let r = EventBusPublisher { outbox: Vec::new() };
        proof {
            assert(r@ =~= Seq::<Seq<u8>>::empty());
        }
        r
    }

    /// Queues one outbound envelope's frame.  Fails, leaving the outbox
    /// unchanged, exactly when the encoded payload is too long.
    fn enqueue(&mut self, m: OutMessage) -> (r: Result<(), FrameTooLarge>)
        ensures
            out_fits(m@) ==> r is Ok && final(self)@ == old(self)@.push(out_frame(m@)),
            !out_fits(m@) ==> r is Err && final(self)@ == old(self)@,
    {
        let ghost mv = m@;
        let payload = crate::message::encode_out(m);
        match framing::frame_payload(payload.as_slice()) {
            None => Err(FrameTooLarge),
            Some(fr) => {
                self.outbox.push(fr);
                proof {
                    assert(self@ =~= old(self)@.push(out_frame(mv)));
                }
                Ok(())
            },
        }
    }

    /// Queues a point-to-point message, optionally asking for a reply.
    pub fn send(&mut self, msg: SendMessage) -> (r: Result<(), FrameTooLarge>)
        ensures
            out_fits(OutMessageView::Send(msg@)) ==> r is Ok && final(self)@ == old(self)@.push(
                out_frame(OutMessageView::Send(msg@)),
            ),
            !out_fits(OutMessageView::Send(msg@)) ==> r is Err && final(self)@ == old(self)@,
    {
        self.enqueue(OutMessage::Send(msg))
    }

    /// Queues a broadcast message.
    pub fn publish(&mut self, msg: Message) -> (r: Result<(), FrameTooLarge>)
        ensures
            out_fits(OutMessageView::Publish(msg@)) ==> r is Ok && final(self)@ == old(self)@.push(
                out_frame(OutMessageView::Publish(msg@)),
            ),
            !out_fits(OutMessageView::Publish(msg@)) ==> r is Err && final(self)@ == old(self)@,
    {
        self.enqueue(OutMessage::Publish(msg))
    }

    /// Queues one heartbeat ping.  The transport layer also calls this on
    /// every heartbeat tick.
    pub fn ping(&mut self) -> (r: Result<(), FrameTooLarge>)
        ensures
            out_fits(OutMessageView::Ping) ==> r is Ok && final(self)@ == old(self)@.push(
                out_frame(OutMessageView::Ping),
            ),
            !out_fits(OutMessageView::Ping) ==> r is Err && final(self)@ == old(self)@,
    {
        self.enqueue(OutMessage::Ping)
    }

    /// Hands the queued frames to the transport layer, leaving the outbox
    /// empty.
    pub fn take_frames(&mut self) -> (r: Vec<Vec<u8>>)
        ensures
            Seq::new(r@.len(), |i: int| r@[i]@) == old(self)@,
            final(self)@ == Seq::<Seq<u8>>::empty(),
    {
        let mut out: Vec<Vec<u8>> = Vec::new();
        std::mem::swap(&mut out, &mut self.outbox);
        proof {
            assert(self@ =~= Seq::<Seq<u8>>::empty());
            assert(Seq::new(out@.len(), |i: int| out@[i]@) =~= old(self)@);
        }
        out
    }
}

} // verus!
