//! Protocol envelopes and their JSON encoding.
//!
//! Every unit on the wire is a JSON object tagged by a `type` field.
//! Outbound envelopes are the heartbeat ping, the register/unregister
//! control messages, and the user's send/publish messages; inbound
//! envelopes are the heartbeat reply, delivered messages, and error
//! notices.  Optional fields are omitted entirely when absent.

use vstd::prelude::*;
use crate::json::{JsonVal, JsonValue};

verus! {

broadcast use vstd::string::group_string_axioms;

/// The kind of transport failure surfaced to consumers, mirroring the
/// operating system's error kinds that matter to the read loop.
#[derive(Debug, PartialEq, Eq, Structural, Clone, Copy)]
pub enum TransportErrorKind {
    /// No data available yet on a non-blocking socket: transient, retried.
    WouldBlock,
    ConnectionReset,
    BrokenPipe,
    TimedOut,
    UnexpectedEof,
    Other,
}

impl TransportErrorKind {
    /// A transient condition is retried by the read loop and never
    /// surfaced; every other kind is fatal to the connection.
    pub open spec fn is_transient(self) -> bool {
        self is WouldBlock
    }

    /// Executable test for [`TransportErrorKind::is_transient`].
    pub fn transient(&self) -> (r: bool)
        ensures
            r == self.is_transient(),
    {
        match self {
            TransportErrorKind::WouldBlock => true,
            _ => false,
        }
    }
}

/// An item handed to a consumer: a delivery, or a fatal transport error.
pub type UserMessage<T> = Result<T, TransportErrorKind>;

/// The error returned when an envelope's encoded payload is too long for
/// the 4-byte length prefix.
#[derive(Debug, PartialEq, Eq, Structural, Clone, Copy)]
pub struct FrameTooLarge;

/// A delivered or published message: an address, and an optional body and
/// headers.
#[derive(Debug, PartialEq)]
pub struct Message {
    pub address: String,
    pub body: Option<JsonValue>,
    pub headers: Option<Vec<(String, String)>>,
}

/// An application-level error notice from the remote bus.
#[derive(Debug, PartialEq)]
pub struct ErrorMessage {
    pub message: String,
}

/// A point-to-point message, optionally asking for a reply on a reply
/// address.
#[derive(Debug, PartialEq)]
pub struct SendMessage {
    pub address: String,
    pub reply_address: Option<String>,
    pub body: Option<JsonValue>,
    pub headers: Option<Vec<(String, String)>>,
}

/// The subscribe/unsubscribe control message.
#[derive(Debug, PartialEq)]
pub struct RegisterMessage {
    pub address: String,
}

/// An inbound envelope.
#[derive(Debug, PartialEq)]
pub enum InMessage {
    Pong,
    Error(ErrorMessage),
    Message(Message),
}

/// An outbound envelope.
#[derive(Debug, PartialEq)]
pub enum OutMessage {
    Ping,
    Register(RegisterMessage),
    Unregister(RegisterMessage),
    Send(SendMessage),
    Publish(Message),
}

/// The model of a [`Message`].
pub struct MessageView {
    pub address: Seq<char>,
    pub body: Option<JsonVal>,
    pub headers: Option<Seq<(Seq<char>, Seq<char>)>>,
}

/// The model of an [`ErrorMessage`].
pub struct ErrorMessageView {
    pub message: Seq<char>,
}

/// The model of a [`SendMessage`].
pub struct SendMessageView {
    pub address: Seq<char>,
    pub reply_address: Option<Seq<char>>,
    pub body: Option<JsonVal>,
    pub headers: Option<Seq<(Seq<char>, Seq<char>)>>,
}

/// The model of an [`InMessage`].
pub enum InMessageView {
    Pong,
    Error(ErrorMessageView),
    Message(MessageView),
}

/// The model of an [`OutMessage`].
pub enum OutMessageView {
    Ping,
    Register(Seq<char>),
    Unregister(Seq<char>),
    Send(SendMessageView),
    Publish(MessageView),
}

/// The models of a header list, pair by pair.
pub open spec fn headers_view(hs: Seq<(String, String)>) -> Seq<(Seq<char>, Seq<char>)> {
    Seq::new(hs.len(), |i: int| (hs[i].0@, hs[i].1@))
}

/// The model of an optional header list.
pub open spec fn opt_headers_view(hs: Option<Vec<(String, String)>>) -> Option<
    Seq<(Seq<char>, Seq<char>)>,
> {
    match hs {
        Some(h) => Some(headers_view(h@)),
        None => None,
    }
}

/// The model of an optional body.
pub open spec fn opt_body_view(b: Option<JsonValue>) -> Option<JsonVal> {
    match b {
        Some(v) => Some(v.model()),
        None => None,
    }
}

impl View for Message {
    type V = MessageView;

    open spec fn view(&self) -> MessageView {
        MessageView {
            address: self.address@,
            body: opt_body_view(self.body),
            headers: opt_headers_view(self.headers),
        }
    }
}

impl View for ErrorMessage {
    type V = ErrorMessageView;

    open spec fn view(&self) -> ErrorMessageView {
        ErrorMessageView { message: self.message@ }
    }
}

impl View for SendMessage {
    type V = SendMessageView;

    open spec fn view(&self) -> SendMessageView {
        SendMessageView {
            address: self.address@,
            reply_address: match self.reply_address {
                Some(r) => Some(r@),
                None => None,
            },
            body: opt_body_view(self.body),
            headers: opt_headers_view(self.headers),
        }
    }
}

impl View for InMessage {
    type V = InMessageView;

    open spec fn view(&self) -> InMessageView {
        match self {
            InMessage::Pong => InMessageView::Pong,
            InMessage::Error(e) => InMessageView::Error(e@),
            InMessage::Message(m) => InMessageView::Message(m@),
        }
    }
}

impl View for OutMessage {
    type V = OutMessageView;

    open spec fn view(&self) -> OutMessageView {
        match self {
            OutMessage::Ping => OutMessageView::Ping,
            OutMessage::Register(r) => OutMessageView::Register(r.address@),
            OutMessage::Unregister(r) => OutMessageView::Unregister(r.address@),
            OutMessage::Send(m) => OutMessageView::Send(m@),
            OutMessage::Publish(m) => OutMessageView::Publish(m@),
        }
    }
}

/// The JSON object value carrying a header list.
pub open spec fn json_of_headers(hs: Seq<(Seq<char>, Seq<char>)>) -> JsonVal {
    JsonVal::Obj(Seq::new(hs.len(), |i: int| (hs[i].0, JsonVal::Str(hs[i].1))))
}

/// The members of a message-shaped envelope: the tag, the address, then
/// the optional body and headers.
pub open spec fn members_of_message(tag: Seq<char>, m: MessageView) -> Seq<(Seq<char>, JsonVal)> {
    seq![("type"@, JsonVal::Str(tag)), ("address"@, JsonVal::Str(m.address))] + (match m.body {
        Some(b) => seq![("body"@, b)],
        None => Seq::empty(),
    }) + (match m.headers {
        Some(h) => seq![("headers"@, json_of_headers(h))],
        None => Seq::empty(),
    })
}

/// The JSON value of an outbound envelope.
pub open spec fn json_of_out(m: OutMessageView) -> JsonVal {
    match m {
        OutMessageView::Ping => JsonVal::Obj(seq![("type"@, JsonVal::Str("ping"@))]),
        OutMessageView::Register(a) => JsonVal::Obj(
            seq![("type"@, JsonVal::Str("register"@)), ("address"@, JsonVal::Str(a))],
        ),
        OutMessageView::Unregister(a) => JsonVal::Obj(
            seq![("type"@, JsonVal::Str("unregister"@)), ("address"@, JsonVal::Str(a))],
        ),
        OutMessageView::Send(sm) => JsonVal::Obj(
            seq![("type"@, JsonVal::Str("send"@)), ("address"@, JsonVal::Str(sm.address))] + (
            match sm.reply_address {
                Some(r) => seq![("replyAddress"@, JsonVal::Str(r))],
                None => Seq::empty(),
            }) + (match sm.body {
                Some(b) => seq![("body"@, b)],
                None => Seq::empty(),
            }) + (match sm.headers {
                Some(h) => seq![("headers"@, json_of_headers(h))],
                None => Seq::empty(),
            }),
        ),
        OutMessageView::Publish(mv) => JsonVal::Obj(members_of_message("publish"@, mv)),
    }
}

/// The JSON value of an inbound envelope.
pub open spec fn json_of_in(m: InMessageView) -> JsonVal {
    match m {
        InMessageView::Pong => JsonVal::Obj(seq![("type"@, JsonVal::Str("pong"@))]),
        InMessageView::Error(e) => JsonVal::Obj(
            seq![("type"@, JsonVal::Str("err"@)), ("message"@, JsonVal::Str(e.message))],
        ),
        InMessageView::Message(mv) => JsonVal::Obj(members_of_message("message"@, mv)),
    }
}

/// The canonical encoded payload of an outbound envelope.
pub open spec fn encoded_out(m: OutMessageView) -> Seq<u8> {
    crate::json::print_json(json_of_out(m))
}

/// The canonical encoded payload of an inbound envelope.
pub open spec fn encoded_in(m: InMessageView) -> Seq<u8> {
    crate::json::print_json(json_of_in(m))
}

/// Appends one member to an object under construction.
fn push_member(members: &mut Vec<(String, JsonValue)>, key: String, val: JsonValue)
    ensures
        crate::json::model_members(final(members)@) == crate::json::model_members(old(members)@)
            + seq![(key@, val.model())],
{
    proof {
        crate::json::lemma_model_members_push(members@, (key, val));
    }
    members.push((key, val));
}

/// The JSON object value carrying a header list, built member by member.
fn headers_json_exec(hs: &Vec<(String, String)>) -> (r: JsonValue)
    ensures
        r.model() == json_of_headers(headers_view(hs@)),
{
    let mut members: Vec<(String, JsonValue)> = Vec::new();
    let mut i: usize = 0;
    proof {
        assert(crate::json::model_members(members@) =~= Seq::new(
            0,
            |j: int| (hs@[j].0@, JsonVal::Str(hs@[j].1@)),
        ));
    }
    while i < hs.len()
        invariant
            i <= hs@.len(),
            crate::json::model_members(members@) == Seq::new(
                i as nat,
                |j: int| (hs@[j].0@, JsonVal::Str(hs@[j].1@)),
            ),
        decreases hs@.len() - i,
    {
        let pair = &hs[i];
        let k = pair.0.clone();
        let v = pair.1.clone();
        proof {
            crate::json::lemma_model_members_push(members@, (k, JsonValue::Str(v)));
            assert(Seq::new(i as nat, |j: int| (hs@[j].0@, JsonVal::Str(hs@[j].1@))).push(
                (hs@[i as int].0@, JsonVal::Str(hs@[i as int].1@)),
            ) =~= Seq::new(i as nat + 1, |j: int| (hs@[j].0@, JsonVal::Str(hs@[j].1@))));
        }
        members.push((k, JsonValue::Str(v)));
        i = i + 1;
    }
    proof {
        assert(Seq::new(hs@.len(), |j: int| (hs@[j].0@, JsonVal::Str(hs@[j].1@))) =~= Seq::new(
            headers_view(hs@).len(),
            |j: int| (headers_view(hs@)[j].0, JsonVal::Str(headers_view(hs@)[j].1)),
        ));
    }
    JsonValue::Obj(members)
}

/// The JSON value of an outbound envelope, built member by member.
fn json_value_of_out(m: OutMessage) -> (r: JsonValue)
    ensures
        r.model() == json_of_out(m@),
{
    let ghost mv = m@;
    let mut members: Vec<(String, JsonValue)> = Vec::new();
    proof {
        assert(crate::json::model_members(members@) =~= Seq::<(Seq<char>, JsonVal)>::empty());
    }
    match m {
        OutMessage::Ping => {
            push_member(&mut members, "type".to_owned(), JsonValue::Str("ping".to_owned()));
            proof {
                assert(crate::json::model_members(members@) =~= seq![
                    ("type"@, JsonVal::Str("ping"@)),
                ]);
            }
        },
        OutMessage::Register(r) => {
            push_member(&mut members, "type".to_owned(), JsonValue::Str("register".to_owned()));
            push_member(&mut members, "address".to_owned(), JsonValue::Str(r.address));
            proof {
                assert(crate::json::model_members(members@) =~= seq![
                    ("type"@, JsonVal::Str("register"@)),
                    ("address"@, JsonVal::Str(mv->Register_0)),
                ]);
            }
        },
        OutMessage::Unregister(r) => {
            push_member(&mut members, "type".to_owned(), JsonValue::Str("unregister".to_owned()));
            push_member(&mut members, "address".to_owned(), JsonValue::Str(r.address));
            proof {
                assert(crate::json::model_members(members@) =~= seq![
                    ("type"@, JsonVal::Str("unregister"@)),
                    ("address"@, JsonVal::Str(mv->Unregister_0)),
                ]);
            }
        },
        OutMessage::Send(sm) => {
            push_member(&mut members, "type".to_owned(), JsonValue::Str("send".to_owned()));
            push_member(&mut members, "address".to_owned(), JsonValue::Str(sm.address));
            match sm.reply_address {
                Some(ra) => {
                    push_member(&mut members, "replyAddress".to_owned(), JsonValue::Str(ra));
                },
                None => {},
            }
            match sm.body {
                Some(b) => {
                    push_member(&mut members, "body".to_owned(), b);
                },
                None => {},
            }
            match sm.headers {
                Some(h) => {
                    let hj = headers_json_exec(&h);
                    push_member(&mut members, "headers".to_owned(), hj);
                },
                None => {},
            }
            proof {
                assert(crate::json::model_members(members@) =~= json_of_out(mv)->Obj_0);
            }
        },
        OutMessage::Publish(msg) => {
            push_member(&mut members, "type".to_owned(), JsonValue::Str("publish".to_owned()));
            push_member(&mut members, "address".to_owned(), JsonValue::Str(msg.address));
            match msg.body {
                Some(b) => {
                    push_member(&mut members, "body".to_owned(), b);
                },
                None => {},
            }
            match msg.headers {
                Some(h) => {
                    let hj = headers_json_exec(&h);
                    push_member(&mut members, "headers".to_owned(), hj);
                },
                None => {},
            }
            proof {
                assert(crate::json::model_members(members@) =~= json_of_out(mv)->Obj_0);
            }
        },
    }
    JsonValue::Obj(members)
}

/// The JSON value of an inbound envelope, built member by member.  The
/// remote side of the protocol produces these; having it here lets a test
/// stand in for the remote bus.
fn json_value_of_in(m: InMessage) -> (r: JsonValue)
    ensures
        r.model() == json_of_in(m@),
{
    let ghost mv = m@;
    let mut members: Vec<(String, JsonValue)> = Vec::new();
    proof {
        assert(crate::json::model_members(members@) =~= Seq::<(Seq<char>, JsonVal)>::empty());
    }
    match m {
        InMessage::Pong => {
            push_member(&mut members, "type".to_owned(), JsonValue::Str("pong".to_owned()));
            proof {
                assert(crate::json::model_members(members@) =~= seq![
                    ("type"@, JsonVal::Str("pong"@)),
                ]);
            }
        },
        InMessage::Error(e) => {
            push_member(&mut members, "type".to_owned(), JsonValue::Str("err".to_owned()));
            push_member(&mut members, "message".to_owned(), JsonValue::Str(e.message));
            proof {
                assert(crate::json::model_members(members@) =~= seq![
                    ("type"@, JsonVal::Str("err"@)),
                    ("message"@, JsonVal::Str(mv->Error_0.message)),
                ]);
            }
        },
        InMessage::Message(msg) => {
            push_member(&mut members, "type".to_owned(), JsonValue::Str("message".to_owned()));
            push_member(&mut members, "address".to_owned(), JsonValue::Str(msg.address));
            match msg.body {
                Some(b) => {
                    push_member(&mut members, "body".to_owned(), b);
                },
                None => {},
            }
            match msg.headers {
                Some(h) => {
                    let hj = headers_json_exec(&h);
                    push_member(&mut members, "headers".to_owned(), hj);
                },
                None => {},
            }
            proof {
                assert(crate::json::model_members(members@) =~= json_of_in(mv)->Obj_0);
            }
        },
    }
    JsonValue::Obj(members)
}

/// Encodes an outbound envelope as its canonical JSON payload bytes.
pub fn encode_out(m: OutMessage) -> (r: Vec<u8>)
    ensures
        r@ == encoded_out(m@),
{
    let v = json_value_of_out(m);
    crate::json::to_bytes(&v)
}

/// Encodes an inbound envelope as its canonical JSON payload bytes, the
/// form in which the remote bus delivers it.
pub fn encode_in(m: InMessage) -> (r: Vec<u8>)
    ensures
        r@ == encoded_in(m@),
{
    let v = json_value_of_in(m);
    crate::json::to_bytes(&v)
}

/// First value stored under a key in an object's member list.
pub open spec fn obj_get(members: Seq<(Seq<char>, JsonVal)>, key: Seq<char>) -> Option<JsonVal>
    decreases members,
{
    if members.len() == 0 {
        None
    } else if members[0].0 == key {
        Some(members[0].1)
    } else {
        obj_get(members.drop_first(), key)
    }
}

/// The members of an object whose values are all strings, as pairs of
/// strings; nothing when some value is not a string.
pub open spec fn string_pairs(members: Seq<(Seq<char>, JsonVal)>) -> Option<
    Seq<(Seq<char>, Seq<char>)>,
>
    decreases members,
{
    if members.len() == 0 {
        Some(Seq::empty())
    } else {
        match members[0].1 {
            JsonVal::Str(v) => match string_pairs(members.drop_first()) {
                Some(rest) => Some(seq![(members[0].0, v)] + rest),
                None => None,
            },
            _ => None,
        }
    }
}

/// Reading of an optional `headers` field: absent is fine, an object of
/// strings converts, anything else is a schema mismatch.
pub open spec fn headers_of_json(v: Option<JsonVal>) -> Option<
    Option<Seq<(Seq<char>, Seq<char>)>>,
> {
    match v {
        None => Some(None),
        Some(JsonVal::Obj(ms)) => match string_pairs(ms) {
            Some(h) => Some(Some(h)),
            None => None,
        },
        Some(_) => None,
    }
}

/// Reading of an inbound envelope from its JSON value: dispatch on the
/// `type` discriminator, then pick the variant's fields, in any member
/// order.  Unknown discriminators and mismatched shapes read as nothing.
pub open spec fn interp_in(v: JsonVal) -> Option<InMessageView> {
    match v {
        JsonVal::Obj(members) => match obj_get(members, "type"@) {
            Some(JsonVal::Str(t)) => if t == "pong"@ {
                Some(InMessageView::Pong)
            } else if t == "err"@ {
                match obj_get(members, "message"@) {
                    Some(JsonVal::Str(msg)) => Some(
                        InMessageView::Error(ErrorMessageView { message: msg }),
                    ),
                    _ => None,
                }
            } else if t == "message"@ {
                match obj_get(members, "address"@) {
                    Some(JsonVal::Str(a)) => match headers_of_json(obj_get(members, "headers"@)) {
                        Some(h) => Some(
                            InMessageView::Message(
                                MessageView {
                                    address: a,
                                    body: obj_get(members, "body"@),
                                    headers: h,
                                },
                            ),
                        ),
                        None => None,
                    },
                    _ => None,
                }
            } else {
                None
            },
            _ => None,
        },
        _ => None,
    }
}

/// What decoding a payload yields: the envelope read from the parsed JSON
/// value, or nothing when the payload is not canonical JSON or not an
/// envelope.
pub open spec fn decode_in_spec(b: Seq<u8>) -> Option<InMessageView> {
    match crate::json::parse_json(b) {
        Some(v) => interp_in(v),
        None => None,
    }
}

/// Why a payload failed to decode.
#[derive(Debug, PartialEq, Eq, Structural, Clone, Copy)]
pub enum DecodeFailure {
    /// The payload is not well-formed JSON text.
    MalformedJson,
    /// The JSON value is not a known inbound envelope shape.
    BadEnvelope,
}

/// A payload that failed to decode, carrying the raw bytes and the reason.
#[derive(Debug, PartialEq)]
pub struct ProtocolDecodeError {
    pub raw: Vec<u8>,
    pub reason: DecodeFailure,
}

/// Converts an object's members to header pairs, when every value is a
/// string.
fn string_pairs_exec(hms: &Vec<(String, JsonValue)>) -> (r: Option<Vec<(String, String)>>)
    ensures
        r matches Some(h) ==> string_pairs(crate::json::model_members(hms@)) == Some(
            headers_view(h@),
        ),
        r is None ==> string_pairs(crate::json::model_members(hms@)) is None,
{
    let mut out: Vec<(String, String)> = Vec::new();
    let mut i: usize = 0;
    proof {
        assert(hms@.skip(0) =~= hms@);
        assert(headers_view(out@) =~= Seq::<(Seq<char>, Seq<char>)>::empty());
        if let Some(rest) = string_pairs(crate::json::model_members(hms@)) {
            assert(headers_view(out@) + rest =~= rest);
        }
    }
    while i < hms.len()
        invariant
            i <= hms@.len(),
            (match string_pairs(crate::json::model_members(hms@.skip(i as int))) {
                Some(rest) => string_pairs(crate::json::model_members(hms@)) == Some(
                    headers_view(out@) + rest,
                ),
                None => string_pairs(crate::json::model_members(hms@)) is None,
            }),
        decreases hms@.len() - i,
    {
        let ghost rem0 = hms@.skip(i as int);
        proof {
            crate::json::lemma_model_members_first(rem0);
            assert(rem0.drop_first() =~= hms@.skip(i as int + 1));
            assert(rem0[0] == hms@[i as int]);
        }
        let pair = &hms[i];
        match &pair.1 {
            JsonValue::Str(sv) => {
                let k = pair.0.clone();
                let s2 = sv.clone();
                proof {
                    if let Some(rest2) = string_pairs(
                        crate::json::model_members(hms@.skip(i as int + 1)),
                    ) {
                        assert(headers_view(out@) + (seq![(k@, s2@)] + rest2) =~= headers_view(
                            out@.push((k, s2)),
                        ) + rest2);
                    }
                }
                out.push((k, s2));
            },
            _ => {
                return None;
            },
        }
        i = i + 1;
    }
    proof {
        assert(hms@.skip(hms@.len() as int) =~= Seq::<(String, JsonValue)>::empty());
        assert(crate::json::model_members(Seq::<(String, JsonValue)>::empty()) =~= Seq::<
            (Seq<char>, JsonVal),
        >::empty());
        assert(headers_view(out@) + Seq::<(Seq<char>, Seq<char>)>::empty() =~= headers_view(out@));
    }
    Some(out)
}

/// The envelope field names are pairwise distinct character sequences.
proof fn lemma_distinct_keys()
    ensures
        "type"@ != "message"@,
        "type"@ != "address"@,
        "type"@ != "body"@,
        "type"@ != "headers"@,
        "message"@ != "address"@,
        "message"@ != "body"@,
        "message"@ != "headers"@,
        "address"@ != "body"@,
        "address"@ != "headers"@,
        "body"@ != "headers"@,
        "pong"@ != "err"@,
        "pong"@ != "message"@,
        "err"@ != "message"@,
{
    reveal_strlit("type");
    reveal_strlit("message");
    reveal_strlit("address");
    reveal_strlit("body");
    reveal_strlit("headers");
    reveal_strlit("pong");
    reveal_strlit("err");
    assert("type"@.len() == 4);
    assert("message"@.len() == 7);
    assert("address"@.len() == 7);
    assert("body"@.len() == 4);
    assert("headers"@.len() == 7);
    assert("pong"@.len() == 4);
    assert("err"@.len() == 3);
    assert("type"@[0] == 't');
    assert("body"@[0] == 'b');
    assert("message"@[0] == 'm');
    assert("address"@[0] == 'a');
    assert("headers"@[0] == 'h');
    assert("pong"@[0] == 'p');
}

/// Reads an inbound envelope out of a JSON value, mirroring [`interp_in`].
fn interp_in_exec(v: JsonValue) -> (r: Option<InMessage>)
    ensures
        r matches Some(m) ==> interp_in(v.model()) == Some(m@),
        r is None ==> interp_in(v.model()) is None,
{
    let mut members = match v {
        JsonValue::Obj(ms) => ms,
        _ => {
            return None;
        },
    };
    let ghost all = crate::json::model_members(members@);
    let key_type: String = "type".to_owned();
    let key_message: String = "message".to_owned();
    let key_address: String = "address".to_owned();
    let key_body: String = "body".to_owned();
    let key_headers: String = "headers".to_owned();
    let mut slot_type: Option<JsonValue> = None;
    let mut slot_message: Option<JsonValue> = None;
    let mut slot_address: Option<JsonValue> = None;
    let mut slot_body: Option<JsonValue> = None;
    let mut slot_headers: Option<JsonValue> = None;
    while members.len() > 0
        invariant
            key_type@ == "type"@,
            key_message@ == "message"@,
            key_address@ == "address"@,
            key_body@ == "body"@,
            key_headers@ == "headers"@,
            (match slot_type {
                Some(jv) => obj_get(all, "type"@) == Some(jv.model()),
                None => obj_get(all, "type"@) == obj_get(
                    crate::json::model_members(members@),
                    "type"@,
                ),
            }),
            (match slot_message {
                Some(jv) => obj_get(all, "message"@) == Some(jv.model()),
                None => obj_get(all, "message"@) == obj_get(
                    crate::json::model_members(members@),
                    "message"@,
                ),
            }),
            (match slot_address {
                Some(jv) => obj_get(all, "address"@) == Some(jv.model()),
                None => obj_get(all, "address"@) == obj_get(
                    crate::json::model_members(members@),
                    "address"@,
                ),
            }),
            (match slot_body {
                Some(jv) => obj_get(all, "body"@) == Some(jv.model()),
                None => obj_get(all, "body"@) == obj_get(
                    crate::json::model_members(members@),
                    "body"@,
                ),
            }),
            (match slot_headers {
                Some(jv) => obj_get(all, "headers"@) == Some(jv.model()),
                None => obj_get(all, "headers"@) == obj_get(
                    crate::json::model_members(members@),
                    "headers"@,
                ),
            }),
        decreases members@.len(),
    {
        let ghost mem0 = members@;
        proof {
            lemma_distinct_keys();
            crate::json::lemma_model_members_first(mem0);
        }
        let (k, val) = members.remove(0);
        proof {
            assert(members@ =~= mem0.drop_first());
        }
        if k == key_type && slot_type.is_none() {
            slot_type = Some(val);
        } else if k == key_message && slot_message.is_none() {
            slot_message = Some(val);
        } else if k == key_address && slot_address.is_none() {
            slot_address = Some(val);
        } else if k == key_body && slot_body.is_none() {
            slot_body = Some(val);
        } else if k == key_headers && slot_headers.is_none() {
            slot_headers = Some(val);
        }
    }
    proof {
        assert(crate::json::model_members(members@) =~= Seq::<(Seq<char>, JsonVal)>::empty());
    }
    let t = match slot_type {
        Some(JsonValue::Str(t)) => t,
        _ => {
            return None;
        },
    };
    let tag_pong: String = "pong".to_owned();
    let tag_err: String = "err".to_owned();
    let tag_message: String = "message".to_owned();
    if t == tag_pong {
        Some(InMessage::Pong)
    } else if t == tag_err {
        match slot_message {
            Some(JsonValue::Str(msg)) => Some(InMessage::Error(ErrorMessage { message: msg })),
            _ => None,
        }
    } else if t == tag_message {
        let a = match slot_address {
            Some(JsonValue::Str(a)) => a,
            _ => {
                return None;
            },
        };
        let headers: Option<Vec<(String, String)>> = match slot_headers {
            None => None,
            Some(JsonValue::Obj(hms)) => match string_pairs_exec(&hms) {
                Some(h) => Some(h),
                None => {
                    return None;
                },
            },
            Some(_) => {
                return None;
            },
        };
        Some(InMessage::Message(Message { address: a, body: slot_body, headers }))
    } else {
        None
    }
}

/// Decodes one frame payload into an inbound envelope.  Fails, and never
/// panics, on anything that is not canonical JSON text holding a known
/// envelope shape; the error carries the raw payload and the reason.
pub fn decode_in(bytes: &[u8]) -> (r: Result<InMessage, ProtocolDecodeError>)
    ensures
        r matches Ok(m) ==> decode_in_spec(bytes@) == Some(m@),
        r matches Err(e) ==> decode_in_spec(bytes@) is None && e.raw@ == bytes@ && ((
        e.reason is MalformedJson) <==> crate::json::parse_json(bytes@) is None),
{
    match crate::json::from_bytes(bytes) {
        Some(v) => match interp_in_exec(v) {
            Some(m) => Ok(m),
            None => Err(
                ProtocolDecodeError {
                    raw: vstd::slice::slice_to_vec(bytes),
                    reason: DecodeFailure::BadEnvelope,
                },
            ),
        },
        None => Err(
            ProtocolDecodeError {
                raw: vstd::slice::slice_to_vec(bytes),
                reason: DecodeFailure::MalformedJson,
            },
        ),
    }
}

/// Prepending a well-formed member keeps a member list well-formed.
proof fn lemma_wf_members_cons(m0: (Seq<char>, JsonVal), rest: Seq<(Seq<char>, JsonVal)>)
    requires
        crate::json::wf_val(m0.1),
        crate::json::wf_members(rest),
    ensures
        crate::json::wf_members(seq![m0] + rest),
{
    assert((seq![m0] + rest)[0] == m0);
    assert((seq![m0] + rest).drop_first() =~= rest);
}

/// Looking a key up in a member list looks at the first member first.
proof fn lemma_obj_get_cons(m0: (Seq<char>, JsonVal), rest: Seq<(Seq<char>, JsonVal)>, key: Seq<
    char,
>)
    ensures
        obj_get(seq![m0] + rest, key) == if m0.0 == key {
            Some(m0.1)
        } else {
            obj_get(rest, key)
        },
{
    assert((seq![m0] + rest)[0] == m0);
    assert((seq![m0] + rest).drop_first() =~= rest);
}

/// A member list whose values are all strings is well-formed.
proof fn lemma_wf_str_members(ms: Seq<(Seq<char>, JsonVal)>)
    requires
        forall|i: int| 0 <= i < ms.len() ==> (#[trigger] ms[i]).1 is Str,
    ensures
        crate::json::wf_members(ms),
    decreases ms,
{
    if ms.len() > 0 {
        assert(ms[0].1 is Str);
        assert(crate::json::wf_val(ms[0].1));
        assert forall|i: int|
            0 <= i < ms.drop_first().len() implies (#[trigger] ms.drop_first()[i]).1 is Str by {
            assert(ms.drop_first()[i] == ms[i + 1]);
            assert(ms[i + 1].1 is Str);
        }
        lemma_wf_str_members(ms.drop_first());
    }
}

/// Reading the header object built from a header list gives the list back.
proof fn lemma_string_pairs_inverse(hs: Seq<(Seq<char>, Seq<char>)>)
    ensures
        string_pairs(json_of_headers(hs)->Obj_0) == Some(hs),
    decreases hs,
{
    let inner = json_of_headers(hs)->Obj_0;
    if hs.len() == 0 {
        assert(inner.len() == 0);
        assert(string_pairs(inner) == Some(Seq::<(Seq<char>, Seq<char>)>::empty()));
        assert(Seq::<(Seq<char>, Seq<char>)>::empty() =~= hs);
    } else {
        assert(inner[0] == (hs[0].0, JsonVal::Str(hs[0].1)));
        assert(inner.drop_first() =~= json_of_headers(hs.drop_first())->Obj_0);
        lemma_string_pairs_inverse(hs.drop_first());
        assert(seq![(hs[0].0, hs[0].1)] + hs.drop_first() =~= hs);
    }
}

/// True when a message body can be held by a [`JsonValue`].
pub open spec fn wf_body(b: Option<JsonVal>) -> bool {
    match b {
        Some(v) => crate::json::wf_val(v),
        None => true,
    }
}

/// True when an inbound envelope model can be held by an [`InMessage`].
pub open spec fn wf_in_view(m: InMessageView) -> bool {
    match m {
        InMessageView::Message(mv) => wf_body(mv.body),
        _ => true,
    }
}

/// Round trip: decoding the encoded form of any inbound envelope yields
/// exactly that envelope.  The outbound variants that share these shapes
/// (publish and message differ only in their tag) round-trip through the
/// same member layout.
pub proof fn lemma_decode_encode_in(m: InMessageView)
    requires
        wf_in_view(m),
    ensures
        decode_in_spec(encoded_in(m)) == Some(m),
{
    let j = json_of_in(m);
    lemma_distinct_keys();
    let empty_members = Seq::<(Seq<char>, JsonVal)>::empty();
    assert(crate::json::wf_members(empty_members));
    match m {
        InMessageView::Pong => {
            let t0 = ("type"@, JsonVal::Str("pong"@));
            assert(j->Obj_0 =~= seq![t0] + empty_members);
            lemma_wf_members_cons(t0, empty_members);
            lemma_obj_get_cons(t0, empty_members, "type"@);
            assert(interp_in(j) == Some(m));
        },
        InMessageView::Error(e) => {
            let t0 = ("type"@, JsonVal::Str("err"@));
            let m0 = ("message"@, JsonVal::Str(e.message));
            assert(j->Obj_0 =~= seq![t0] + (seq![m0] + empty_members));
            lemma_wf_members_cons(m0, empty_members);
            lemma_wf_members_cons(t0, seq![m0] + empty_members);
            lemma_obj_get_cons(t0, seq![m0] + empty_members, "type"@);
            lemma_obj_get_cons(t0, seq![m0] + empty_members, "message"@);
            lemma_obj_get_cons(m0, empty_members, "message"@);
            assert(interp_in(j) == Some(m));
        },
        InMessageView::Message(mv) => {
            let t0 = ("type"@, JsonVal::Str("message"@));
            let a0 = ("address"@, JsonVal::Str(mv.address));
            let tail2: Seq<(Seq<char>, JsonVal)> = match mv.headers {
                Some(h) => seq![("headers"@, json_of_headers(h))] + empty_members,
                None => empty_members,
            };
            let tail1: Seq<(Seq<char>, JsonVal)> = match mv.body {
                Some(b) => seq![("body"@, b)] + tail2,
                None => tail2,
            };
            assert(j->Obj_0 =~= seq![t0] + (seq![a0] + tail1));
            if let Some(h) = mv.headers {
                let h0 = ("headers"@, json_of_headers(h));
                assert forall|i: int|
                    0 <= i < (json_of_headers(h)->Obj_0).len() implies (#[trigger] (json_of_headers(
                    h,
                )->Obj_0)[i]).1 is Str by {}
                lemma_wf_str_members(json_of_headers(h)->Obj_0);
                lemma_wf_members_cons(h0, empty_members);
                lemma_obj_get_cons(h0, empty_members, "headers"@);
                lemma_obj_get_cons(h0, empty_members, "body"@);
                lemma_string_pairs_inverse(h);
            }
            if let Some(b) = mv.body {
                let b0 = ("body"@, b);
                lemma_wf_members_cons(b0, tail2);
                lemma_obj_get_cons(b0, tail2, "body"@);
                lemma_obj_get_cons(b0, tail2, "headers"@);
            }
            lemma_wf_members_cons(a0, tail1);
            lemma_wf_members_cons(t0, seq![a0] + tail1);
            lemma_obj_get_cons(t0, seq![a0] + tail1, "type"@);
            lemma_obj_get_cons(t0, seq![a0] + tail1, "address"@);
            lemma_obj_get_cons(t0, seq![a0] + tail1, "body"@);
            lemma_obj_get_cons(t0, seq![a0] + tail1, "headers"@);
            lemma_obj_get_cons(a0, tail1, "address"@);
            lemma_obj_get_cons(a0, tail1, "body"@);
            lemma_obj_get_cons(a0, tail1, "headers"@);
            assert(obj_get(j->Obj_0, "type"@) == Some(JsonVal::Str("message"@)));
            assert(obj_get(j->Obj_0, "address"@) == Some(JsonVal::Str(mv.address)));
            assert(obj_get(j->Obj_0, "body"@) == mv.body);
            assert(headers_of_json(obj_get(j->Obj_0, "headers"@)) == Some(mv.headers));
            assert(interp_in(j) == Some(m));
        },
    }
    assert(crate::json::wf_val(j));
    crate::json::lemma_parse_print(j);
}

} // verus!
