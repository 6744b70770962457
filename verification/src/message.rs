//! Messages, hub events, and their stable binary encoding.
//!
//! Records are length-delimited with explicit field tags: fixed-width
//! big-endian integers, a presence byte for optional fields, and a 4-byte
//! length before variable-length bytes. Encoding and decoding are exact
//! inverses (`lemma_event_round_trip`).

use vstd::prelude::*;

use crate::codec::lemma_u32_be_roundtrip;
use crate::codec::lemma_u64_be_roundtrip;
use crate::codec::push_u32_be;
use crate::codec::push_u64_be;
use crate::codec::read_u32_be;
use crate::codec::read_u64_be;
use crate::codec::u32_be_spec;
use crate::codec::u32_of_be_spec;
use crate::codec::u64_be_spec;
use crate::codec::u64_of_be_spec;

verus! {

/// The hub event type tag of a message merge.
pub const HUB_EVENT_MERGE_MESSAGE: u8 = 1;

/// The message type tag that marks removes as unsupported for a kind.
pub const MESSAGE_TYPE_NONE: u8 = 0;

/// The fields of a message the store reads.
#[derive(Debug, Clone, Copy, PartialEq, Eq, Structural)]
pub struct MessageData {
    pub fid: u32,
    pub timestamp: u32,
    pub msg_type: u8,
}

/// A message: its mandatory data fields and its content hash.
#[derive(Debug, Clone, PartialEq)]
pub struct Message {
    pub data: Option<MessageData>,
    pub hash: Vec<u8>,
}

/// The abstract value of a `Message`.
pub struct MessageModel {
    pub data: Option<MessageData>,
    pub hash: Seq<u8>,
}

impl View for Message {
    type V = MessageModel;

    open spec fn view(&self) -> MessageModel {
        MessageModel { data: self.data, hash: self.hash@ }
    }
}

/// The body of a merge event: the merged message and what it superseded.
#[derive(Debug, Clone, PartialEq)]
pub struct MergeMessageBody {
    pub message: Option<Message>,
    pub deleted_messages: Vec<Message>,
}

/// The durable record of a state change, with a monotonic id.
#[derive(Debug, Clone, PartialEq)]
pub struct HubEvent {
    pub event_type: u8,
    pub body: MergeMessageBody,
    pub id: u64,
}

/// The abstract value of a `HubEvent`.
pub struct EventModel {
    pub event_type: u8,
    pub id: u64,
    pub message: Option<MessageModel>,
    pub deleted: Seq<MessageModel>,
}

impl View for HubEvent {
    type V = EventModel;

    open spec fn view(&self) -> EventModel {
        EventModel {
            event_type: self.event_type,
            id: self.id,
            message: match self.body.message {
                Some(m) => Some(m@),
                None => None,
            },
            deleted: self.body.deleted_messages@.map_values(|m: Message| m@),
        }
    }
}

/// A message model that the encoding can carry: its hash length fits the
/// 4-byte length field.
pub open spec fn msg_wf(m: MessageModel) -> bool {
    m.hash.len() <= 0xFFFFFFFF
}

/// An event model that the encoding can carry.
pub open spec fn event_wf(e: EventModel) -> bool {
    &&& match e.message {
        Some(m) => msg_wf(m),
        None => true,
    }
    &&& e.deleted.len() <= 0xFFFFFFFF
    &&& forall|i: int| 0 <= i < e.deleted.len() ==> msg_wf(#[trigger] e.deleted[i])
}

/// The encoded bytes of a message's data fields.
pub open spec fn enc_msg_data(d: MessageData) -> Seq<u8> {
    u32_be_spec(d.fid) + u32_be_spec(d.timestamp) + seq![d.msg_type]
}

/// The encoded bytes of a message.
pub open spec fn enc_msg(m: MessageModel) -> Seq<u8> {
    (match m.data {
        None => seq![0u8],
        Some(d) => seq![1u8] + enc_msg_data(d),
    }) + u32_be_spec(m.hash.len() as u32) + m.hash
}

/// The encoded bytes of a list of messages, head first.
pub open spec fn enc_msgs(ms: Seq<MessageModel>) -> Seq<u8>
    decreases ms.len(),
{
    if ms.len() == 0 {
        Seq::empty()
    } else {
        enc_msg(ms[0]) + enc_msgs(ms.skip(1))
    }
}

/// The encoded bytes of an event.
pub open spec fn enc_event(e: EventModel) -> Seq<u8> {
    seq![e.event_type] + u64_be_spec(e.id) + (match e.message {
        None => seq![0u8],
        Some(m) => seq![1u8] + enc_msg(m),
    }) + u32_be_spec(e.deleted.len() as u32) + enc_msgs(e.deleted)
}

/// Parses one message at `pos`; on success also returns the position after
/// it.
pub open spec fn dec_msg(b: Seq<u8>, pos: int) -> Option<(MessageModel, int)> {
    if pos < 0 || pos + 1 > b.len() {
        None
    } else if b[pos] == 0 {
        dec_msg_tail(b, pos + 1, None)
    } else if b[pos] == 1 {
        if pos + 10 > b.len() {
            None
        } else {
            dec_msg_tail(
                b,
                pos + 10,
                Some(
                    MessageData {
                        fid: u32_of_be_spec(b.subrange(pos + 1, pos + 5)),
                        timestamp: u32_of_be_spec(b.subrange(pos + 5, pos + 9)),
                        msg_type: b[pos + 9],
                    },
                ),
            )
        }
    } else {
        None
    }
}

/// Parses the hash that follows a message's data fields.
pub open spec fn dec_msg_tail(b: Seq<u8>, pos: int, data: Option<MessageData>) -> Option<
    (MessageModel, int),
> {
    if pos + 4 > b.len() {
        None
    } else {
        let hl = u32_of_be_spec(b.subrange(pos, pos + 4)) as int;
        if pos + 4 + hl > b.len() {
            None
        } else {
            Some((MessageModel { data, hash: b.subrange(pos + 4, pos + 4 + hl) }, pos + 4 + hl))
        }
    }
}

/// Parses `count` messages starting at `pos`.
pub open spec fn dec_msgs(b: Seq<u8>, pos: int, count: int) -> Option<(Seq<MessageModel>, int)>
    decreases count,
{
    if count <= 0 {
        Some((Seq::empty(), pos))
    } else {
        match dec_msg(b, pos) {
            None => None,
            Some((m, p2)) => match dec_msgs(b, p2, count - 1) {
                None => None,
                Some((rest, p3)) => Some((seq![m] + rest, p3)),
            },
        }
    }
}

/// Parses a whole event; the buffer must be consumed exactly.
pub open spec fn dec_event(b: Seq<u8>) -> Option<EventModel> {
    if b.len() < 10 {
        None
    } else {
        let event_type = b[0];
        let id = u64_of_be_spec(b.subrange(1, 9));
        let parsed = if b[9] == 0 {
            Some((None::<MessageModel>, 10int))
        } else if b[9] == 1 {
            match dec_msg(b, 10) {
                None => None,
                Some((m, p)) => Some((Some(m), p)),
            }
        } else {
            None
        };
        match parsed {
            None => None,
            Some((message, p)) => {
                if p + 4 > b.len() {
                    None
                } else {
                    let count = u32_of_be_spec(b.subrange(p, p + 4)) as int;
                    match dec_msgs(b, p + 4, count) {
                        None => None,
                        Some((deleted, pend)) => {
                            if pend == b.len() {
                                Some(EventModel { event_type, id, message, deleted })
                            } else {
                                None
                            }
                        },
                    }
                }
            },
        }
    }
}

/// Decoding reads back one encoded message wherever it lies in a buffer.
pub proof fn lemma_dec_msg(b: Seq<u8>, pos: int, m: MessageModel)
    requires
        msg_wf(m),
        0 <= pos,
        pos + enc_msg(m).len() <= b.len(),
        b.subrange(pos, pos + enc_msg(m).len()) == enc_msg(m),
    ensures
        dec_msg(b, pos) == Some((m, pos + enc_msg(m).len())),
{
    let e = enc_msg(m);
    let n = e.len() as int;
    let hl_int = m.hash.len() as int;
    assert forall|i: int| 0 <= i < n implies b[pos + i] == #[trigger] e[i] by {
        assert(b.subrange(pos, pos + n)[i] == b[pos + i]);
        assert(b.subrange(pos, pos + n)[i] == e[i]);
    }
    match m.data {
        None => {
            let hp = pos + 1;
            assert(b[pos] == e[0] && e[0] == 0u8);
            assert forall|k: int| #![trigger b.subrange(hp, hp + 4)[k]] 0 <= k < 4 implies b.subrange(hp, hp + 4)[k] == u32_be_spec(
                m.hash.len() as u32,
            )[k] by {
                assert(e[1 + k] == u32_be_spec(m.hash.len() as u32)[k]);
                assert(b[pos + (1 + k)] == e[1 + k]);
                assert(b.subrange(hp, hp + 4)[k] == b[hp + k]);
            }
            assert(b.subrange(hp, hp + 4) =~= u32_be_spec(m.hash.len() as u32));
            lemma_u32_be_roundtrip(m.hash.len() as u32);
            assert(u32_of_be_spec(b.subrange(hp, hp + 4)) as int == hl_int);
            assert forall|k: int| #![trigger b.subrange(hp + 4, hp + 4 + hl_int)[k]] 0 <= k < hl_int implies b.subrange(hp + 4, hp + 4 + hl_int)[k]
                == m.hash[k] by {
                assert(e[5 + k] == m.hash[k]);
                assert(b[pos + (5 + k)] == e[5 + k]);
                assert(b.subrange(hp + 4, hp + 4 + hl_int)[k] == b[hp + 4 + k]);
            }
            assert(b.subrange(hp + 4, hp + 4 + hl_int) =~= m.hash);
            assert(dec_msg(b, pos) == Some((m, pos + n))) by {
                let got = dec_msg(b, pos).unwrap().0;
                assert(got.hash =~= m.hash);
            }
        },
        Some(d) => {
            let hp = pos + 10;
            assert(b[pos] == e[0] && e[0] == 1u8);
            assert forall|k: int| #![trigger b.subrange(pos + 1, pos + 5)[k]] 0 <= k < 4 implies b.subrange(pos + 1, pos + 5)[k]
                == u32_be_spec(d.fid)[k] by {
                assert(e[1 + k] == enc_msg_data(d)[k]);
                assert(enc_msg_data(d)[k] == u32_be_spec(d.fid)[k]);
                assert(b[pos + (1 + k)] == e[1 + k]);
                assert(b.subrange(pos + 1, pos + 5)[k] == b[pos + 1 + k]);
            }
            assert(b.subrange(pos + 1, pos + 5) =~= u32_be_spec(d.fid));
            lemma_u32_be_roundtrip(d.fid);
            assert forall|k: int| #![trigger b.subrange(pos + 5, pos + 9)[k]] 0 <= k < 4 implies b.subrange(pos + 5, pos + 9)[k]
                == u32_be_spec(d.timestamp)[k] by {
                assert(e[5 + k] == enc_msg_data(d)[4 + k]);
                assert(enc_msg_data(d)[4 + k] == u32_be_spec(d.timestamp)[k]);
                assert(b[pos + (5 + k)] == e[5 + k]);
                assert(b.subrange(pos + 5, pos + 9)[k] == b[pos + 5 + k]);
            }
            assert(b.subrange(pos + 5, pos + 9) =~= u32_be_spec(d.timestamp));
            lemma_u32_be_roundtrip(d.timestamp);
            assert(e[9] == enc_msg_data(d)[8] && enc_msg_data(d)[8] == d.msg_type);
            assert(b[pos + 9] == e[9]);
            assert forall|k: int| #![trigger b.subrange(hp, hp + 4)[k]] 0 <= k < 4 implies b.subrange(hp, hp + 4)[k] == u32_be_spec(
                m.hash.len() as u32,
            )[k] by {
                assert(e[10 + k] == u32_be_spec(m.hash.len() as u32)[k]);
                assert(b[pos + (10 + k)] == e[10 + k]);
                assert(b.subrange(hp, hp + 4)[k] == b[hp + k]);
            }
            assert(b.subrange(hp, hp + 4) =~= u32_be_spec(m.hash.len() as u32));
            lemma_u32_be_roundtrip(m.hash.len() as u32);
            assert(u32_of_be_spec(b.subrange(hp, hp + 4)) as int == hl_int);
            assert forall|k: int| #![trigger b.subrange(hp + 4, hp + 4 + hl_int)[k]] 0 <= k < hl_int implies b.subrange(hp + 4, hp + 4 + hl_int)[k]
                == m.hash[k] by {
                assert(e[14 + k] == m.hash[k]);
                assert(b[pos + (14 + k)] == e[14 + k]);
                assert(b.subrange(hp + 4, hp + 4 + hl_int)[k] == b[hp + 4 + k]);
            }
            assert(b.subrange(hp + 4, hp + 4 + hl_int) =~= m.hash);
            assert(dec_msg(b, pos) == Some((m, pos + n))) by {
                let got = dec_msg(b, pos).unwrap().0;
                assert(got.data == Some(d));
                assert(got.hash =~= m.hash);
            }
        },
    }
}

/// Decoding reads back an encoded list of messages wherever it lies.
pub proof fn lemma_dec_msgs(b: Seq<u8>, pos: int, ms: Seq<MessageModel>)
    requires
        forall|i: int| 0 <= i < ms.len() ==> msg_wf(#[trigger] ms[i]),
        0 <= pos,
        pos + enc_msgs(ms).len() <= b.len(),
        b.subrange(pos, pos + enc_msgs(ms).len()) == enc_msgs(ms),
    ensures
        dec_msgs(b, pos, ms.len() as int) == Some((ms, pos + enc_msgs(ms).len())),
    decreases ms.len(),
{
    let e = enc_msgs(ms);
    let n = e.len() as int;
    assert forall|i: int| 0 <= i < n implies b[pos + i] == #[trigger] e[i] by {
        assert(b.subrange(pos, pos + n)[i] == b[pos + i]);
        assert(b.subrange(pos, pos + n)[i] == e[i]);
    }
    if ms.len() == 0 {
        assert(ms =~= Seq::<MessageModel>::empty());
    } else {
        let head = ms[0];
        let tail = ms.skip(1);
        let eh = enc_msg(head);
        let et = enc_msgs(tail);
        let lh = eh.len() as int;
        assert(e == eh + et);
        assert forall|k: int| #![trigger b.subrange(pos, pos + lh)[k]] 0 <= k < lh implies b.subrange(pos, pos + lh)[k] == eh[k] by {
            assert(e[k] == eh[k]);
            assert(b[pos + k] == e[k]);
            assert(b.subrange(pos, pos + lh)[k] == b[pos + k]);
        }
        assert(b.subrange(pos, pos + lh) =~= eh);
        lemma_dec_msg(b, pos, head);
        let p2 = pos + lh;
        assert forall|k: int| #![trigger b.subrange(p2, p2 + et.len() as int)[k]] 0 <= k < et.len() implies b.subrange(p2, p2 + et.len() as int)[k]
            == et[k] by {
            assert(e[lh + k] == et[k]);
            assert(b[pos + (lh + k)] == e[lh + k]);
            assert(b.subrange(p2, p2 + et.len() as int)[k] == b[p2 + k]);
        }
        assert(b.subrange(p2, p2 + et.len() as int) =~= et);
        assert(forall|i: int| 0 <= i < tail.len() ==> msg_wf(#[trigger] tail[i])) by {
            assert(forall|i: int| 0 <= i < tail.len() ==> #[trigger] tail[i] == ms[i + 1]);
        }
        lemma_dec_msgs(b, p2, tail);
        assert(seq![head] + tail =~= ms);
    }
}

/// Round trip: decoding an encoded event yields the event.
#[verifier::rlimit(100)]
pub proof fn lemma_event_round_trip(e: EventModel)
    requires
        event_wf(e),
    ensures
        dec_event(enc_event(e)) == Some(e),
{
    let b = enc_event(e);
    let hm: Seq<u8> = match e.message {
        None => seq![0u8],
        Some(m) => seq![1u8] + enc_msg(m),
    };
    let cl = u32_be_spec(e.deleted.len() as u32);
    let dm = enc_msgs(e.deleted);
    assert(b == seq![e.event_type] + u64_be_spec(e.id) + hm + cl + dm);
    let p: int = 9 + hm.len() as int;
    assert(b.len() >= 10);
    assert(b[0] == e.event_type);
    assert forall|k: int| #![trigger b.subrange(1, 9)[k]] 0 <= k < 8 implies b.subrange(1, 9)[k] == u64_be_spec(e.id)[k] by {
        assert(b[1 + k] == u64_be_spec(e.id)[k]);
        assert(b.subrange(1, 9)[k] == b[1 + k]);
    }
    assert(b.subrange(1, 9) =~= u64_be_spec(e.id));
    lemma_u64_be_roundtrip(e.id);
    match e.message {
        None => {
            assert(b[9] == 0u8);
        },
        Some(m) => {
            assert(b[9] == 1u8);
            let lm = enc_msg(m).len() as int;
            assert forall|k: int| #![trigger b.subrange(10, 10 + lm)[k]] 0 <= k < lm implies b.subrange(10, 10 + lm)[k] == enc_msg(
                m,
            )[k] by {
                assert(b[10 + k] == hm[1 + k]);
                assert(hm[1 + k] == enc_msg(m)[k]);
                assert(b.subrange(10, 10 + lm)[k] == b[10 + k]);
            }
            assert(b.subrange(10, 10 + lm) =~= enc_msg(m));
            lemma_dec_msg(b, 10, m);
        },
    }
    assert(p + 4 <= b.len());
    assert forall|k: int| #![trigger b.subrange(p, p + 4)[k]] 0 <= k < 4 implies b.subrange(p, p + 4)[k] == cl[k] by {
        assert(b[p + k] == cl[k]);
        assert(b.subrange(p, p + 4)[k] == b[p + k]);
    }
    assert(b.subrange(p, p + 4) =~= cl);
    lemma_u32_be_roundtrip(e.deleted.len() as u32);
    assert(u32_of_be_spec(b.subrange(p, p + 4)) as int == e.deleted.len() as int);
    assert forall|k: int| #![trigger b.subrange(p + 4, p + 4 + dm.len() as int)[k]] 0 <= k < dm.len() implies b.subrange(p + 4, p + 4 + dm.len() as int)[k]
        == dm[k] by {
        assert(b[p + 4 + k] == dm[k]);
        assert(b.subrange(p + 4, p + 4 + dm.len() as int)[k] == b[p + 4 + k]);
    }
    assert(b.subrange(p + 4, p + 4 + dm.len() as int) =~= dm);
    lemma_dec_msgs(b, p + 4, e.deleted);
    assert(p + 4 + dm.len() == b.len());
}

/// Appends the encoding of one message onto a buffer.
pub fn encode_message_onto(out: &mut Vec<u8>, m: &Message)
    requires
        msg_wf(m@),
    ensures
        final(out)@ == old(out)@ + enc_msg(m@),
{
    match &m.data {
        None => {
            out.push(0u8);
        },
        Some(d) => {
            out.push(1u8);
            push_u32_be(out, d.fid);
            push_u32_be(out, d.timestamp);
            out.push(d.msg_type);
        },
    }
    push_u32_be(out, m.hash.len() as u32);
    let mut i: usize = 0;
    let ghost mid = out@;
    while i < m.hash.len()
        invariant
            i <= m.hash@.len(),
            out@ == mid + m.hash@.take(i as int),
        decreases m.hash@.len() - i,
    {
        out.push(m.hash[i]);
        proof {
            assert(m.hash@.take(i as int).push(m.hash@[i as int]) =~= m.hash@.take(i as int + 1));
        }
        i = i + 1;
    }
    proof {
        assert(m.hash@.take(m.hash@.len() as int) =~= m.hash@);
        assert(out@ =~= old(out)@ + enc_msg(m@));
    }
}

/// Encodes one message.
pub fn encode_message(m: &Message) -> (r: Vec<u8>)
    requires
        msg_wf(m@),
    ensures
        r@ == enc_msg(m@),
{
    let mut out: Vec<u8> = Vec::new();
    encode_message_onto(&mut out, m);
    proof {
        assert(out@ =~= enc_msg(m@));
    }
    out
}

/// Encodes a whole event.
pub fn encode_hub_event(e: &HubEvent) -> (r: Vec<u8>)
    requires
        event_wf(e@),
    ensures
        r@ == enc_event(e@),
{
    let mut out: Vec<u8> = Vec::new();
    out.push(e.event_type);
    push_u64_be(&mut out, e.id);
    match &e.body.message {
        None => {
            out.push(0u8);
        },
        Some(m) => {
            out.push(1u8);
            encode_message_onto(&mut out, m);
        },
    }
    push_u32_be(&mut out, e.body.deleted_messages.len() as u32);
    let ghost mid = out@;
    let ghost dels = e@.deleted;
    let mut i: usize = 0;
    while i < e.body.deleted_messages.len()
        invariant
            i <= dels.len(),
            dels == e.body.deleted_messages@.map_values(|m: Message| m@),
            dels.len() == e.body.deleted_messages@.len(),
            forall|j: int| 0 <= j < dels.len() ==> msg_wf(#[trigger] dels[j]),
            out@ == mid + enc_msgs(dels.take(i as int)),
        decreases dels.len() - i,
    {
        proof {
            assert(dels[i as int] == e.body.deleted_messages@[i as int]@);
        }
        encode_message_onto(&mut out, &e.body.deleted_messages[i]);
        proof {
            lemma_enc_msgs_push(dels.take(i as int), dels[i as int]);
            assert(dels.take(i as int).push(dels[i as int]) =~= dels.take(i as int + 1));
        }
        i = i + 1;
    }
    proof {
        assert(dels.take(dels.len() as int) =~= dels);
        assert(out@ =~= enc_event(e@));
    }
    out
}

/// Appending a message to a list appends its encoding.
pub proof fn lemma_enc_msgs_push(ms: Seq<MessageModel>, m: MessageModel)
    ensures
        enc_msgs(ms.push(m)) == enc_msgs(ms) + enc_msg(m),
    decreases ms.len(),
{
    if ms.len() == 0 {
        assert(ms.push(m)[0] == m);
        assert(ms.push(m).skip(1) =~= Seq::<MessageModel>::empty());
        assert(enc_msgs(ms.push(m)) == enc_msg(m) + enc_msgs(Seq::<MessageModel>::empty()));
        assert(enc_msg(m) + enc_msgs(Seq::<MessageModel>::empty()) =~= enc_msg(m));
        assert(enc_msgs(ms) + enc_msg(m) =~= enc_msg(m));
    } else {
        assert(ms.push(m)[0] == ms[0]);
        assert(ms.push(m).skip(1) =~= ms.skip(1).push(m));
        lemma_enc_msgs_push(ms.skip(1), m);
        assert(enc_msgs(ms.push(m)) == enc_msg(ms[0]) + enc_msgs(ms.skip(1).push(m)));
        assert(enc_msg(ms[0]) + (enc_msgs(ms.skip(1)) + enc_msg(m)) =~= (enc_msg(ms[0]) + enc_msgs(
            ms.skip(1),
        )) + enc_msg(m));
    }
}


/// Extending a successful parse by one message appends it.
pub proof fn lemma_dec_msgs_snoc(b: Seq<u8>, p0: int, i: int, ms: Seq<MessageModel>, p: int)
    requires
        i >= 0,
        dec_msgs(b, p0, i) == Some((ms, p)),
    ensures
        match dec_msg(b, p) {
            Some((m, p2)) => dec_msgs(b, p0, i + 1) == Some((ms.push(m), p2)),
            None => dec_msgs(b, p0, i + 1) is None,
        },
    decreases i,
{
    if i == 0 {
        assert(ms =~= Seq::<MessageModel>::empty());
        assert(p == p0);
        match dec_msg(b, p0) {
            Some((m, p2)) => {
                assert(dec_msgs(b, p2, 0) == Some((Seq::<MessageModel>::empty(), p2)));
                assert(seq![m] + Seq::<MessageModel>::empty() =~= ms.push(m));
            },
            None => {},
        }
    } else {
        let (m0, p1) = dec_msg(b, p0).unwrap();
        let (rest, pr) = dec_msgs(b, p1, i - 1).unwrap();
        assert(ms == seq![m0] + rest && pr == p);
        lemma_dec_msgs_snoc(b, p1, i - 1, rest, p);
        match dec_msg(b, p) {
            Some((m, p2)) => {
                assert(dec_msgs(b, p1, i) == Some((rest.push(m), p2)));
                assert(seq![m0] + rest.push(m) =~= ms.push(m));
            },
            None => {},
        }
    }
}

/// A parse that has failed stays failed for any larger count.
pub proof fn lemma_dec_msgs_fail(b: Seq<u8>, p0: int, i: int, ms: Seq<MessageModel>, p: int, count: int)
    requires
        i >= 0,
        count > i,
        dec_msgs(b, p0, i) == Some((ms, p)),
        dec_msg(b, p) is None,
    ensures
        dec_msgs(b, p0, count) is None,
    decreases i,
{
    if i == 0 {
        assert(p == p0);
    } else {
        let (m0, p1) = dec_msg(b, p0).unwrap();
        let (rest, pr) = dec_msgs(b, p1, i - 1).unwrap();
        lemma_dec_msgs_fail(b, p1, i - 1, rest, p, count - 1);
    }
}

/// Copies `len` bytes of `b` starting at `pos`.
fn copy_range(b: &Vec<u8>, pos: usize, len: usize) -> (r: Vec<u8>)
    requires
        pos + len <= b@.len(),
    ensures
        r@ == b@.subrange(pos as int, pos as int + len as int),
{
    let n = b.len();
    let mut out: Vec<u8> = Vec::new();
    let mut i: usize = 0;
    while i < len
        invariant
            i <= len,
            n == b@.len(),
            pos + len <= n,
            out@ == b@.subrange(pos as int, pos as int + i as int),
        decreases len - i,
    {
        out.push(b[pos + i]);
        proof {
            assert(b@.subrange(pos as int, pos as int + i as int).push(b@[pos as int + i as int])
                =~= b@.subrange(pos as int, pos as int + i as int + 1));
        }
        i = i + 1;
    }
    out
}

/// Parses one message at `pos`, returning it with the position after it.
pub fn decode_message_at(b: &Vec<u8>, pos: usize) -> (r: Option<(Message, usize)>)
    ensures
        match r {
            Some((m, p)) => dec_msg(b@, pos as int) == Some((m@, p as int)) && p <= b@.len(),
            None => dec_msg(b@, pos as int) is None,
        },
{
    let n = b.len();
    if pos >= n {
        return None;
    }
    let tag = b[pos];
    let data: Option<MessageData>;
    let hp: usize;
    if tag == 0 {
        data = None;
        hp = pos + 1;
    } else if tag == 1 {
        if n - pos < 10 {
            return None;
        }
        let fid = read_u32_be(b, pos + 1);
        let timestamp = read_u32_be(b, pos + 5);
        let msg_type = b[pos + 9];
        data = Some(MessageData { fid, timestamp, msg_type });
        hp = pos + 10;
    } else {
        return None;
    }
    if n - hp < 4 {
        return None;
    }
    let hl32 = read_u32_be(b, hp);
    let hl = hl32 as usize;
    if hl > n - (hp + 4) {
        proof {
            assert(hp + 4 + hl > b@.len());
        }
        return None;
    }
    let hash = copy_range(b, hp + 4, hl);
    let m = Message { data, hash };
    proof {
        let sm = dec_msg(b@, pos as int).unwrap().0;
        assert(sm.hash =~= m@.hash);
    }
    Some((m, hp + 4 + hl))
}

/// Parses `count` messages starting at `start`.
pub fn decode_messages(b: &Vec<u8>, start: usize, count: usize) -> (r: Option<(Vec<Message>, usize)>)
    requires
        start <= b@.len(),
    ensures
        match r {
            Some((v, p)) => dec_msgs(b@, start as int, count as int) == Some(
                (v@.map_values(|m: Message| m@), p as int),
            ) && p <= b@.len(),
            None => dec_msgs(b@, start as int, count as int) is None,
        },
{
    let n = b.len();
    let mut pos = start;
    let mut out: Vec<Message> = Vec::new();
    let mut i: usize = 0;
    while i < count
        invariant
            i <= count,
            n == b@.len(),
            pos <= n,
            out@.len() == i,
            dec_msgs(b@, start as int, i as int) == Some(
                (out@.map_values(|m: Message| m@), pos as int),
            ),
        decreases count - i,
    {
        let ghost ms0 = out@.map_values(|m: Message| m@);
        proof {
            lemma_dec_msgs_snoc(b@, start as int, i as int, ms0, pos as int);
        }
        match decode_message_at(b, pos) {
            Some((m, p)) => {
                out.push(m);
                proof {
                    assert(out@.map_values(|mm: Message| mm@) =~= ms0.push(m@));
                }
                pos = p;
            },
            None => {
                proof {
                    lemma_dec_msgs_fail(b@, start as int, i as int, ms0, pos as int, count as int);
                }
                return None;
            },
        }
        i = i + 1;
    }
    Some((out, pos))
}

/// Decodes a whole event; the buffer must be consumed exactly.
pub fn decode_hub_event(b: &Vec<u8>) -> (r: Option<HubEvent>)
    ensures
        match r {
            Some(ev) => dec_event(b@) == Some(ev@),
            None => dec_event(b@) is None,
        },
{
    let n = b.len();
    if n < 10 {
        return None;
    }
    let event_type = b[0];
    let id = read_u64_be(b, 1);
    let has = b[9];
    let message: Option<Message>;
    let pos: usize;
    if has == 0 {
        message = None;
        pos = 10;
    } else if has == 1 {
        match decode_message_at(b, 10) {
            Some((m, p)) => {
                message = Some(m);
                pos = p;
            },
            None => {
                return None;
            },
        }
    } else {
        return None;
    }
    if pos > n || n - pos < 4 {
        return None;
    }
    let count32 = read_u32_be(b, pos);
    let count = count32 as usize;
    let deleted: Vec<Message>;
    let endpos: usize;
    match decode_messages(b, pos + 4, count) {
        Some((v, p)) => {
            deleted = v;
            endpos = p;
        },
        None => {
            return None;
        },
    }
    if endpos != n {
        return None;
    }
    let ev = HubEvent {
        event_type,
        body: MergeMessageBody { message, deleted_messages: deleted },
        id,
    };
    proof {
        let se = dec_event(b@).unwrap();
        assert(se.deleted =~= ev@.deleted);
    }
    Some(ev)
}

} // verus!
