//! The merge engine and query surface of the message store.
//!
//! A `Store` keeps, per store kind, an Adds set and an optional Removes set
//! over the ordered byte store, and serializes merges so that submissions of
//! the same logical record converge deterministically. `merge_spec` is the
//! abstract description of a merge: every path of the executable engine is
//! proved to return and write exactly what it says.

use vstd::prelude::*;

use crate::HubError;
use crate::TS_HASH_LENGTH;
use crate::codec::bytes_cmp_spec;
use crate::codec::bytes_compare;
use crate::codec::copy_bytes;
use crate::codec::make_message_primary_key;
use crate::codec::make_ts_hash;
use crate::codec::primary_key_spec;
use crate::codec::push_u64_be;
use crate::codec::read_u64_be;
use crate::codec::ts_hash_spec;
use crate::codec::u64_be_spec;
use crate::codec::u64_of_be_spec;
use crate::db::Db;
use crate::db::DbOp;
use crate::db::Transaction;
use crate::db::apply_op;
use crate::db::apply_ops;
use crate::db::lemma_apply_ops_concat;
use crate::db::lemma_apply_ops_push;
use crate::message::HUB_EVENT_MERGE_MESSAGE;
use crate::message::HubEvent;
use crate::message::MergeMessageBody;
use crate::message::Message;
use crate::message::MessageModel;
use crate::message::dec_msg;
use crate::message::decode_message_at;
use crate::message::enc_event;
use crate::message::enc_msg;
use crate::message::encode_hub_event;
use crate::message::event_wf;
use crate::message::EventModel;
use crate::message::MESSAGE_TYPE_NONE;
use crate::store_def::StoreDef;

verus! {

/// The reserved key under which the event counter is persisted.
pub open spec fn counter_key_spec() -> Seq<u8> {
    seq![0u8]
}

/// The event log key of the event with the given id.
pub open spec fn event_key_spec(id: u64) -> Seq<u8> {
    seq![1u8] + u64_be_spec(id)
}

/// The value stored under `key`, if any.
pub open spec fn slot(m: Map<Seq<u8>, Seq<u8>>, key: Seq<u8>) -> Option<Seq<u8>> {
    if m.contains_key(key) {
        Some(m[key])
    } else {
        None
    }
}

/// The persisted event counter; zero when absent or malformed.
pub open spec fn counter_of(m: Map<Seq<u8>, Seq<u8>>) -> u64 {
    match slot(m, counter_key_spec()) {
        Some(v) => if v.len() == 8 {
            u64_of_be_spec(v)
        } else {
            0
        },
        None => 0,
    }
}

/// The canonical ordering of two candidate messages: timestamps first, then
/// a remove dominates an add, then the hash bytes break ties.
pub open spec fn mc_spec(
    rt: u8,
    at: u8,
    a_type: u8,
    a_th: Seq<u8>,
    b_type: u8,
    b_th: Seq<u8>,
) -> int {
    let tc = bytes_cmp_spec(a_th.subrange(0, 4), b_th.subrange(0, 4));
    if tc != 0 {
        tc
    } else if a_type == rt && b_type == at {
        1
    } else if a_type == at && b_type == rt {
        -1
    } else {
        bytes_cmp_spec(a_th.subrange(4, 24), b_th.subrange(4, 24))
    }
}

/// The outcome of holding an incoming message against one pointer slot.
pub enum SlotCheck {
    SFail { code: Seq<char> },
    SNone,
    SSome { m: MessageModel },
}

/// Holds the incoming `(mtype, th)` against the pointer at `slot_key`: no
/// pointer, a rejection, or the superseded message loaded from its primary
/// row.
pub open spec fn check_slot<D: StoreDef>(
    def: D,
    m0: Map<Seq<u8>, Seq<u8>>,
    slot_key: Seq<u8>,
    existing_type: u8,
    fid: u32,
    mtype: u8,
    th: Seq<u8>,
) -> SlotCheck {
    match slot(m0, slot_key) {
        None => SlotCheck::SNone,
        Some(eth) => if eth.len() != TS_HASH_LENGTH {
            SlotCheck::SFail { code: "db.internal_error"@ }
        } else {
            let c = mc_spec(def.remove_type_spec(), def.add_type_spec(), existing_type, eth, mtype, th);
            if c > 0 {
                SlotCheck::SFail { code: "bad_request.conflict"@ }
            } else if c == 0 {
                SlotCheck::SFail { code: "bad_request.duplicate"@ }
            } else {
                match slot(m0, primary_key_spec(fid, def.postfix_spec(), eth)) {
                    None => SlotCheck::SFail { code: "bad_request.internal_error"@ },
                    Some(bytes) => match dec_msg(bytes, 0) {
                        None => SlotCheck::SFail { code: "db.internal_error"@ },
                        Some((cm, p)) => if p == bytes.len() {
                            SlotCheck::SSome { m: cm }
                        } else {
                            SlotCheck::SFail { code: "db.internal_error"@ }
                        },
                    },
                }
            }
        },
    }
}

/// The conflict set: the superseded remove, then the superseded add.
pub open spec fn conflicts_of(r: SlotCheck, a: SlotCheck) -> Seq<MessageModel> {
    (match r {
        SlotCheck::SSome { m } => seq![m],
        _ => Seq::empty(),
    }) + (match a {
        SlotCheck::SSome { m } => seq![m],
        _ => Seq::empty(),
    })
}

/// Why deleting this conflict would fail, if it would.
pub open spec fn conflict_fail_code<D: StoreDef>(def: D, c: MessageModel) -> Option<Seq<char>> {
    if def.is_add_spec(c) || (def.remove_type_spec() != MESSAGE_TYPE_NONE && def.is_remove_spec(
        c,
    )) {
        if c.data is None {
            Some("db.internal_error"@)
        } else if c.hash.len() != 20 {
            Some("bad_request.invalid_param"@)
        } else {
            None
        }
    } else {
        None
    }
}

/// The contents after deleting one conflict: its secondary indices and
/// pointer and primary row, on the add side and the remove side.
pub open spec fn conflict_del_map<D: StoreDef>(
    def: D,
    m: Map<Seq<u8>, Seq<u8>>,
    c: MessageModel,
) -> Map<Seq<u8>, Seq<u8>> {
    let thc = ts_hash_spec(c.data.unwrap().timestamp, c.hash);
    let pk = primary_key_spec(c.data.unwrap().fid, def.postfix_spec(), thc);
    let m1 = if def.is_add_spec(c) {
        apply_ops(m, def.delete_ops_spec(thc, c)).remove(def.add_key_spec(c)).remove(pk)
    } else {
        m
    };
    if def.remove_type_spec() != MESSAGE_TYPE_NONE && def.is_remove_spec(c) {
        m1.remove(def.remove_key_spec(c)).remove(pk)
    } else {
        m1
    }
}

/// The contents after deleting every conflict in order.
pub open spec fn del_fold<D: StoreDef>(
    def: D,
    m: Map<Seq<u8>, Seq<u8>>,
    cs: Seq<MessageModel>,
) -> Map<Seq<u8>, Seq<u8>>
    decreases cs.len(),
{
    if cs.len() == 0 {
        m
    } else {
        del_fold(def, conflict_del_map(def, m, cs[0]), cs.skip(1))
    }
}

/// The first failure among the conflict deletions, if any.
pub open spec fn del_fail<D: StoreDef>(def: D, cs: Seq<MessageModel>) -> Option<Seq<char>>
    decreases cs.len(),
{
    if cs.len() == 0 {
        None
    } else {
        match conflict_fail_code(def, cs[0]) {
            Some(c) => Some(c),
            None => del_fail(def, cs.skip(1)),
        }
    }
}

/// What a merge does: a rejection with its error code (empty when a
/// kind-specific hook chose the error), or the new contents and the event.
pub enum MergeOutcome {
    Fail { code: Seq<char> },
    Go { map: Map<Seq<u8>, Seq<u8>>, event: EventModel },
}

/// The write phase: delete the conflicts, write the new record and its
/// pointer and indices, stamp and log the event, bump the counter.
pub open spec fn merge_apply<D: StoreDef>(
    def: D,
    m0: Map<Seq<u8>, Seq<u8>>,
    msg: MessageModel,
    conflicts: Seq<MessageModel>,
) -> MergeOutcome {
    match del_fail(def, conflicts) {
        Some(code) => MergeOutcome::Fail { code },
        None => {
            if counter_of(m0) == u64::MAX {
                MergeOutcome::Fail { code: "db.internal_error"@ }
            } else {
                let d = msg.data.unwrap();
                let th = ts_hash_spec(d.timestamp, msg.hash);
                let id = (counter_of(m0) + 1) as u64;
                let event = EventModel {
                    event_type: HUB_EVENT_MERGE_MESSAGE,
                    id,
                    message: Some(msg),
                    deleted: conflicts,
                };
                let m1 = del_fold(def, m0, conflicts);
                let m2 = m1.insert(primary_key_spec(d.fid, def.postfix_spec(), th), enc_msg(msg));
                let m3 = if def.is_add_spec(msg) {
                    apply_ops(m2.insert(def.add_key_spec(msg), th), def.build_ops_spec(th, msg))
                } else {
                    m2.insert(def.remove_key_spec(msg), th)
                };
                let m4 = m3.insert(event_key_spec(id), enc_event(event)).insert(
                    counter_key_spec(),
                    u64_be_spec(id),
                );
                MergeOutcome::Go { map: m4, event }
            }
        },
    }
}

/// The remove pointer held against the incoming message; `SNone` when the
/// kind does not support removes.
pub open spec fn rcheck_of<D: StoreDef>(
    def: D,
    m0: Map<Seq<u8>, Seq<u8>>,
    msg: MessageModel,
) -> SlotCheck {
    let d = msg.data.unwrap();
    let th = ts_hash_spec(d.timestamp, msg.hash);
    if def.remove_type_spec() != MESSAGE_TYPE_NONE {
        check_slot(def, m0, def.remove_key_spec(msg), def.remove_type_spec(), d.fid, d.msg_type, th)
    } else {
        SlotCheck::SNone
    }
}

/// The add pointer held against the incoming message.
pub open spec fn acheck_of<D: StoreDef>(
    def: D,
    m0: Map<Seq<u8>, Seq<u8>>,
    msg: MessageModel,
) -> SlotCheck {
    let d = msg.data.unwrap();
    let th = ts_hash_spec(d.timestamp, msg.hash);
    check_slot(def, m0, def.add_key_spec(msg), def.add_type_spec(), d.fid, d.msg_type, th)
}

pub open spec fn merge_resolve<D: StoreDef>(
    def: D,
    m0: Map<Seq<u8>, Seq<u8>>,
    msg: MessageModel,
) -> MergeOutcome {
    let rcheck = rcheck_of(def, m0, msg);
    match rcheck {
        SlotCheck::SFail { code } => MergeOutcome::Fail { code },
        _ => {
            let acheck = acheck_of(def, m0, msg);
            match acheck {
                SlotCheck::SFail { code } => MergeOutcome::Fail { code },
                _ => merge_apply(def, m0, msg, conflicts_of(rcheck, acheck)),
            }
        },
    }
}

/// A merge after validation: the kind-specific hook, then conflict
/// resolution and the write phase.
pub open spec fn merge_inner_spec<D: StoreDef>(
    def: D,
    m0: Map<Seq<u8>, Seq<u8>>,
    msg: MessageModel,
) -> MergeOutcome {
    if def.is_add_spec(msg) && !def.add_conflict_free_spec(msg) {
        MergeOutcome::Fail { code: def.add_conflict_code_spec(msg) }
    } else if !def.is_add_spec(msg) && !def.remove_conflict_free_spec(msg) {
        MergeOutcome::Fail { code: def.remove_conflict_code_spec(msg) }
    } else {
        merge_resolve(def, m0, msg)
    }
}

/// A whole merge, validation included.
pub open spec fn merge_spec<D: StoreDef>(
    def: D,
    m0: Map<Seq<u8>, Seq<u8>>,
    msg: MessageModel,
) -> MergeOutcome {
    if msg.data is None || msg.data.unwrap().fid == 0 {
        MergeOutcome::Fail { code: "bad_request.invalid_param"@ }
    } else if !(def.is_add_spec(msg) || (def.remove_type_spec() != MESSAGE_TYPE_NONE
        && def.is_remove_spec(msg))) {
        MergeOutcome::Fail { code: "bad_request.validation_failure"@ }
    } else if msg.hash.len() != 20 {
        MergeOutcome::Fail { code: "bad_request.invalid_param"@ }
    } else {
        merge_inner_spec(def, m0, msg)
    }
}

/// Deleting one more conflict folds it in last.
pub proof fn lemma_del_fold_snoc<D: StoreDef>(
    def: D,
    m: Map<Seq<u8>, Seq<u8>>,
    cs: Seq<MessageModel>,
    c: MessageModel,
)
    ensures
        del_fold(def, m, cs.push(c)) == conflict_del_map(def, del_fold(def, m, cs), c),
        del_fail(def, cs.push(c)) == (match del_fail(def, cs) {
            Some(code) => Some(code),
            None => conflict_fail_code(def, c),
        }),
    decreases cs.len(),
{
    let empty = Seq::<MessageModel>::empty();
    if cs.len() == 0 {
        assert(cs.push(c)[0] == c);
        assert(cs.push(c).skip(1) =~= empty);
        assert(del_fold(def, m, cs) == m);
        assert(del_fail(def, cs) is None);
        assert(del_fold(def, conflict_del_map(def, m, c), empty) == conflict_del_map(def, m, c));
        assert(del_fold(def, m, cs.push(c)) == del_fold(
            def,
            conflict_del_map(def, m, c),
            cs.push(c).skip(1),
        ));
        assert(del_fail(def, cs.push(c)) == (match conflict_fail_code(def, c) {
            Some(code) => Some(code),
            None => del_fail(def, empty),
        }));
    } else {
        assert(cs.push(c)[0] == cs[0]);
        assert(cs.push(c).skip(1) =~= cs.skip(1).push(c));
        let m1 = conflict_del_map(def, m, cs[0]);
        lemma_del_fold_snoc(def, m1, cs.skip(1), c);
        assert(del_fold(def, m, cs.push(c)) == del_fold(def, m1, cs.push(c).skip(1)));
        assert(del_fold(def, m, cs) == del_fold(def, m1, cs.skip(1)));
        assert(del_fail(def, cs.push(c)) == (match conflict_fail_code(def, cs[0]) {
            Some(code) => Some(code),
            None => del_fail(def, cs.push(c).skip(1)),
        }));
        assert(del_fail(def, cs) == (match conflict_fail_code(def, cs[0]) {
            Some(code) => Some(code),
            None => del_fail(def, cs.skip(1)),
        }));
    }
}

/// A page of messages and the continuation token of the next page.
#[derive(Debug, Clone, PartialEq)]
pub struct MessagesPage {
    pub messages: Vec<Message>,
    pub next_page_token: Option<Vec<u8>>,
}

/// The striped lock bucket that serializes merges of a fid.
pub fn fid_lock_index(fid: u32) -> (r: usize)
    ensures
        r == fid as nat % crate::FID_LOCKS_COUNT as nat,
{
    (fid as usize) % crate::FID_LOCKS_COUNT
}

/// The reserved key of the event counter.
fn counter_key() -> (r: Vec<u8>)
    ensures
        r@ == counter_key_spec(),
{
    let mut out: Vec<u8> = Vec::new();
    out.push(0u8);
    proof {
        assert(out@ =~= counter_key_spec());
    }
    out
}

/// The event log key of the event with the given id.
fn event_key(id: u64) -> (r: Vec<u8>)
    ensures
        r@ == event_key_spec(id),
{
    let mut out: Vec<u8> = Vec::new();
    out.push(1u8);
    push_u64_be(&mut out, id);
    proof {
        assert(out@ =~= event_key_spec(id));
    }
    out
}

/// An owned copy of a message.
pub fn dup_message(m: &Message) -> (r: Message)
    ensures
        r@ == m@,
{
    Message { data: m.data, hash: copy_bytes(&m.hash) }
}

/// Reads the message stored under `(fid, set, ts_hash)`, if any.
pub fn get_message(db: &Db, fid: u32, set: u8, ts_hash: &Vec<u8>) -> (r: Result<
    Option<Message>,
    HubError,
>)
    requires
        db.wf(),
    ensures
        match r {
            Ok(Some(m)) => slot(db@, primary_key_spec(fid, set, ts_hash@)) matches Some(bytes)
                && dec_msg(bytes, 0) == Some((m@, bytes.len() as int)),
            Ok(None) => slot(db@, primary_key_spec(fid, set, ts_hash@)) is None,
            Err(e) => e.code@ == "db.internal_error"@ && (slot(
                db@,
                primary_key_spec(fid, set, ts_hash@),
            ) matches Some(bytes) && !(dec_msg(bytes, 0) matches Some((m, p)) && p
                == bytes.len())),
        },
{
    let pkey = make_message_primary_key(fid, set, Some(ts_hash));
    match db.get(&pkey) {
        None => Ok(None),
        Some(bytes) => {
            match decode_message_at(&bytes, 0) {
                Some((m, p)) => {
                    if p == bytes.len() {
                        Ok(Some(m))
                    } else {
                        Err(
                            HubError {
                                code: "db.internal_error".to_string(),
                                message: "stored message does not parse".to_string(),
                            },
                        )
                    }
                },
                None => Err(
                    HubError {
                        code: "db.internal_error".to_string(),
                        message: "stored message does not parse".to_string(),
                    },
                ),
            }
        },
    }
}

/// The message store over one store kind.
pub struct Store<D: StoreDef> {
    store_def: D,
    db: Db,
}

impl<D: StoreDef> Store<D> {
    /// The kind this store runs.
    pub closed spec fn def(&self) -> D {
        self.store_def
    }

    /// The abstract contents of the underlying byte store.
    pub closed spec fn contents(&self) -> Map<Seq<u8>, Seq<u8>> {
        self.db@
    }

    /// Well-formedness of the underlying byte store.
    pub closed spec fn wf(&self) -> bool {
        self.db.wf()
    }

    /// A store over a fresh, empty byte store.
    pub fn new_with_store_def(store_def: D) -> (r: Store<D>)
        ensures
            r.wf(),
            r.contents() == Map::<Seq<u8>, Seq<u8>>::empty(),
            r.def() == store_def,
    {
        Store { store_def, db: Db::new() }
    }

    /// The underlying byte store.
    pub fn db(&self) -> (r: &Db)
        ensures
            r@ == self.contents(),
            r.wf() == self.wf(),
    {
        &self.db
    }

    /// Removes every key. Returns the number of keys removed.
    pub fn db_clear(&mut self) -> (r: usize)
        requires
            old(self).wf(),
        ensures
            final(self).wf(),
            final(self).def() == old(self).def(),
            final(self).contents() == Map::<Seq<u8>, Seq<u8>>::empty(),
            r == old(self).contents().dom().len(),
    {
        self.db.clear()
    }

    /// The kind's postfix.
    pub fn postfix(&self) -> (r: u8)
        ensures
            r == self.def().postfix_spec(),
    {
        self.store_def.postfix()
    }

    /// The canonical ordering of two candidate messages. Positive means the
    /// first dominates, zero that they are the same message.
    pub fn message_compare(&self, a_type: u8, a_ts_hash: &Vec<u8>, b_type: u8, b_ts_hash: &Vec<u8>)
        -> (r: i8)
        requires
            a_ts_hash@.len() == TS_HASH_LENGTH,
            b_ts_hash@.len() == TS_HASH_LENGTH,
        ensures
            r as int == mc_spec(
                self.def().remove_type_spec(),
                self.def().add_type_spec(),
                a_type,
                a_ts_hash@,
                b_type,
                b_ts_hash@,
            ),
    {
        let ts_compare = bytes_compare(
            vstd::slice::slice_subrange(a_ts_hash.as_slice(), 0, 4),
            vstd::slice::slice_subrange(b_ts_hash.as_slice(), 0, 4),
        );
        if ts_compare != 0 {
            return ts_compare;
        }
        let rt = self.store_def.remove_message_type();
        let at = self.store_def.add_message_type();
        if a_type == rt && b_type == at {
            return 1;
        }
        if a_type == at && b_type == rt {
            return -1;
        }
        bytes_compare(
            vstd::slice::slice_subrange(a_ts_hash.as_slice(), 4, 24),
            vstd::slice::slice_subrange(b_ts_hash.as_slice(), 4, 24),
        )
    }
}


/// A loaded conflict is well-formed for re-encoding: its hash length came
/// from the 4-byte length field of its stored row.
pub proof fn lemma_check_slot_wf<D: StoreDef>(
    def: D,
    m0: Map<Seq<u8>, Seq<u8>>,
    slot_key: Seq<u8>,
    existing_type: u8,
    fid: u32,
    mtype: u8,
    th: Seq<u8>,
)
    ensures
        check_slot(def, m0, slot_key, existing_type, fid, mtype, th) matches SlotCheck::SSome {
            m,
        } ==> m.hash.len() <= 0xFFFFFFFF,
{
    if check_slot(def, m0, slot_key, existing_type, fid, mtype, th) is SSome {
        let eth = slot(m0, slot_key).unwrap();
        let bytes = slot(m0, primary_key_spec(fid, def.postfix_spec(), eth)).unwrap();
        let (cm, p) = dec_msg(bytes, 0).unwrap();
        assert(check_slot(def, m0, slot_key, existing_type, fid, mtype, th) == (SlotCheck::SSome {
            m: cm,
        }));
        assert(cm.hash.len() <= 0xFFFFFFFF);
    }
}

/// A fail-free prefix of the conflicts leaves the rest to decide.
pub proof fn lemma_del_fail_skip<D: StoreDef>(def: D, cs: Seq<MessageModel>, i: int)
    requires
        0 <= i <= cs.len(),
        del_fail(def, cs.take(i)) is None,
    ensures
        del_fail(def, cs) == del_fail(def, cs.skip(i)),
    decreases i,
{
    if i == 0 {
        assert(cs.skip(0) =~= cs);
    } else {
        assert(cs.take(i - 1).push(cs[i - 1]) =~= cs.take(i));
        lemma_del_fold_snoc(def, Map::empty(), cs.take(i - 1), cs[i - 1]);
        lemma_del_fail_skip(def, cs, i - 1);
        let t = cs.skip(i - 1);
        assert(t.len() > 0 && t[0] == cs[i - 1]);
        assert(conflict_fail_code(def, t[0]) is None);
        assert(del_fail(def, t) == del_fail(def, t.skip(1)));
        assert(t.skip(1) =~= cs.skip(i));
    }
}

impl<D: StoreDef> Store<D> {
    /// Writes the message's primary row, its add pointer, and the kind's
    /// secondary indices into the transaction.
    fn put_add_transaction(&self, txn: &mut Transaction, ts_hash: &Vec<u8>, message: &Message) -> (r:
        Result<(), HubError>)
        requires
            message@.data is Some,
            message@.hash.len() == 20,
            ts_hash@ == ts_hash_spec(message@.data.unwrap().timestamp, message@.hash),
        ensures
            r is Ok,
            forall|m: Map<Seq<u8>, Seq<u8>>| #[trigger] apply_ops(m, final(txn).ops@) == apply_ops(
                apply_ops(m, old(txn).ops@).insert(
                    primary_key_spec(
                        message@.data.unwrap().fid,
                        self.def().postfix_spec(),
                        ts_hash@,
                    ),
                    enc_msg(message@),
                ).insert(self.def().add_key_spec(message@), ts_hash@),
                self.def().build_ops_spec(ts_hash@, message@),
            ),
    {
        let ghost ops0 = txn.ops@;
        let d = message.data.unwrap();
        let pkey = make_message_primary_key(d.fid, self.store_def.postfix(), Some(ts_hash));
        let bytes = crate::message::encode_message(message);
        let ghost pk = pkey@;
        let ghost bv = bytes@;
        txn.put(pkey, bytes);
        let ghost ops1 = txn.ops@;
        let adds_key = self.store_def.make_add_key(message);
        let ghost ak = adds_key@;
        txn.put(adds_key, copy_bytes(ts_hash));
        let ghost ops2 = txn.ops@;
        let r = self.store_def.build_secondary_indicies(txn, ts_hash, message);
        proof {
            assert forall|m: Map<Seq<u8>, Seq<u8>>| #[trigger] apply_ops(m, txn.ops@) == apply_ops(
                apply_ops(m, ops0).insert(
                    primary_key_spec(
                        message@.data.unwrap().fid,
                        self.def().postfix_spec(),
                        ts_hash@,
                    ),
                    enc_msg(message@),
                ).insert(self.def().add_key_spec(message@), ts_hash@),
                self.def().build_ops_spec(ts_hash@, message@),
            ) by {
                lemma_apply_ops_concat(
                    m,
                    ops2,
                    self.def().build_ops_spec(ts_hash@, message@),
                );
                assert(apply_ops(m, ops1) == apply_ops(m, ops0).insert(pk, bv)) by {
                    lemma_apply_ops_push(m, ops0, ops1.last());
                    assert(ops1.drop_last() =~= ops0);
                }
                assert(apply_ops(m, ops2) == apply_ops(m, ops1).insert(ak, ts_hash@)) by {
                    lemma_apply_ops_push(m, ops1, ops2.last());
                    assert(ops2.drop_last() =~= ops1);
                }
            }
        }
        match r {
            Ok(()) => Ok(()),
            Err(e) => Err(e),
        }
    }

    /// Writes the message's primary row and its remove pointer into the
    /// transaction; rejects kinds without removes.
    fn put_remove_transaction(&self, txn: &mut Transaction, ts_hash: &Vec<u8>, message: &Message)
        -> (r: Result<(), HubError>)
        requires
            message@.data is Some,
            message@.hash.len() == 20,
            ts_hash@ == ts_hash_spec(message@.data.unwrap().timestamp, message@.hash),
        ensures
            self.def().remove_type_spec() != MESSAGE_TYPE_NONE ==> r is Ok && forall|
                m: Map<Seq<u8>, Seq<u8>>,
            | #[trigger] apply_ops(m, final(txn).ops@) == apply_ops(m, old(txn).ops@).insert(
                primary_key_spec(message@.data.unwrap().fid, self.def().postfix_spec(), ts_hash@),
                enc_msg(message@),
            ).insert(self.def().remove_key_spec(message@), ts_hash@),
            self.def().remove_type_spec() == MESSAGE_TYPE_NONE ==> (match r {
                Err(e) => e.code@ == "bad_request.validation_failure"@,
                Ok(_) => false,
            }) && final(txn).ops@ == old(txn).ops@,
    {
        if !self.store_def.remove_type_supported() {
            return Err(
                HubError {
                    code: "bad_request.validation_failure".to_string(),
                    message: "remove type not supported".to_string(),
                },
            );
        }
        let ghost ops0 = txn.ops@;
        let d = message.data.unwrap();
        let pkey = make_message_primary_key(d.fid, self.store_def.postfix(), Some(ts_hash));
        let bytes = crate::message::encode_message(message);
        let ghost pk = pkey@;
        let ghost bv = bytes@;
        txn.put(pkey, bytes);
        let ghost ops1 = txn.ops@;
        let removes_key = self.store_def.make_remove_key(message);
        let ghost rk = removes_key@;
        txn.put(removes_key, copy_bytes(ts_hash));
        proof {
            assert forall|m: Map<Seq<u8>, Seq<u8>>| #[trigger] apply_ops(m, txn.ops@) == apply_ops(
                m,
                ops0,
            ).insert(
                primary_key_spec(message@.data.unwrap().fid, self.def().postfix_spec(), ts_hash@),
                enc_msg(message@),
            ).insert(self.def().remove_key_spec(message@), ts_hash@) by {
                assert(apply_ops(m, ops1) == apply_ops(m, ops0).insert(pk, bv)) by {
                    lemma_apply_ops_push(m, ops0, ops1.last());
                    assert(ops1.drop_last() =~= ops0);
                }
                assert(apply_ops(m, txn.ops@) == apply_ops(m, ops1).insert(rk, ts_hash@)) by {
                    lemma_apply_ops_push(m, ops1, txn.ops@.last());
                    assert(txn.ops@.drop_last() =~= ops1);
                }
            }
        }
        Ok(())
    }

    /// Deletes a superseded add: its secondary indices, its add pointer and
    /// its primary row.
    fn delete_add_transaction(&self, txn: &mut Transaction, ts_hash: &Vec<u8>, message: &Message)
        -> (r: Result<(), HubError>)
        requires
            message@.data is Some,
            ts_hash@ == ts_hash_spec(message@.data.unwrap().timestamp, message@.hash),
        ensures
            r is Ok,
            forall|m: Map<Seq<u8>, Seq<u8>>| #[trigger] apply_ops(m, final(txn).ops@) == apply_ops(
                apply_ops(m, old(txn).ops@),
                self.def().delete_ops_spec(ts_hash@, message@),
            ).remove(self.def().add_key_spec(message@)).remove(
                primary_key_spec(
                    message@.data.unwrap().fid,
                    self.def().postfix_spec(),
                    ts_hash@,
                ),
            ),
    {
        let ghost ops0 = txn.ops@;
        let r = self.store_def.delete_secondary_indicies(txn, ts_hash, message);
        let ghost ops1 = txn.ops@;
        let add_key = self.store_def.make_add_key(message);
        let ghost ak = add_key@;
        txn.delete(add_key);
        let ghost ops2 = txn.ops@;
        let d = message.data.unwrap();
        let pkey = make_message_primary_key(d.fid, self.store_def.postfix(), Some(ts_hash));
        let ghost pk = pkey@;
        txn.delete(pkey);
        proof {
            assert forall|m: Map<Seq<u8>, Seq<u8>>| #[trigger] apply_ops(m, txn.ops@) == apply_ops(
                apply_ops(m, ops0),
                self.def().delete_ops_spec(ts_hash@, message@),
            ).remove(self.def().add_key_spec(message@)).remove(
                primary_key_spec(
                    message@.data.unwrap().fid,
                    self.def().postfix_spec(),
                    ts_hash@,
                ),
            ) by {
                lemma_apply_ops_concat(m, ops0, self.def().delete_ops_spec(ts_hash@, message@));
                assert(apply_ops(m, ops2) == apply_ops(m, ops1).remove(ak)) by {
                    lemma_apply_ops_push(m, ops1, ops2.last());
                    assert(ops2.drop_last() =~= ops1);
                }
                assert(apply_ops(m, txn.ops@) == apply_ops(m, ops2).remove(pk)) by {
                    lemma_apply_ops_push(m, ops2, txn.ops@.last());
                    assert(txn.ops@.drop_last() =~= ops2);
                }
            }
        }
        match r {
            Ok(()) => Ok(()),
            Err(e) => Err(e),
        }
    }

    /// Deletes a superseded remove: its remove pointer and its primary row.
    fn delete_remove_transaction(&self, txn: &mut Transaction, message: &Message) -> (r: Result<
        (),
        HubError,
    >)
        requires
            message@.data is Some,
            message@.hash.len() == 20,
        ensures
            self.def().remove_type_spec() != MESSAGE_TYPE_NONE ==> r is Ok && forall|
                m: Map<Seq<u8>, Seq<u8>>,
            | #[trigger] apply_ops(m, final(txn).ops@) == apply_ops(m, old(txn).ops@).remove(
                self.def().remove_key_spec(message@),
            ).remove(
                primary_key_spec(
                    message@.data.unwrap().fid,
                    self.def().postfix_spec(),
                    ts_hash_spec(message@.data.unwrap().timestamp, message@.hash),
                ),
            ),
            self.def().remove_type_spec() == MESSAGE_TYPE_NONE ==> (match r {
                Err(e) => e.code@ == "bad_request.validation_failure"@,
                Ok(_) => false,
            }) && final(txn).ops@ == old(txn).ops@,
    {
        if !self.store_def.remove_type_supported() {
            return Err(
                HubError {
                    code: "bad_request.validation_failure".to_string(),
                    message: "remove type not supported".to_string(),
                },
            );
        }
        let ghost ops0 = txn.ops@;
        let remove_key = self.store_def.make_remove_key(message);
        let ghost rk = remove_key@;
        txn.delete(remove_key);
        let ghost ops1 = txn.ops@;
        let d = message.data.unwrap();
        let ts_hash = match make_ts_hash(d.timestamp, &message.hash) {
            Ok(t) => t,
            Err(e) => {
                return Err(e);
            },
        };
        let pkey = make_message_primary_key(d.fid, self.store_def.postfix(), Some(&ts_hash));
        let ghost pk = pkey@;
        txn.delete(pkey);
        proof {
            assert forall|m: Map<Seq<u8>, Seq<u8>>| #[trigger] apply_ops(m, txn.ops@) == apply_ops(
                m,
                ops0,
            ).remove(self.def().remove_key_spec(message@)).remove(
                primary_key_spec(
                    message@.data.unwrap().fid,
                    self.def().postfix_spec(),
                    ts_hash_spec(message@.data.unwrap().timestamp, message@.hash),
                ),
            ) by {
                assert(apply_ops(m, ops1) == apply_ops(m, ops0).remove(rk)) by {
                    lemma_apply_ops_push(m, ops0, ops1.last());
                    assert(ops1.drop_last() =~= ops0);
                }
                assert(apply_ops(m, txn.ops@) == apply_ops(m, ops1).remove(pk)) by {
                    lemma_apply_ops_push(m, ops1, txn.ops@.last());
                    assert(txn.ops@.drop_last() =~= ops1);
                }
            }
        }
        Ok(())
    }

    /// Deletes every superseded message, adds first where a message is both.
    fn delete_many_transaction(&self, txn: &mut Transaction, messages: &Vec<Message>) -> (r: Result<
        (),
        HubError,
    >)
        ensures
            match r {
                Ok(_) => del_fail(self.def(), messages@.map_values(|mm: Message| mm@)) is None
                    && forall|m: Map<Seq<u8>, Seq<u8>>| #[trigger] apply_ops(m, final(txn).ops@)
                    == del_fold(
                    self.def(),
                    apply_ops(m, old(txn).ops@),
                    messages@.map_values(|mm: Message| mm@),
                ),
                Err(e) => del_fail(self.def(), messages@.map_values(|mm: Message| mm@)) matches Some(
                    code,
                ) && e.code@ == code,
            },
    {
        let ghost models = messages@.map_values(|mm: Message| mm@);
        let ghost ops0 = txn.ops@;
        let n = messages.len();
        let mut i: usize = 0;
        while i < n
            invariant
                i <= n,
                n == messages@.len(),
                models == messages@.map_values(|mm: Message| mm@),
                models.len() == n,
                del_fail(self.def(), models.take(i as int)) is None,
                forall|m: Map<Seq<u8>, Seq<u8>>| #[trigger] apply_ops(m, txn.ops@) == del_fold(
                    self.def(),
                    apply_ops(m, ops0),
                    models.take(i as int),
                ),
            decreases n - i,
        {
            let ghost pre = models.take(i as int);
            proof {
                assert(pre.push(models[i as int]) =~= models.take(i as int + 1));
            }
            let message = &messages[i];
            proof {
                assert(message@ == models[i as int]);
            }
            let is_add = self.store_def.is_add_type(message);
            let supported = self.store_def.remove_type_supported();
            let is_rem = if supported {
                self.store_def.is_remove_type(message)
            } else {
                false
            };
            if is_add || is_rem {
                let has_data = match &message.data {
                    Some(_) => true,
                    None => false,
                };
                if !has_data {
                    proof {
                        lemma_del_fail_skip(self.def(), models, i as int);
                        assert(models.skip(i as int)[0] == models[i as int]);
                        assert(del_fail(self.def(), models.skip(i as int)) == Some(
                            "db.internal_error"@,
                        ));
                    }
                    return Err(
                        HubError {
                            code: "db.internal_error".to_string(),
                            message: "conflict message has no data".to_string(),
                        },
                    );
                }
                let d = message.data.unwrap();
                let ts_hash = match make_ts_hash(d.timestamp, &message.hash) {
                    Ok(t) => t,
                    Err(e) => {
                        proof {
                            lemma_del_fail_skip(self.def(), models, i as int);
                            assert(models.skip(i as int)[0] == models[i as int]);
                            assert(del_fail(self.def(), models.skip(i as int)) == Some(
                                "bad_request.invalid_param"@,
                            ));
                        }
                        return Err(e);
                    },
                };
                if is_add {
                    match self.delete_add_transaction(txn, &ts_hash, message) {
                        Ok(()) => {},
                        Err(e) => {
                            proof {
                                assert(false);
                            }
                            return Err(e);
                        },
                    }
                }
                if is_rem {
                    match self.delete_remove_transaction(txn, message) {
                        Ok(()) => {},
                        Err(e) => {
                            proof {
                                assert(false);
                            }
                            return Err(e);
                        },
                    }
                }
            }
            proof {
                assert(conflict_fail_code(self.def(), models[i as int]) is None);
                assert forall|m: Map<Seq<u8>, Seq<u8>>| #[trigger] apply_ops(m, txn.ops@)
                    == del_fold(
                    self.def(),
                    apply_ops(m, ops0),
                    models.take(i as int + 1),
                ) by {
                    lemma_del_fold_snoc(self.def(), apply_ops(m, ops0), pre, models[i as int]);
                }
                lemma_del_fold_snoc(self.def(), Map::empty(), pre, models[i as int]);
            }
            i = i + 1;
        }
        proof {
            assert(models.take(n as int) =~= models);
        }
        Ok(())
    }
}


impl<D: StoreDef> Store<D> {
    /// Gathers the messages the incoming one supersedes, or the rejection:
    /// the kind-specific hook first, then the remove pointer, then the add
    /// pointer.
    pub fn get_merge_conflicts(&self, message: &Message, ts_hash: &Vec<u8>) -> (r: Result<
        Vec<Message>,
        HubError,
    >)
        requires
            self.wf(),
            message@.data is Some,
            message@.hash.len() == 20,
            ts_hash@ == ts_hash_spec(message@.data.unwrap().timestamp, message@.hash),
        ensures
            (self.def().is_add_spec(message@) && !self.def().add_conflict_free_spec(message@))
                ==> (match r {
                Err(e) => e.code@ == self.def().add_conflict_code_spec(message@),
                Ok(_) => false,
            }),
            (!self.def().is_add_spec(message@) && !self.def().remove_conflict_free_spec(message@))
                ==> (match r {
                Err(e) => e.code@ == self.def().remove_conflict_code_spec(message@),
                Ok(_) => false,
            }),
            ((self.def().is_add_spec(message@) ==> self.def().add_conflict_free_spec(message@)) && (
            !self.def().is_add_spec(message@) ==> self.def().remove_conflict_free_spec(message@)))
                ==> (match rcheck_of(self.def(), self.contents(), message@) {
                SlotCheck::SFail { code } => (match r {
                    Err(e) => e.code@ == code,
                    Ok(_) => false,
                }),
                _ => (match acheck_of(self.def(), self.contents(), message@) {
                    SlotCheck::SFail { code } => (match r {
                        Err(e) => e.code@ == code,
                        Ok(_) => false,
                    }),
                    _ => (match r {
                        Ok(v) => v@.map_values(|mm: Message| mm@) == conflicts_of(
                            rcheck_of(self.def(), self.contents(), message@),
                            acheck_of(self.def(), self.contents(), message@),
                        ),
                        Err(_) => false,
                    }),
                }),
            }),
    {
        if self.store_def.is_add_type(message) {
            match self.store_def.find_merge_add_conflicts(message) {
                Ok(()) => {},
                Err(e) => {
                    return Err(e);
                },
            }
        } else {
            match self.store_def.find_merge_remove_conflicts(message) {
                Ok(()) => {},
                Err(e) => {
                    return Err(e);
                },
            }
        }
        let d = message.data.unwrap();
        let mut conflicts: Vec<Message> = Vec::new();
        if self.store_def.remove_type_supported() {
            let remove_key = self.store_def.make_remove_key(message);
            match self.db.get(&remove_key) {
                None => {},
                Some(remove_ts_hash) => {
                    if remove_ts_hash.len() != TS_HASH_LENGTH {
                        return Err(
                            HubError {
                                code: "db.internal_error".to_string(),
                                message: "stored ts_hash has the wrong length".to_string(),
                            },
                        );
                    }
                    let remove_compare = self.message_compare(
                        self.store_def.remove_message_type(),
                        &remove_ts_hash,
                        d.msg_type,
                        ts_hash,
                    );
                    if remove_compare > 0 {
                        return Err(
                            HubError {
                                code: "bad_request.conflict".to_string(),
                                message: "message conflicts with a more recent remove".to_string(),
                            },
                        );
                    }
                    if remove_compare == 0 {
                        return Err(
                            HubError {
                                code: "bad_request.duplicate".to_string(),
                                message: "message has already been merged".to_string(),
                            },
                        );
                    }
                    match get_message(&self.db, d.fid, self.store_def.postfix(), &remove_ts_hash) {
                        Ok(Some(existing_remove)) => {
                            conflicts.push(existing_remove);
                        },
                        Ok(None) => {
                            return Err(
                                HubError {
                                    code: "bad_request.internal_error".to_string(),
                                    message: "the remove pointer references no message".to_string(),
                                },
                            );
                        },
                        Err(e) => {
                            return Err(e);
                        },
                    }
                },
            }
        }
        let ghost after_rem = conflicts@.map_values(|mm: Message| mm@);
        proof {
            assert(after_rem =~= (match rcheck_of(self.def(), self.contents(), message@) {
                SlotCheck::SSome { m } => seq![m],
                _ => Seq::<MessageModel>::empty(),
            }));
        }
        let add_key = self.store_def.make_add_key(message);
        match self.db.get(&add_key) {
            None => {},
            Some(add_ts_hash) => {
                if add_ts_hash.len() != TS_HASH_LENGTH {
                    return Err(
                        HubError {
                            code: "db.internal_error".to_string(),
                            message: "stored ts_hash has the wrong length".to_string(),
                        },
                    );
                }
                let add_compare = self.message_compare(
                    self.store_def.add_message_type(),
                    &add_ts_hash,
                    d.msg_type,
                    ts_hash,
                );
                if add_compare > 0 {
                    return Err(
                        HubError {
                            code: "bad_request.conflict".to_string(),
                            message: "message conflicts with a more recent add".to_string(),
                        },
                    );
                }
                if add_compare == 0 {
                    return Err(
                        HubError {
                            code: "bad_request.duplicate".to_string(),
                            message: "message has already been merged".to_string(),
                        },
                    );
                }
                match get_message(&self.db, d.fid, self.store_def.postfix(), &add_ts_hash) {
                    Ok(Some(existing_add)) => {
                        conflicts.push(existing_add);
                    },
                    Ok(None) => {
                        return Err(
                            HubError {
                                code: "bad_request.internal_error".to_string(),
                                message: "the add pointer references no message".to_string(),
                            },
                        );
                    },
                    Err(e) => {
                        return Err(e);
                    },
                }
            },
        }
        proof {
            assert(conflicts@.map_values(|mm: Message| mm@) =~= conflicts_of(
                rcheck_of(self.def(), self.contents(), message@),
                acheck_of(self.def(), self.contents(), message@),
            ));
        }
        Ok(conflicts)
    }
}


impl<D: StoreDef> Store<D> {
    /// The merge event before its id is stamped.
    fn merge_event_args(&self, message: &Message, merge_conflicts: Vec<Message>) -> (r: HubEvent)
        ensures
            r@.event_type == HUB_EVENT_MERGE_MESSAGE,
            r@.id == 0,
            r@.message == Some(message@),
            r@.deleted == merge_conflicts@.map_values(|mm: Message| mm@),
    {
        HubEvent {
            event_type: HUB_EVENT_MERGE_MESSAGE,
            body: MergeMessageBody {
                message: Some(dup_message(message)),
                deleted_messages: merge_conflicts,
            },
            id: 0,
        }
    }

    /// The shared body of `merge_add` and `merge_remove`: conflict
    /// discovery, one atomic transaction, and the stamped event.
    fn merge_core(&mut self, ts_hash: &Vec<u8>, message: &Message) -> (r: Result<Vec<u8>, HubError>)
        requires
            old(self).wf(),
            message@.data is Some,
            message@.hash.len() == 20,
            ts_hash@ == ts_hash_spec(message@.data.unwrap().timestamp, message@.hash),
            old(self).def().is_add_spec(message@) || old(self).def().remove_type_spec()
                != MESSAGE_TYPE_NONE,
        ensures
            final(self).wf(),
            final(self).def() == old(self).def(),
            match merge_inner_spec(old(self).def(), old(self).contents(), message@) {
                MergeOutcome::Fail { code } => (match r {
                    Err(e) => e.code@ == code && final(self).contents() == old(self).contents(),
                    Ok(_) => false,
                }),
                MergeOutcome::Go { map, event } => (match r {
                    Ok(b) => b@ == enc_event(event) && final(self).contents() == map,
                    Err(_) => false,
                }),
            },
    {
        let ghost def = self.def();
        let ghost m0 = self.contents();
        let ghost msg = message@;
        let merge_conflicts = match self.get_merge_conflicts(message, ts_hash) {
            Ok(v) => v,
            Err(e) => {
                return Err(e);
            },
        };
        let ghost models = merge_conflicts@.map_values(|mm: Message| mm@);
        proof {
            assert(models == conflicts_of(rcheck_of(def, m0, msg), acheck_of(def, m0, msg)));
        }
        let mut txn = Transaction::new();
        let ghost ops_empty = txn.ops@;
        match self.delete_many_transaction(&mut txn, &merge_conflicts) {
            Ok(()) => {},
            Err(e) => {
                return Err(e);
            },
        }
        let ghost ops_del = txn.ops@;
        let is_add = self.store_def.is_add_type(message);
        if is_add {
            match self.put_add_transaction(&mut txn, ts_hash, message) {
                Ok(()) => {},
                Err(e) => {
                    proof {
                        assert(false);
                    }
                    return Err(e);
                },
            }
        } else {
            match self.put_remove_transaction(&mut txn, ts_hash, message) {
                Ok(()) => {},
                Err(e) => {
                    proof {
                        assert(false);
                    }
                    return Err(e);
                },
            }
        }
        let ghost ops_put = txn.ops@;
        let counter_k = counter_key();
        let counter: u64 = match self.db.get(&counter_k) {
            Some(v) => {
                if v.len() == 8 {
                    let c = read_u64_be(&v, 0);
                    proof {
                        assert(v@.subrange(0, 8) =~= v@);
                    }
                    c
                } else {
                    0
                }
            },
            None => 0,
        };
        proof {
            assert(counter == counter_of(m0));
        }
        if counter == u64::MAX {
            return Err(
                HubError {
                    code: "db.internal_error".to_string(),
                    message: "event counter exhausted".to_string(),
                },
            );
        }
        let id = counter + 1;
        let mut hub_event = self.merge_event_args(message, merge_conflicts);
        hub_event.id = id;
        proof {
            assert(hub_event@.deleted =~= models);
            lemma_check_slot_wf(
                def,
                m0,
                def.remove_key_spec(msg),
                def.remove_type_spec(),
                msg.data.unwrap().fid,
                msg.data.unwrap().msg_type,
                ts_hash_spec(msg.data.unwrap().timestamp, msg.hash),
            );
            lemma_check_slot_wf(
                def,
                m0,
                def.add_key_spec(msg),
                def.add_type_spec(),
                msg.data.unwrap().fid,
                msg.data.unwrap().msg_type,
                ts_hash_spec(msg.data.unwrap().timestamp, msg.hash),
            );
            assert(event_wf(hub_event@)) by {
                assert(forall|i: int|
                    0 <= i < models.len() ==> (#[trigger] models[i]).hash.len() <= 0xFFFFFFFF);
            }
        }
        let event_bytes = encode_hub_event(&hub_event);
        let ek = event_key(id);
        let ghost ekv = ek@;
        txn.put(ek, copy_bytes(&event_bytes));
        let ghost ops_ev = txn.ops@;
        let mut counter_val: Vec<u8> = Vec::new();
        push_u64_be(&mut counter_val, id);
        let ghost cvv = counter_val@;
        txn.put(counter_k, counter_val);
        let ghost ops_all = txn.ops@;
        proof {
            let spec_event = EventModel {
                event_type: HUB_EVENT_MERGE_MESSAGE,
                id,
                message: Some(msg),
                deleted: models,
            };
            assert(hub_event@ == spec_event);
            assert(cvv =~= u64_be_spec(id));
            // the whole transaction applies to exactly the map the spec names
            assert(apply_ops(m0, ops_empty) == m0);
            assert(apply_ops(m0, ops_del) == del_fold(def, m0, models));
            assert(apply_ops(m0, ops_ev) == apply_ops(m0, ops_put).insert(
                event_key_spec(id),
                enc_event(spec_event),
            )) by {
                lemma_apply_ops_push(m0, ops_put, ops_ev.last());
                assert(ops_ev.drop_last() =~= ops_put);
            }
            assert(apply_ops(m0, ops_all) == apply_ops(m0, ops_ev).insert(
                counter_key_spec(),
                u64_be_spec(id),
            )) by {
                lemma_apply_ops_push(m0, ops_ev, ops_all.last());
                assert(ops_all.drop_last() =~= ops_ev);
            }
        }
        match self.db.commit(txn) {
            Ok(()) => {},
            Err(e) => {
                proof {
                    assert(false);
                }
                return Err(e);
            },
        }
        proof {
            let out = merge_inner_spec(def, m0, msg);
            assert(out matches MergeOutcome::Go { map, event } && self.contents() == map
                && event_bytes@ == enc_event(event));
        }
        Ok(event_bytes)
    }

    /// Merges an add message. The conflicts are gathered, the superseded
    /// messages deleted, the new record and pointer written, and the event
    /// stamped, all in one atomic transaction.
    pub fn merge_add(&mut self, ts_hash: &Vec<u8>, message: &Message) -> (r: Result<
        Vec<u8>,
        HubError,
    >)
        requires
            old(self).wf(),
            message@.data is Some,
            message@.hash.len() == 20,
            ts_hash@ == ts_hash_spec(message@.data.unwrap().timestamp, message@.hash),
            old(self).def().is_add_spec(message@),
        ensures
            final(self).wf(),
            final(self).def() == old(self).def(),
            match merge_inner_spec(old(self).def(), old(self).contents(), message@) {
                MergeOutcome::Fail { code } => (match r {
                    Err(e) => e.code@ == code && final(self).contents() == old(self).contents(),
                    Ok(_) => false,
                }),
                MergeOutcome::Go { map, event } => (match r {
                    Ok(b) => b@ == enc_event(event) && final(self).contents() == map,
                    Err(_) => false,
                }),
            },
    {
        self.merge_core(ts_hash, message)
    }

    /// Merges a remove message; a kind without removes rejects it.
    pub fn merge_remove(&mut self, ts_hash: &Vec<u8>, message: &Message) -> (r: Result<
        Vec<u8>,
        HubError,
    >)
        requires
            old(self).wf(),
            message@.data is Some,
            message@.hash.len() == 20,
            ts_hash@ == ts_hash_spec(message@.data.unwrap().timestamp, message@.hash),
            !old(self).def().is_add_spec(message@),
        ensures
            final(self).wf(),
            final(self).def() == old(self).def(),
            old(self).def().remove_type_spec() == MESSAGE_TYPE_NONE ==> (match r {
                Err(e) => e.code@ == "bad_request.validation_failure"@ && final(self).contents()
                    == old(self).contents(),
                Ok(_) => false,
            }),
            old(self).def().remove_type_spec() != MESSAGE_TYPE_NONE ==> (match merge_inner_spec(
                old(self).def(),
                old(self).contents(),
                message@,
            ) {
                MergeOutcome::Fail { code } => (match r {
                    Err(e) => e.code@ == code && final(self).contents() == old(self).contents(),
                    Ok(_) => false,
                }),
                MergeOutcome::Go { map, event } => (match r {
                    Ok(b) => b@ == enc_event(event) && final(self).contents() == map,
                    Err(_) => false,
                }),
            }),
    {
        if !self.store_def.remove_type_supported() {
            return Err(
                HubError {
                    code: "bad_request.validation_failure".to_string(),
                    message: "remove type not supported".to_string(),
                },
            );
        }
        self.merge_core(ts_hash, message)
    }

    /// Merges a message: validation, conflict resolution against the two
    /// pointers, compensating deletes, the write of the new record, and the
    /// stamped event, atomically. The returned bytes encode the event.
    pub fn merge(&mut self, message: &Message) -> (r: Result<Vec<u8>, HubError>)
        requires
            old(self).wf(),
        ensures
            final(self).wf(),
            final(self).def() == old(self).def(),
            match merge_spec(old(self).def(), old(self).contents(), message@) {
                MergeOutcome::Fail { code } => (match r {
                    Err(e) => e.code@ == code && final(self).contents() == old(self).contents(),
                    Ok(_) => false,
                }),
                MergeOutcome::Go { map, event } => (match r {
                    Ok(b) => b@ == enc_event(event) && final(self).contents() == map,
                    Err(_) => false,
                }),
            },
    {
        let data_ok = match &message.data {
            Some(d) => d.fid != 0,
            None => false,
        };
        if !data_ok {
            return Err(
                HubError {
                    code: "bad_request.invalid_param".to_string(),
                    message: "fid is required".to_string(),
                },
            );
        }
        let is_add = self.store_def.is_add_type(message);
        let supported = self.store_def.remove_type_supported();
        let is_rem = if supported {
            self.store_def.is_remove_type(message)
        } else {
            false
        };
        if !is_add && !is_rem {
            return Err(
                HubError {
                    code: "bad_request.validation_failure".to_string(),
                    message: "invalid message type".to_string(),
                },
            );
        }
        let d = message.data.unwrap();
        let ts_hash = match make_ts_hash(d.timestamp, &message.hash) {
            Ok(t) => t,
            Err(e) => {
                return Err(e);
            },
        };
        self.merge_core(&ts_hash, message)
    }
}


/// The message a stored row parses to, when it parses exactly.
pub open spec fn row_msg(v: Seq<u8>) -> Option<MessageModel> {
    match dec_msg(v, 0) {
        Some((m, p)) => if p == v.len() {
            Some(m)
        } else {
            None
        },
        None => None,
    }
}

/// Whether a message belongs to the requested side of the set.
pub open spec fn mode_ok<D: StoreDef>(
    def: D,
    want_adds: bool,
    want_removes: bool,
    m: MessageModel,
) -> bool {
    (want_adds && def.is_add_spec(m)) || (want_removes && def.remove_type_spec()
        != MESSAGE_TYPE_NONE && def.is_remove_spec(m))
}

/// The 5-byte prefix under which a fid's set is stored.
pub open spec fn fid_prefix_spec(fid: u32, postfix: u8) -> Seq<u8> {
    crate::codec::u32_be_spec(fid) + seq![postfix]
}

/// The page size actually used: the caller's, capped, or the cap.
pub open spec fn eff_page_size(po: crate::PageOptions) -> int {
    match po.page_size {
        Some(s) => if s > crate::PAGE_SIZE_MAX {
            crate::PAGE_SIZE_MAX as int
        } else {
            s as int
        },
        None => crate::PAGE_SIZE_MAX as int,
    }
}

/// `mm` is what the row at `k` holds, and `k` lies in the scanned range.
pub open spec fn msg_source(
    m0: Map<Seq<u8>, Seq<u8>>,
    k: Seq<u8>,
    prefix: Seq<u8>,
    reverse: bool,
    tok: Option<Seq<u8>>,
    mm: MessageModel,
) -> bool {
    m0.contains_key(k) && crate::db::in_scan_range(k, prefix, reverse, tok) && row_msg(m0[k])
        == Some(mm)
}

/// The view of the page token.
pub open spec fn tok_view(po: crate::PageOptions) -> Option<Seq<u8>> {
    match po.page_token {
        Some(v) => Some(v@),
        None => None,
    }
}

/// The result of following a pointer to its primary row.
pub open spec fn lookup_spec<D: StoreDef>(
    def: D,
    m0: Map<Seq<u8>, Seq<u8>>,
    key: Seq<u8>,
    fid: u32,
) -> Result<Option<MessageModel>, Seq<char>> {
    match slot(m0, key) {
        None => Ok(None),
        Some(th) => if th.len() != TS_HASH_LENGTH {
            Err("db.internal_error"@)
        } else {
            match slot(m0, primary_key_spec(fid, def.postfix_spec(), th)) {
                None => Ok(None),
                Some(bytes) => match row_msg(bytes) {
                    Some(m) => Ok(Some(m)),
                    None => Err("db.internal_error"@),
                },
            }
        },
    }
}

impl<D: StoreDef> Store<D> {
    /// Follows a pointer key to the message it names.
    fn lookup(&self, key: &Vec<u8>, fid: u32) -> (r: Result<Option<Message>, HubError>)
        requires
            self.wf(),
        ensures
            match (r, lookup_spec(self.def(), self.contents(), key@, fid)) {
                (Ok(Some(m)), Ok(Some(sm))) => m@ == sm,
                (Ok(None), Ok(None)) => true,
                (Err(e), Err(c)) => e.code@ == c,
                _ => false,
            },
    {
        match self.db.get(key) {
            None => Ok(None),
            Some(message_ts_hash) => {
                if message_ts_hash.len() != TS_HASH_LENGTH {
                    return Err(
                        HubError {
                            code: "db.internal_error".to_string(),
                            message: "stored ts_hash has the wrong length".to_string(),
                        },
                    );
                }
                match get_message(&self.db, fid, self.store_def.postfix(), &message_ts_hash) {
                    Ok(Some(m)) => Ok(Some(m)),
                    Ok(None) => Ok(None),
                    Err(e) => Err(e),
                }
            },
        }
    }

    /// The current winning add of the logical record the partial message
    /// names, if any. Requires a non-zero fid in the message.
    pub fn get_add(&self, partial_message: &Message) -> (r: Result<Option<Message>, HubError>)
        requires
            self.wf(),
        ensures
            (partial_message@.data is None || partial_message@.data.unwrap().fid == 0) ==> (match r {
                Err(e) => e.code@ == "bad_request.invalid_param"@,
                Ok(_) => false,
            }),
            (partial_message@.data is Some && partial_message@.data.unwrap().fid != 0) ==> (match (
                r,
                lookup_spec(
                    self.def(),
                    self.contents(),
                    self.def().add_key_spec(partial_message@),
                    partial_message@.data.unwrap().fid,
                ),
            ) {
                (Ok(Some(m)), Ok(Some(sm))) => m@ == sm,
                (Ok(None), Ok(None)) => true,
                (Err(e), Err(c)) => e.code@ == c,
                _ => false,
            }),
    {
        let fid_ok = match &partial_message.data {
            Some(d) => d.fid != 0,
            None => false,
        };
        if !fid_ok {
            return Err(
                HubError {
                    code: "bad_request.invalid_param".to_string(),
                    message: "fid is required".to_string(),
                },
            );
        }
        let adds_key = self.store_def.make_add_key(partial_message);
        self.lookup(&adds_key, partial_message.data.unwrap().fid)
    }

    /// The current winning remove of the logical record the partial message
    /// names, if any. Rejects kinds without removes.
    pub fn get_remove(&self, partial_message: &Message) -> (r: Result<Option<Message>, HubError>)
        requires
            self.wf(),
        ensures
            self.def().remove_type_spec() == MESSAGE_TYPE_NONE ==> (match r {
                Err(e) => e.code@ == "bad_request.validation_failure"@,
                Ok(_) => false,
            }),
            (self.def().remove_type_spec() != MESSAGE_TYPE_NONE && (partial_message@.data is None
                || partial_message@.data.unwrap().fid == 0)) ==> (match r {
                Err(e) => e.code@ == "bad_request.invalid_param"@,
                Ok(_) => false,
            }),
            (self.def().remove_type_spec() != MESSAGE_TYPE_NONE && partial_message@.data is Some
                && partial_message@.data.unwrap().fid != 0) ==> (match (
                r,
                lookup_spec(
                    self.def(),
                    self.contents(),
                    self.def().remove_key_spec(partial_message@),
                    partial_message@.data.unwrap().fid,
                ),
            ) {
                (Ok(Some(m)), Ok(Some(sm))) => m@ == sm,
                (Ok(None), Ok(None)) => true,
                (Err(e), Err(c)) => e.code@ == c,
                _ => false,
            }),
    {
        if !self.store_def.remove_type_supported() {
            return Err(
                HubError {
                    code: "bad_request.validation_failure".to_string(),
                    message: "remove type not supported".to_string(),
                },
            );
        }
        let fid_ok = match &partial_message.data {
            Some(d) => d.fid != 0,
            None => false,
        };
        if !fid_ok {
            return Err(
                HubError {
                    code: "bad_request.invalid_param".to_string(),
                    message: "fid is required".to_string(),
                },
            );
        }
        let removes_key = self.store_def.make_remove_key(partial_message);
        self.lookup(&removes_key, partial_message.data.unwrap().fid)
    }
}

/// The returned page draws element `t` from the row at `ks[t]`: every key
/// sources its element and lies in the scanned range, and the keys strictly
/// ascend (descend when `reverse`), so no row is returned twice and the
/// page preserves the store's key order.
pub open spec fn page_sources<D: StoreDef>(
    def: D,
    m0: Map<Seq<u8>, Seq<u8>>,
    ks: Seq<Seq<u8>>,
    ms: Seq<MessageModel>,
    prefix: Seq<u8>,
    reverse: bool,
    tok: Option<Seq<u8>>,
    want_adds: bool,
    want_removes: bool,
) -> bool {
    &&& ks.len() == ms.len()
    &&& forall|t: int|
        0 <= t < ms.len() ==> msg_source(m0, #[trigger] ks[t], prefix, reverse, tok, ms[t])
            && mode_ok(def, want_adds, want_removes, ms[t])
    &&& forall|t1: int, t2: int| #![trigger ks[t1], ks[t2]]
        0 <= t1 < t2 < ms.len() ==> (if reverse {
            bytes_cmp_spec(ks[t2], ks[t1]) < 0
        } else {
            bytes_cmp_spec(ks[t1], ks[t2]) < 0
        })
}

/// Every matching row of the scanned range has its message in the page.
pub open spec fn page_complete<D: StoreDef>(
    def: D,
    m0: Map<Seq<u8>, Seq<u8>>,
    ms: Seq<MessageModel>,
    prefix: Seq<u8>,
    reverse: bool,
    tok: Option<Seq<u8>>,
    want_adds: bool,
    want_removes: bool,
) -> bool {
    forall|k: Seq<u8>|
        (#[trigger] m0.contains_key(k) && crate::db::in_scan_range(k, prefix, reverse, tok)
            && row_msg(m0[k]) is Some && mode_ok(
            def,
            want_adds,
            want_removes,
            row_msg(m0[k]).unwrap(),
        )) ==> exists|t: int| 0 <= t < ms.len() && #[trigger] ms[t] == row_msg(m0[k]).unwrap()
}

/// The whole behavior of a by-fid page query: each element sourced from its
/// own row in order, the continuation token equal to the last source key,
/// completeness when the page is not cut short, and the size cap.
pub open spec fn page_post<D: StoreDef>(
    def: D,
    m0: Map<Seq<u8>, Seq<u8>>,
    fid: u32,
    po: crate::PageOptions,
    want_adds: bool,
    want_removes: bool,
    unfiltered: bool,
    r: Result<MessagesPage, HubError>,
) -> bool {
    match r {
        Ok(page) => {
            let prefix = fid_prefix_spec(fid, def.postfix_spec());
            let tok = tok_view(po);
            let ms = page.messages@.map_values(|m: Message| m@);
            &&& exists|ks: Seq<Seq<u8>>|
                #[trigger] page_sources(
                    def,
                    m0,
                    ks,
                    ms,
                    prefix,
                    po.reverse,
                    tok,
                    want_adds,
                    want_removes,
                ) && (match page.next_page_token {
                    Some(t) => ks.len() > 0 && ks.last() == t@,
                    None => true,
                })
            &&& (unfiltered && ms.len() < eff_page_size(po)) ==> page_complete(
                def,
                m0,
                ms,
                prefix,
                po.reverse,
                tok,
                want_adds,
                want_removes,
            )
            &&& (unfiltered && page.next_page_token is None && eff_page_size(po) > 0)
                ==> page_complete(def, m0, ms, prefix, po.reverse, tok, want_adds, want_removes)
            &&& page.next_page_token is Some ==> ms.len() == eff_page_size(po)
            &&& ms.len() <= eff_page_size(po)
        },
        Err(e) => e.code@ == "db.internal_error"@,
    }
}

impl<D: StoreDef> Store<D> {
    /// One page of this fid's messages, filtered to the requested sides and
    /// by the caller's predicate, in key order.
    fn messages_page_by_prefix<F: Fn(&Message) -> bool>(
        &self,
        fid: u32,
        page_options: &crate::PageOptions,
        want_adds: bool,
        want_removes: bool,
        filter: Option<&F>,
    ) -> (r: Result<MessagesPage, HubError>)
        requires
            self.wf(),
            match filter {
                Some(f) => forall|m: &Message| f.requires((m,)),
                None => true,
            },
        ensures
            page_post(
                self.def(),
                self.contents(),
                fid,
                *page_options,
                want_adds,
                want_removes,
                filter is None,
                r,
            ),
            match r {
                Ok(page) => forall|t: int| #![trigger page.messages@[t]]
                    0 <= t < page.messages@.len() ==> (match filter {
                        Some(f) => f.ensures((&page.messages@[t],), true),
                        None => true,
                    }),
                Err(_) => true,
            },
            (forall|k: Seq<u8>|
                #[trigger] self.contents().contains_key(k) && crate::codec::has_prefix(
                    k,
                    fid_prefix_spec(fid, self.def().postfix_spec()),
                ) ==> row_msg(self.contents()[k]) is Some) ==> r is Ok,
    {
        let ghost m0 = self.contents();
        let ghost def = self.def();
        let ghost gprefix = fid_prefix_spec(fid, self.def().postfix_spec());
        let ghost gtok = tok_view(*page_options);
        let prefix = make_message_primary_key(fid, self.store_def.postfix(), None);
        let ps: usize = match page_options.page_size {
            Some(s) => if s > crate::PAGE_SIZE_MAX {
                crate::PAGE_SIZE_MAX
            } else {
                s
            },
            None => crate::PAGE_SIZE_MAX,
        };
        let rows = self.db.prefix_scan(
            &prefix,
            page_options.reverse,
            match &page_options.page_token {
                Some(t) => Some(t),
                None => None,
            },
        );
        let ghost rs = rows@;
        let n = rows.len();
        let mut messages: Vec<Message> = Vec::new();
        let mut last_key: Option<Vec<u8>> = None;
        let ghost mut srcs: Seq<int> = Seq::empty();
        let ghost mut dst: Seq<int> = Seq::empty();
        let mut j: usize = 0;
        while j < n && messages.len() < ps
            invariant
                j <= n,
                n == rs.len(),
                rows@ == rs,
                m0 == self.contents(),
                def == self.def(),
                gprefix == fid_prefix_spec(fid, self.def().postfix_spec()),
                gtok == tok_view(*page_options),
                ps as int == eff_page_size(*page_options),
                self.wf(),
                match filter {
                    Some(f) => forall|m: &Message| f.requires((m,)),
                    None => true,
                },
                forall|t: int|
                    0 <= t < rs.len() ==> m0.contains_key(#[trigger] crate::db::key_at(rs, t))
                        && m0[crate::db::key_at(rs, t)] == rs[t].1@ && crate::db::in_scan_range(
                        crate::db::key_at(rs, t),
                        gprefix,
                        page_options.reverse,
                        gtok,
                    ),
                messages@.len() <= ps as int,
                srcs.len() == messages@.len(),
                dst.len() == j,
                forall|t: int| #![trigger srcs[t]]
                    0 <= t < messages@.len() ==> 0 <= srcs[t] < j && row_msg(rs[srcs[t]].1@)
                        == Some(messages@[t]@) && mode_ok(def, want_adds, want_removes, messages@[t]@)
                        && (match filter {
                        Some(f) => f.ensures((&messages@[t],), true),
                        None => true,
                    }),
                forall|t1: int, t2: int| #![trigger srcs[t1], srcs[t2]]
                    0 <= t1 < t2 < messages@.len() ==> srcs[t1] < srcs[t2],
                messages@.len() > 0 ==> (match last_key {
                    Some(lk) => lk@ == crate::db::key_at(rs, srcs[messages@.len() - 1]),
                    None => false,
                }),
                messages@.len() == 0 ==> last_key is None,
                filter is None ==> forall|jj: int| #![trigger dst[jj]]
                    0 <= jj < j ==> ((row_msg(rs[jj].1@) is Some && mode_ok(
                        def,
                        want_adds,
                        want_removes,
                        row_msg(rs[jj].1@).unwrap(),
                    )) ==> 0 <= dst[jj] < messages@.len() && messages@[dst[jj]]@ == row_msg(
                        rs[jj].1@,
                    ).unwrap()),
            decreases n - j,
        {
            match decode_message_at(&rows[j].1, 0) {
                Some((m, p)) => {
                    if p != rows[j].1.len() {
                        proof {
                            let k = crate::db::key_at(rs, j as int);
                            assert(m0.contains_key(k) && crate::codec::has_prefix(k, gprefix)
                                && !(row_msg(m0[k]) is Some));
                        }
                        return Err(
                            HubError {
                                code: "db.internal_error".to_string(),
                                message: "stored message does not parse".to_string(),
                            },
                        );
                    }
                    let ia = self.store_def.is_add_type(&m);
                    let ir = if want_removes && self.store_def.remove_type_supported() {
                        self.store_def.is_remove_type(&m)
                    } else {
                        false
                    };
                    let in_mode = (want_adds && ia) || (want_removes && ir);
                    proof {
                        assert(in_mode == mode_ok(def, want_adds, want_removes, m@));
                    }
                    let keep = if in_mode {
                        match filter {
                            Some(f) => f(&m),
                            None => true,
                        }
                    } else {
                        false
                    };
                    if keep {
                        proof {
                            srcs = srcs.push(j as int);
                            dst = dst.push(messages@.len() as int);
                        }
                        last_key = Some(copy_bytes(&rows[j].0));
                        messages.push(m);
                        proof {
                            assert forall|t: int| #![trigger srcs[t]]
                                0 <= t < messages@.len() implies 0 <= srcs[t] < j + 1 && row_msg(
                                rs[srcs[t]].1@,
                            ) == Some(messages@[t]@) && mode_ok(
                                def,
                                want_adds,
                                want_removes,
                                messages@[t]@,
                            ) && (match filter {
                                Some(f) => f.ensures((&messages@[t],), true),
                                None => true,
                            }) by {
                                if t < messages@.len() - 1 {
                                    assert(srcs[t] == srcs.drop_last()[t]);
                                    assert(messages@[t] == messages@.drop_last()[t]);
                                }
                            }
                            assert forall|t1: int, t2: int| #![trigger srcs[t1], srcs[t2]]
                                0 <= t1 < t2 < messages@.len() implies srcs[t1] < srcs[t2] by {
                                if t2 < messages@.len() - 1 {
                                    assert(srcs[t1] == srcs.drop_last()[t1]);
                                    assert(srcs[t2] == srcs.drop_last()[t2]);
                                } else {
                                    assert(srcs[t1] == srcs.drop_last()[t1]);
                                    assert(srcs[t2] == j as int);
                                }
                            }
                            assert(messages@[messages@.len() - 1] == m);
                            assert(srcs[messages@.len() - 1] == j as int);
                            if filter is None {
                                assert forall|jj: int| #![trigger dst[jj]]
                                    0 <= jj < j + 1 implies ((row_msg(rs[jj].1@) is Some
                                    && mode_ok(
                                    def,
                                    want_adds,
                                    want_removes,
                                    row_msg(rs[jj].1@).unwrap(),
                                )) ==> 0 <= dst[jj] < messages@.len() && messages@[dst[jj]]@
                                    == row_msg(rs[jj].1@).unwrap()) by {
                                    if jj < j {
                                        assert(dst[jj] == dst.drop_last()[jj]);
                                        if 0 <= dst[jj] < messages@.len() - 1 {
                                            assert(messages@[dst[jj]]@ == messages@.drop_last()[
                                                dst[jj]]@);
                                        }
                                    }
                                }
                            }
                        }
                    } else {
                        proof {
                            dst = dst.push(-1);
                            if filter is None {
                                assert(!in_mode);
                                assert forall|jj: int| #![trigger dst[jj]]
                                    0 <= jj < j + 1 implies ((row_msg(rs[jj].1@) is Some
                                    && mode_ok(
                                    def,
                                    want_adds,
                                    want_removes,
                                    row_msg(rs[jj].1@).unwrap(),
                                )) ==> 0 <= dst[jj] < messages@.len() && messages@[dst[jj]]@
                                    == row_msg(rs[jj].1@).unwrap()) by {
                                    if jj < j {
                                        assert(dst[jj] == dst.drop_last()[jj]);
                                    } else {
                                        assert(row_msg(rs[jj].1@) == Some(m@));
                                        assert(!mode_ok(def, want_adds, want_removes, m@));
                                    }
                                }
                            }
                        }
                    }
                },
                None => {
                    proof {
                        let k = crate::db::key_at(rs, j as int);
                        assert(m0.contains_key(k) && crate::codec::has_prefix(k, gprefix)
                            && !(row_msg(m0[k]) is Some));
                    }
                    return Err(
                        HubError {
                            code: "db.internal_error".to_string(),
                            message: "stored message does not parse".to_string(),
                        },
                    );
                },
            }
            j = j + 1;
        }
        let next_page_token: Option<Vec<u8>> = if messages.len() == ps {
            last_key
        } else {
            None
        };
        let page = MessagesPage { messages, next_page_token };
        proof {
            let ms = page.messages@.map_values(|m: Message| m@);
            let ks = Seq::new(srcs.len() as nat, |t: int| crate::db::key_at(rs, srcs[t]));
            assert forall|t: int|
                0 <= t < ms.len() implies msg_source(
                m0,
                #[trigger] ks[t],
                gprefix,
                page_options.reverse,
                gtok,
                ms[t],
            ) && mode_ok(def, want_adds, want_removes, ms[t]) by {
                let jj = srcs[t];
                assert(ks[t] == crate::db::key_at(rs, jj));
                assert(ms[t] == page.messages@[t]@);
                assert(m0.contains_key(ks[t]) && m0[ks[t]] == rs[jj].1@
                    && crate::db::in_scan_range(ks[t], gprefix, page_options.reverse, gtok));
            }
            assert forall|t1: int, t2: int| #![trigger ks[t1], ks[t2]]
                0 <= t1 < t2 < ms.len() implies (if page_options.reverse {
                bytes_cmp_spec(ks[t2], ks[t1]) < 0
            } else {
                bytes_cmp_spec(ks[t1], ks[t2]) < 0
            }) by {
                assert(srcs[t1] < srcs[t2]);
                assert(ks[t1] == crate::db::key_at(rs, srcs[t1]));
                assert(ks[t2] == crate::db::key_at(rs, srcs[t2]));
            }
            assert(page_sources(
                def,
                m0,
                ks,
                ms,
                gprefix,
                page_options.reverse,
                gtok,
                want_adds,
                want_removes,
            ));
            match &page.next_page_token {
                Some(t) => {
                    assert(page.messages@.len() == ps as int);
                    assert(ks.len() > 0 && ks.last() == t@);
                },
                None => {},
            }
            if filter is None && ms.len() < eff_page_size(*page_options) {
                assert(j == n);
                assert forall|k: Seq<u8>|
                    (#[trigger] m0.contains_key(k) && crate::db::in_scan_range(
                        k,
                        gprefix,
                        page_options.reverse,
                        gtok,
                    ) && row_msg(m0[k]) is Some && mode_ok(
                        def,
                        want_adds,
                        want_removes,
                        row_msg(m0[k]).unwrap(),
                    )) implies exists|t: int|
                    0 <= t < ms.len() && #[trigger] ms[t] == row_msg(m0[k]).unwrap() by {
                    assert(crate::db::has_key_index(rs, k));
                    let jj = choose|jj: int|
                        0 <= jj < rs.len() && #[trigger] crate::db::key_at(rs, jj) == k;
                    assert(m0[k] == rs[jj].1@);
                    assert(0 <= dst[jj] < page.messages@.len() && page.messages@[dst[jj]]@
                        == row_msg(rs[jj].1@).unwrap());
                    assert(ms[dst[jj]] == row_msg(m0[k]).unwrap());
                }
            }
            if filter is None && page.next_page_token is None && eff_page_size(*page_options) > 0 {
                if ms.len() == eff_page_size(*page_options) {
                    assert(page.messages@.len() > 0);
                    assert(false);
                }
            }
            assert forall|t: int| #![trigger page.messages@[t]]
                0 <= t < page.messages@.len() implies (match filter {
                Some(f) => f.ensures((&page.messages@[t],), true),
                None => true,
            }) by {
                let jj = srcs[t];
            }
        }
        Ok(page)
    }

    /// One page of this fid's adds, in key order, each drawn from its own
    /// stored row and passing the caller's filter.
    pub fn get_adds_by_fid<F: Fn(&Message) -> bool>(
        &self,
        fid: u32,
        page_options: &crate::PageOptions,
        filter: Option<F>,
    ) -> (r: Result<MessagesPage, HubError>)
        requires
            self.wf(),
            match filter {
                Some(f) => forall|m: &Message| f.requires((m,)),
                None => true,
            },
        ensures
            page_post(
                self.def(),
                self.contents(),
                fid,
                *page_options,
                true,
                false,
                filter is None,
                r,
            ),
            match r {
                Ok(page) => forall|t: int| #![trigger page.messages@[t]]
                    0 <= t < page.messages@.len() ==> (match filter {
                        Some(f) => f.ensures((&page.messages@[t],), true),
                        None => true,
                    }),
                Err(_) => true,
            },
    {
        let filter_ref = match &filter {
            Some(f) => Some(f),
            None => None,
        };
        self.messages_page_by_prefix(fid, page_options, true, false, filter_ref)
    }

    /// One page of this fid's removes, in key order, each drawn from its
    /// own stored row and passing the caller's filter. Rejects kinds
    /// without removes.
    pub fn get_removes_by_fid<F: Fn(&Message) -> bool>(
        &self,
        fid: u32,
        page_options: &crate::PageOptions,
        filter: Option<F>,
    ) -> (r: Result<MessagesPage, HubError>)
        requires
            self.wf(),
            match filter {
                Some(f) => forall|m: &Message| f.requires((m,)),
                None => true,
            },
        ensures
            self.def().remove_type_spec() == MESSAGE_TYPE_NONE ==> (match r {
                Err(e) => e.code@ == "bad_request.validation_failure"@,
                Ok(_) => false,
            }),
            self.def().remove_type_spec() != MESSAGE_TYPE_NONE ==> page_post(
                self.def(),
                self.contents(),
                fid,
                *page_options,
                false,
                true,
                filter is None,
                r,
            ),
            self.def().remove_type_spec() != MESSAGE_TYPE_NONE ==> (match r {
                Ok(page) => forall|t: int| #![trigger page.messages@[t]]
                    0 <= t < page.messages@.len() ==> (match filter {
                        Some(f) => f.ensures((&page.messages@[t],), true),
                        None => true,
                    }),
                Err(_) => true,
            }),
    {
        if !self.store_def.remove_type_supported() {
            return Err(
                HubError {
                    code: "bad_request.validation_failure".to_string(),
                    message: "remove type not supported".to_string(),
                },
            );
        }
        let filter_ref = match &filter {
            Some(f) => Some(f),
            None => None,
        };
        self.messages_page_by_prefix(fid, page_options, false, true, filter_ref)
    }

    /// One page of every message of this fid, adds and removes, in key
    /// order, each drawn from its own stored row.
    pub fn get_all_messages_by_fid(&self, fid: u32, page_options: &crate::PageOptions) -> (r: Result<
        MessagesPage,
        HubError,
    >)
        requires
            self.wf(),
        ensures
            page_post(self.def(), self.contents(), fid, *page_options, true, true, true, r),
    {
        let no_filter = |m: &Message| -> bool { true };
        // gives the absent filter a concrete closure type
        let mut filter = Some(&no_filter);
        filter = None;
        self.messages_page_by_prefix(fid, page_options, true, true, filter)
    }
}

} // verus!
