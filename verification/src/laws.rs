//! The laws the store obeys, stated and proved over the merge model.

use vstd::prelude::*;

use crate::codec::bytes_cmp_spec;
use crate::codec::lemma_cmp_antisym;
use crate::codec::lemma_cmp_eq;
use crate::codec::lemma_cmp_trans;
use crate::codec::lemma_u64_be_roundtrip;
use crate::codec::primary_key_spec;
use crate::codec::ts_hash_spec;
use crate::codec::u64_be_spec;
use crate::message::MessageModel;
use crate::message::MESSAGE_TYPE_NONE;
use crate::store::MergeOutcome;
use crate::store::SlotCheck;
use crate::store::acheck_of;
use crate::store::conflicts_of;
use crate::store::counter_key_spec;
use crate::store::counter_of;
use crate::store::event_key_spec;
use crate::store::mc_spec;
use crate::store::merge_spec;
use crate::store::rcheck_of;
use crate::store::slot;
use crate::store_def::StoreDef;

verus! {

/// The winner of a logical record: the dominant merged message, as a
/// `(type, ts_hash)` pair, or nothing.
pub open spec fn lww_step(
    rt: u8,
    at: u8,
    s: Option<(u8, Seq<u8>)>,
    mtype: u8,
    th: Seq<u8>,
) -> Option<(u8, Seq<u8>)> {
    match s {
        None => Some((mtype, th)),
        Some((wt, wth)) => if mc_spec(rt, at, wt, wth, mtype, th) < 0 {
            Some((mtype, th))
        } else {
            s
        },
    }
}

/// A candidate is one of the kind's two message types with a full-length
/// ordering key.
pub open spec fn candidate(rt: u8, at: u8, t: u8, h: Seq<u8>) -> bool {
    (t == rt || t == at) && h.len() == 24
}

/// Swapping the candidates negates the ordering.
pub proof fn lemma_mc_antisym(rt: u8, at: u8, t1: u8, h1: Seq<u8>, t2: u8, h2: Seq<u8>)
    requires
        rt != at,
    ensures
        mc_spec(rt, at, t2, h2, t1, h1) == -mc_spec(rt, at, t1, h1, t2, h2),
{
    lemma_cmp_antisym(h1.subrange(0, 4), h2.subrange(0, 4));
    lemma_cmp_antisym(h1.subrange(4, 24), h2.subrange(4, 24));
}

/// Candidates compare as zero exactly when they are the same candidate.
pub proof fn lemma_mc_eq(rt: u8, at: u8, t1: u8, h1: Seq<u8>, t2: u8, h2: Seq<u8>)
    requires
        rt != at,
        candidate(rt, at, t1, h1),
        candidate(rt, at, t2, h2),
    ensures
        (mc_spec(rt, at, t1, h1, t2, h2) == 0) <==> (t1 == t2 && h1 == h2),
{
    lemma_cmp_eq(h1.subrange(0, 4), h2.subrange(0, 4));
    lemma_cmp_eq(h1.subrange(4, 24), h2.subrange(4, 24));
    if mc_spec(rt, at, t1, h1, t2, h2) == 0 {
        assert(h1.subrange(0, 4) == h2.subrange(0, 4));
        assert(h1.subrange(4, 24) == h2.subrange(4, 24));
        assert(h1 =~= h2) by {
            assert forall|i: int| 0 <= i < 24 implies h1[i] == h2[i] by {
                if i < 4 {
                    assert(h1.subrange(0, 4)[i] == h1[i]);
                    assert(h2.subrange(0, 4)[i] == h2[i]);
                } else {
                    assert(h1.subrange(4, 24)[i - 4] == h1[i]);
                    assert(h2.subrange(4, 24)[i - 4] == h2[i]);
                }
            }
        }
    }
}

/// The ordering is transitive on candidates.
pub proof fn lemma_mc_trans(
    rt: u8,
    at: u8,
    t1: u8,
    h1: Seq<u8>,
    t2: u8,
    h2: Seq<u8>,
    t3: u8,
    h3: Seq<u8>,
)
    requires
        rt != at,
        candidate(rt, at, t1, h1),
        candidate(rt, at, t2, h2),
        candidate(rt, at, t3, h3),
        mc_spec(rt, at, t1, h1, t2, h2) < 0,
        mc_spec(rt, at, t2, h2, t3, h3) < 0,
    ensures
        mc_spec(rt, at, t1, h1, t3, h3) < 0,
{
    let a12 = bytes_cmp_spec(h1.subrange(0, 4), h2.subrange(0, 4));
    let a23 = bytes_cmp_spec(h2.subrange(0, 4), h3.subrange(0, 4));
    lemma_cmp_eq(h1.subrange(0, 4), h2.subrange(0, 4));
    lemma_cmp_eq(h2.subrange(0, 4), h3.subrange(0, 4));
    if a12 < 0 && a23 < 0 {
        lemma_cmp_trans(h1.subrange(0, 4), h2.subrange(0, 4), h3.subrange(0, 4));
    } else if a12 < 0 && a23 == 0 {
        assert(h2.subrange(0, 4) == h3.subrange(0, 4));
    } else if a12 == 0 && a23 < 0 {
        assert(h1.subrange(0, 4) == h2.subrange(0, 4));
    } else {
        assert(a12 == 0 && a23 == 0);
        assert(h1.subrange(0, 4) == h2.subrange(0, 4));
        assert(h2.subrange(0, 4) == h3.subrange(0, 4));
        lemma_cmp_eq(h1.subrange(0, 4), h3.subrange(0, 4));
        if t1 == at && t2 == rt {
            // rank rose; it cannot fall back without reversing the order
            assert(t2 == t3 && bytes_cmp_spec(h2.subrange(4, 24), h3.subrange(4, 24)) < 0);
            assert(mc_spec(rt, at, t1, h1, t3, h3) == -1);
        } else {
            assert(t1 == t2);
            if t2 == at && t3 == rt {
                assert(mc_spec(rt, at, t1, h1, t3, h3) == -1);
            } else {
                assert(t2 == t3);
                lemma_cmp_trans(h1.subrange(4, 24), h2.subrange(4, 24), h3.subrange(4, 24));
            }
        }
    }
}

/// Ordering law: when one message strictly dominates another, merging the
/// two, in either order, leaves the dominant one as the stored winner.
pub proof fn lemma_ordering_law(rt: u8, at: u8, t1: u8, h1: Seq<u8>, t2: u8, h2: Seq<u8>)
    requires
        rt != at,
        candidate(rt, at, t1, h1),
        candidate(rt, at, t2, h2),
        mc_spec(rt, at, t1, h1, t2, h2) < 0,
    ensures
        lww_step(rt, at, lww_step(rt, at, None, t1, h1), t2, h2) == Some((t2, h2)),
        lww_step(rt, at, lww_step(rt, at, None, t2, h2), t1, h1) == Some((t2, h2)),
{
    lemma_mc_antisym(rt, at, t1, h1, t2, h2);
}

/// Commutativity: merging two messages from any starting winner ends at the
/// same winner whichever arrives first. With the order-insensitive rest of a
/// merge this makes the final state of a set a function of the multiset of
/// merged messages.
pub proof fn lemma_merge_commutes(
    rt: u8,
    at: u8,
    s: Option<(u8, Seq<u8>)>,
    t1: u8,
    h1: Seq<u8>,
    t2: u8,
    h2: Seq<u8>,
)
    requires
        rt != at,
        candidate(rt, at, t1, h1),
        candidate(rt, at, t2, h2),
        match s {
            Some((wt, wh)) => candidate(rt, at, wt, wh),
            None => true,
        },
    ensures
        lww_step(rt, at, lww_step(rt, at, s, t1, h1), t2, h2) == lww_step(
            rt,
            at,
            lww_step(rt, at, s, t2, h2),
            t1,
            h1,
        ),
{
    lemma_mc_antisym(rt, at, t1, h1, t2, h2);
    lemma_mc_eq(rt, at, t1, h1, t2, h2);
    match s {
        None => {
        },
        Some((wt, wh)) => {
            lemma_mc_antisym(rt, at, wt, wh, t1, h1);
            lemma_mc_antisym(rt, at, wt, wh, t2, h2);
            lemma_mc_eq(rt, at, wt, wh, t1, h1);
            lemma_mc_eq(rt, at, wt, wh, t2, h2);
            if mc_spec(rt, at, wt, wh, t1, h1) < 0 && mc_spec(rt, at, t1, h1, t2, h2) < 0 {
                lemma_mc_trans(rt, at, wt, wh, t1, h1, t2, h2);
            }
            if mc_spec(rt, at, wt, wh, t2, h2) < 0 && mc_spec(rt, at, t2, h2, t1, h1) < 0 {
                lemma_mc_trans(rt, at, wt, wh, t2, h2, t1, h1);
            }
            if mc_spec(rt, at, t1, h1, wt, wh) < 0 && mc_spec(rt, at, wt, wh, t2, h2) < 0 {
                lemma_mc_trans(rt, at, t1, h1, wt, wh, t2, h2);
            }
            if mc_spec(rt, at, t2, h2, wt, wh) < 0 && mc_spec(rt, at, wt, wh, t1, h1) < 0 {
                lemma_mc_trans(rt, at, t2, h2, wt, wh, t1, h1);
            }
        },
    }
}

/// Event monotonicity: each successful merge stamps the id after the stored
/// counter and leaves the counter at that id, so ids strictly increase in
/// commit order.
pub proof fn lemma_event_id_monotonic<D: StoreDef>(
    def: D,
    m0: Map<Seq<u8>, Seq<u8>>,
    msg1: MessageModel,
    msg2: MessageModel,
    map1: Map<Seq<u8>, Seq<u8>>,
    ev1: crate::message::EventModel,
    map2: Map<Seq<u8>, Seq<u8>>,
    ev2: crate::message::EventModel,
)
    requires
        merge_spec(def, m0, msg1) == (MergeOutcome::Go { map: map1, event: ev1 }),
        merge_spec(def, map1, msg2) == (MergeOutcome::Go { map: map2, event: ev2 }),
    ensures
        ev1.id == counter_of(m0) + 1,
        counter_of(map1) == ev1.id,
        ev2.id == ev1.id + 1,
{
    lemma_u64_be_roundtrip(ev1.id);
    assert(slot(map1, counter_key_spec()) == Some(u64_be_spec(ev1.id)));
    assert(u64_be_spec(ev1.id).len() == 8);
    lemma_u64_be_roundtrip(ev2.id);
    assert(slot(map2, counter_key_spec()) == Some(u64_be_spec(ev2.id)));
}


/// At-most-one pointer and pointer integrity, shown for the basic kind:
/// after a successful add merge, the add pointer names exactly the merged
/// message's ordering key, that key's primary row holds the message, and
/// the record's remove pointer is gone. The superseded remove, when one was
/// loaded, must carry this record's key; a store whose rows were written
/// only by merges satisfies that.
pub proof fn lemma_basic_add_merge_pointers(
    def: crate::store_def::BasicStoreDef,
    m0: Map<Seq<u8>, Seq<u8>>,
    msg: MessageModel,
    map: Map<Seq<u8>, Seq<u8>>,
    ev: crate::message::EventModel,
)
    requires
        def.remove_type != MESSAGE_TYPE_NONE,
        def.add_type != def.remove_type,
        def.is_add_spec(msg),
        merge_spec(def, m0, msg) == (MergeOutcome::Go { map, event: ev }),
        match rcheck_of(def, m0, msg) {
            SlotCheck::SSome { m: cr } => def.remove_key_spec(cr) == def.remove_key_spec(msg)
                && def.is_remove_spec(cr) && !def.is_add_spec(cr),
            _ => true,
        },
    ensures
        slot(map, def.add_key_spec(msg)) == Some(
            ts_hash_spec(msg.data.unwrap().timestamp, msg.hash),
        ),
        slot(map, primary_key_spec(msg.data.unwrap().fid, def.set_postfix, ts_hash_spec(
            msg.data.unwrap().timestamp,
            msg.hash,
        ))) == Some(crate::message::enc_msg(msg)),
        slot(map, def.remove_key_spec(msg)) is None,
{
    let d = msg.data.unwrap();
    let th = ts_hash_spec(d.timestamp, msg.hash);
    let ak = def.add_key_spec(msg);
    let rk = def.remove_key_spec(msg);
    let pk = primary_key_spec(d.fid, def.set_postfix, th);
    let rcheck = rcheck_of(def, m0, msg);
    let acheck = acheck_of(def, m0, msg);
    let conflicts = conflicts_of(rcheck, acheck);
    let id = ev.id;
    let ek = event_key_spec(id);
    let ck = counter_key_spec();

    assert(ak.len() == 6 && rk.len() == 6 && pk.len() == 29 && ek.len() == 9 && ck.len() == 1);
    assert(ak[0] == 255u8 && rk[0] == 254u8);
    assert(ak != rk && ak != pk && ak != ek && ak != ck);
    assert(rk != pk && rk != ek && rk != ck);
    assert(pk != ek && pk != ck);

    // the successful merge built exactly this map
    let m1 = crate::store::del_fold(def, m0, conflicts);
    let m2 = m1.insert(pk, crate::message::enc_msg(msg));
    let m3 = crate::db::apply_ops(
        m2.insert(ak, th),
        def.build_ops_spec(th, msg),
    );
    assert(def.build_ops_spec(th, msg) =~= Seq::<crate::db::DbOp>::empty());
    assert(m3 == m2.insert(ak, th));
    let m4 = m3.insert(ek, crate::message::enc_event(ev)).insert(ck, u64_be_spec(id));
    assert(map == m4);

    assert(slot(m4, ak) == Some(th));
    assert(slot(m4, pk) == Some(crate::message::enc_msg(msg)));

    // the remove pointer is absent: it was either never set or deleted
    assert(slot(m1, rk) is None) by {
        match rcheck {
            SlotCheck::SFail { code } => {
                assert(false);
            },
            SlotCheck::SNone => {
                assert(!m0.contains_key(rk));
                lemma_del_fold_keeps_absent(def, m0, conflicts, rk);
            },
            SlotCheck::SSome { m: cr } => {
                assert(conflicts[0] == cr);
                let after = crate::store::conflict_del_map(def, m0, cr);
                assert(!after.contains_key(rk));
                assert(conflicts.skip(1).len() <= 1);
                lemma_del_fold_keeps_absent(def, after, conflicts.skip(1), rk);
                assert(crate::store::del_fold(def, m0, conflicts) == crate::store::del_fold(
                    def,
                    after,
                    conflicts.skip(1),
                ));
            },
        }
    }
    assert(slot(m4, rk) is None);
}

/// Deleting conflicts never introduces a key.
pub proof fn lemma_del_fold_keeps_absent(
    def: crate::store_def::BasicStoreDef,
    m: Map<Seq<u8>, Seq<u8>>,
    cs: Seq<MessageModel>,
    k: Seq<u8>,
)
    requires
        !m.contains_key(k),
    ensures
        !crate::store::del_fold(def, m, cs).contains_key(k),
    decreases cs.len(),
{
    if cs.len() == 0 {
    } else {
        let after = crate::store::conflict_del_map(def, m, cs[0]);
        assert(def.delete_ops_spec(ts_hash_spec(cs[0].data.unwrap().timestamp, cs[0].hash), cs[0])
            =~= Seq::<crate::db::DbOp>::empty());
        assert(!after.contains_key(k));
        lemma_del_fold_keeps_absent(def, after, cs.skip(1), k);
    }
}


/// The remove-side counterpart: after a successful remove merge, the remove
/// pointer names exactly the merged message's ordering key, that key's
/// primary row holds the message, and the record's add pointer is gone.
#[verifier::rlimit(80)]
pub proof fn lemma_basic_remove_merge_pointers(
    def: crate::store_def::BasicStoreDef,
    m0: Map<Seq<u8>, Seq<u8>>,
    msg: MessageModel,
    map: Map<Seq<u8>, Seq<u8>>,
    ev: crate::message::EventModel,
)
    requires
        def.remove_type != MESSAGE_TYPE_NONE,
        def.add_type != def.remove_type,
        def.is_remove_spec(msg),
        merge_spec(def, m0, msg) == (MergeOutcome::Go { map, event: ev }),
        match acheck_of(def, m0, msg) {
            SlotCheck::SSome { m: ca } => def.add_key_spec(ca) == def.add_key_spec(msg)
                && def.is_add_spec(ca) && !def.is_remove_spec(ca),
            _ => true,
        },
    ensures
        slot(map, def.remove_key_spec(msg)) == Some(
            ts_hash_spec(msg.data.unwrap().timestamp, msg.hash),
        ),
        slot(map, primary_key_spec(msg.data.unwrap().fid, def.set_postfix, ts_hash_spec(
            msg.data.unwrap().timestamp,
            msg.hash,
        ))) == Some(crate::message::enc_msg(msg)),
        slot(map, def.add_key_spec(msg)) is None,
{
    let d = msg.data.unwrap();
    let th = ts_hash_spec(d.timestamp, msg.hash);
    let ak = def.add_key_spec(msg);
    let rk = def.remove_key_spec(msg);
    let pk = primary_key_spec(d.fid, def.set_postfix, th);
    let rcheck = rcheck_of(def, m0, msg);
    let acheck = acheck_of(def, m0, msg);
    let conflicts = conflicts_of(rcheck, acheck);
    let id = ev.id;
    let ek = event_key_spec(id);
    let ck = counter_key_spec();

    assert(!def.is_add_spec(msg));
    assert(ak.len() == 6 && rk.len() == 6 && pk.len() == 29 && ek.len() == 9 && ck.len() == 1);
    assert(ak[0] == 255u8 && rk[0] == 254u8);
    assert(ak != rk && ak != pk && ak != ek && ak != ck);
    assert(rk != pk && rk != ek && rk != ck);
    assert(pk != ek && pk != ck);

    let m1 = crate::store::del_fold(def, m0, conflicts);
    let m2 = m1.insert(pk, crate::message::enc_msg(msg));
    let m3 = m2.insert(rk, th);
    let m4 = m3.insert(ek, crate::message::enc_event(ev)).insert(ck, u64_be_spec(id));
    assert(map == m4);

    assert(slot(m4, rk) == Some(th));
    assert(slot(m4, pk) == Some(crate::message::enc_msg(msg)));

    // the add pointer is absent: it was either never set or deleted
    assert(slot(m1, ak) is None) by {
        match acheck {
            SlotCheck::SFail { code } => {
                assert(false);
            },
            SlotCheck::SNone => {
                assert(!m0.contains_key(ak));
                lemma_del_fold_keeps_absent(def, m0, conflicts, ak);
            },
            SlotCheck::SSome { m: ca } => {
                let last = conflicts.len() - 1;
                assert(conflicts[last] == ca);
                match rcheck {
                    SlotCheck::SSome { m: cr } => {
                        assert(conflicts.len() == 2);
                        assert(conflicts[0] == cr && conflicts[1] == ca);
                        let after_cr = crate::store::conflict_del_map(def, m0, cr);
                        let after_ca = crate::store::conflict_del_map(def, after_cr, ca);
                        assert(conflicts.skip(1)[0] == ca);
                        assert(conflicts.skip(1).skip(1) =~= Seq::<MessageModel>::empty());
                        assert(crate::store::del_fold(def, m0, conflicts)
                            == crate::store::del_fold(def, after_cr, conflicts.skip(1)));
                        assert(crate::store::del_fold(def, after_cr, conflicts.skip(1))
                            == crate::store::del_fold(
                            def,
                            after_ca,
                            conflicts.skip(1).skip(1),
                        ));
                        assert(crate::store::del_fold(
                            def,
                            after_ca,
                            Seq::<MessageModel>::empty(),
                        ) == after_ca);
                        assert(m1 == after_ca);
                        assert(!after_ca.contains_key(ak));
                    },
                    _ => {
                        assert(conflicts.len() == 1);
                        assert(conflicts[0] == ca);
                        let after_ca = crate::store::conflict_del_map(def, m0, ca);
                        assert(conflicts.skip(1) =~= Seq::<MessageModel>::empty());
                        assert(crate::store::del_fold(def, m0, conflicts)
                            == crate::store::del_fold(def, after_ca, conflicts.skip(1)));
                        assert(crate::store::del_fold(
                            def,
                            after_ca,
                            Seq::<MessageModel>::empty(),
                        ) == after_ca);
                        assert(m1 == after_ca);
                        assert(!after_ca.contains_key(ak));
                    },
                }
            },
        }
    }
    assert(slot(m4, ak) is None);
}

} // verus!
