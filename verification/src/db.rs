//! An ordered transactional byte key/value store, the substrate the message
//! store runs on.
//!
//! The abstract contents are a `Map<Seq<u8>, Seq<u8>>`; entries are kept
//! strictly sorted by key so that prefix scans return keys in ascending
//! order. A `Transaction` is an ordered batch of writes that `commit`
//! applies atomically: either every write lands or none does.

use vstd::prelude::*;
use vstd::map::*;

use crate::HubError;
use crate::codec::bytes_cmp_spec;
use crate::codec::bytes_compare;
use crate::codec::copy_bytes;
use crate::codec::has_prefix;
use crate::codec::lemma_cmp_antisym;
use crate::codec::lemma_cmp_eq;
use crate::codec::lemma_cmp_trans;
use crate::codec::starts_with;

verus! {

/// One write of a transaction: a keyed insert or a keyed delete.
pub enum DbOp {
    Put { key: Vec<u8>, value: Vec<u8> },
    Delete { key: Vec<u8> },
}

/// An ordered batch of writes, applied atomically by `Db::commit`.
pub struct Transaction {
    pub ops: Vec<DbOp>,
}

/// The effect of one write on the abstract contents.
pub open spec fn apply_op(m: Map<Seq<u8>, Seq<u8>>, op: DbOp) -> Map<Seq<u8>, Seq<u8>> {
    match op {
        DbOp::Put { key, value } => m.insert(key@, value@),
        DbOp::Delete { key } => m.remove(key@),
    }
}

/// The effect of a batch of writes, applied first to last.
pub open spec fn apply_ops(m: Map<Seq<u8>, Seq<u8>>, ops: Seq<DbOp>) -> Map<Seq<u8>, Seq<u8>>
    decreases ops.len(),
{
    if ops.len() == 0 {
        m
    } else {
        apply_op(apply_ops(m, ops.drop_last()), ops.last())
    }
}

impl Transaction {
    pub fn new() -> (r: Transaction)
        ensures
            r.ops@ == Seq::<DbOp>::empty(),
    {
        let t = Transaction { ops: Vec::new() };
        proof {
            assert(t.ops@ =~= Seq::<DbOp>::empty());
        }
        t
    }

    /// Queues an insert of `value` under `key`.
    pub fn put(&mut self, key: Vec<u8>, value: Vec<u8>)
        ensures
            final(self).ops@ == old(self).ops@.push((DbOp::Put { key, value })),
    {
        self.ops.push(DbOp::Put { key, value });
    }

    /// Queues a delete of `key`.
    pub fn delete(&mut self, key: Vec<u8>)
        ensures
            final(self).ops@ == old(self).ops@.push((DbOp::Delete { key })),
    {
        self.ops.push(DbOp::Delete { key });
    }
}

/// The key of the entry at index `i`.
pub open spec fn key_at(s: Seq<(Vec<u8>, Vec<u8>)>, i: int) -> Seq<u8> {
    s[i].0@
}

/// The abstract contents of a sequence of entries.
pub open spec fn entries_map(s: Seq<(Vec<u8>, Vec<u8>)>) -> Map<Seq<u8>, Seq<u8>>
    decreases s.len(),
{
    if s.len() == 0 {
        Map::empty()
    } else {
        entries_map(s.drop_last()).insert(s.last().0@, s.last().1@)
    }
}

/// Entries are strictly sorted by key.
pub open spec fn entries_sorted(s: Seq<(Vec<u8>, Vec<u8>)>) -> bool {
    forall|i: int, j: int|
        0 <= i < j < s.len() ==> bytes_cmp_spec(#[trigger] key_at(s, i), #[trigger] key_at(s, j))
            < 0
}

/// Some index of `s` carries the key `k`.
pub open spec fn has_key_index(s: Seq<(Vec<u8>, Vec<u8>)>, k: Seq<u8>) -> bool {
    exists|i: int| 0 <= i < s.len() && #[trigger] key_at(s, i) == k
}

/// Strictly sorted entries have pairwise distinct keys.
pub proof fn lemma_sorted_unique(s: Seq<(Vec<u8>, Vec<u8>)>)
    requires
        entries_sorted(s),
    ensures
        forall|i: int, j: int|
            0 <= i < j < s.len() ==> #[trigger] key_at(s, i) != #[trigger] key_at(s, j),
{
    assert forall|i: int, j: int|
        0 <= i < j < s.len() implies #[trigger] key_at(s, i) != #[trigger] key_at(s, j) by {
        lemma_cmp_eq(key_at(s, i), key_at(s, j));
    }
}

/// Membership and lookup in `entries_map` in terms of the entry indices.
pub proof fn lemma_entries_map_props(s: Seq<(Vec<u8>, Vec<u8>)>)
    requires
        forall|i: int, j: int|
            0 <= i < j < s.len() ==> #[trigger] key_at(s, i) != #[trigger] key_at(s, j),
    ensures
        forall|k: Seq<u8>| #[trigger] entries_map(s).contains_key(k) <==> has_key_index(s, k),
        forall|i: int|
            0 <= i < s.len() ==> entries_map(s).contains_key(#[trigger] key_at(s, i))
                && entries_map(s)[key_at(s, i)] == s[i].1@,
    decreases s.len(),
{
    if s.len() == 0 {
        assert(forall|k: Seq<u8>| !#[trigger] entries_map(s).contains_key(k));
    } else {
        let s0 = s.drop_last();
        let last = s.last();
        assert(forall|i: int| 0 <= i < s0.len() ==> #[trigger] key_at(s0, i) == key_at(s, i));
        lemma_entries_map_props(s0);
        assert forall|k: Seq<u8>| #[trigger] entries_map(s).contains_key(k) implies has_key_index(
            s,
            k,
        ) by {
            if k == last.0@ {
                assert(key_at(s, s.len() - 1) == k);
            } else {
                assert(entries_map(s0).contains_key(k));
                let i = choose|i: int| 0 <= i < s0.len() && #[trigger] key_at(s0, i) == k;
                assert(key_at(s, i) == k);
            }
        }
        assert forall|k: Seq<u8>| has_key_index(s, k) implies #[trigger] entries_map(
            s,
        ).contains_key(k) by {
            let i = choose|i: int| 0 <= i < s.len() && #[trigger] key_at(s, i) == k;
            if i == s.len() - 1 {
            } else {
                assert(key_at(s0, i) == k);
                assert(has_key_index(s0, k));
            }
        }
        assert forall|i: int| 0 <= i < s.len() implies entries_map(s).contains_key(
            #[trigger] key_at(s, i),
        ) && entries_map(s)[key_at(s, i)] == s[i].1@ by {
            if i == s.len() - 1 {
            } else {
                assert(key_at(s, i) != key_at(s, s.len() - 1));
                assert(entries_map(s)[key_at(s, i)] == entries_map(s0)[key_at(s0, i)]);
            }
        }
    }
}

/// Inserting an entry at `pos` inserts its pair into the abstract contents,
/// provided no later entry carries the same key.
pub proof fn lemma_entries_map_insert_at(s: Seq<(Vec<u8>, Vec<u8>)>, pos: int, x: (Vec<u8>, Vec<u8>))
    requires
        0 <= pos <= s.len(),
        forall|j: int| pos <= j < s.len() ==> #[trigger] key_at(s, j) != x.0@,
    ensures
        entries_map(s.insert(pos, x)) == entries_map(s).insert(x.0@, x.1@),
    decreases s.len() - pos,
{
    let t = s.insert(pos, x);
    if pos == s.len() {
        assert(t.drop_last() =~= s);
        assert(t.last() == x);
    } else {
        let s0 = s.drop_last();
        assert(t.drop_last() =~= s0.insert(pos, x));
        assert(t.last() == s.last());
        assert(forall|j: int| pos <= j < s0.len() ==> #[trigger] key_at(s0, j) == key_at(s, j));
        lemma_entries_map_insert_at(s0, pos, x);
        assert(key_at(s, s.len() - 1) != x.0@);
        assert(entries_map(t) == entries_map(s0).insert(x.0@, x.1@).insert(
            s.last().0@,
            s.last().1@,
        ));
        assert(entries_map(s0).insert(x.0@, x.1@).insert(s.last().0@, s.last().1@)
            =~= entries_map(s0).insert(s.last().0@, s.last().1@).insert(x.0@, x.1@));
    }
}

/// Removing the entry at `pos` removes its key from the abstract contents,
/// provided keys are pairwise distinct.
pub proof fn lemma_entries_map_remove_at(s: Seq<(Vec<u8>, Vec<u8>)>, pos: int)
    requires
        0 <= pos < s.len(),
        forall|i: int, j: int|
            0 <= i < j < s.len() ==> #[trigger] key_at(s, i) != #[trigger] key_at(s, j),
    ensures
        entries_map(s.remove(pos)) == entries_map(s).remove(key_at(s, pos)),
    decreases s.len(),
{
    let t = s.remove(pos);
    let s0 = s.drop_last();
    if pos == s.len() - 1 {
        assert(t =~= s0);
        assert(forall|i: int| 0 <= i < s0.len() ==> #[trigger] key_at(s0, i) == key_at(s, i));
        lemma_entries_map_props(s0);
        assert(!entries_map(s0).contains_key(s.last().0@)) by {
            if entries_map(s0).contains_key(s.last().0@) {
                let i = choose|i: int|
                    0 <= i < s0.len() && #[trigger] key_at(s0, i) == s.last().0@;
                assert(key_at(s, i) == key_at(s, s.len() - 1));
            }
        }
        assert(entries_map(s).remove(key_at(s, pos)) =~= entries_map(s0));
    } else {
        assert(t.drop_last() =~= s0.remove(pos));
        assert(t.last() == s.last());
        assert(forall|i: int| 0 <= i < s0.len() ==> #[trigger] key_at(s0, i) == key_at(s, i));
        lemma_entries_map_remove_at(s0, pos);
        assert(entries_map(t) == entries_map(s0).remove(key_at(s, pos)).insert(
            s.last().0@,
            s.last().1@,
        ));
        assert(key_at(s, pos) != key_at(s, s.len() - 1));
        assert(entries_map(s0).remove(key_at(s, pos)).insert(s.last().0@, s.last().1@)
            =~= entries_map(s0).insert(s.last().0@, s.last().1@).remove(key_at(s, pos)));
    }
}

/// The ordered byte store. Its abstract contents are `self@`, a map from
/// byte keys to byte values.
pub struct Db {
    entries: Vec<(Vec<u8>, Vec<u8>)>,
}

impl View for Db {
    type V = Map<Seq<u8>, Seq<u8>>;

    closed spec fn view(&self) -> Map<Seq<u8>, Seq<u8>> {
        entries_map(self.entries@)
    }
}

impl Db {
    /// Well-formedness: entries strictly sorted by key.
    pub closed spec fn wf(&self) -> bool {
        entries_sorted(self.entries@)
    }

    /// An empty store.
    pub fn new() -> (r: Db)
        ensures
            r.wf(),
            r@ == Map::<Seq<u8>, Seq<u8>>::empty(),
    {
        let d = Db { entries: Vec::new() };
        proof {
            assert(d.entries@.len() == 0);
        }
        d
    }

    /// Removes every key. Returns the number of keys removed.
    pub fn clear(&mut self) -> (r: usize)
        requires
            old(self).wf(),
        ensures
            final(self).wf(),
            final(self)@ == Map::<Seq<u8>, Seq<u8>>::empty(),
            r == old(self)@.dom().len(),
    {
        proof {
            lemma_sorted_unique(self.entries@);
            lemma_entries_map_dom_len(self.entries@);
        }
        let n = self.entries.len();
        self.entries.clear();
        proof {
            assert(self.entries@.len() == 0);
        }
        n
    }

    /// The first index whose key is not below `key`; `self.entries.len()`
    /// if every key is below it.
    fn lower_bound(&self, key: &Vec<u8>) -> (pos: usize)
        ensures
            pos <= self.entries@.len(),
            forall|j: int| 0 <= j < pos ==> bytes_cmp_spec(#[trigger] key_at(self.entries@, j), key@) < 0,
            pos < self.entries@.len() ==> bytes_cmp_spec(key_at(self.entries@, pos as int), key@)
                >= 0,
    {
        let n = self.entries.len();
        let mut pos: usize = 0;
        loop
            invariant
                pos <= n,
                n == self.entries@.len(),
                forall|j: int|
                    0 <= j < pos ==> bytes_cmp_spec(#[trigger] key_at(self.entries@, j), key@) < 0,
            decreases n - pos,
        {
            if pos >= n {
                return pos;
            }
            let c = bytes_compare(&self.entries[pos].0, key);
            if c >= 0 {
                return pos;
            }
            pos = pos + 1;
        }
    }

    /// Looks up the value stored under `key`.
    pub fn get(&self, key: &Vec<u8>) -> (r: Option<Vec<u8>>)
        requires
            self.wf(),
        ensures
            match r {
                Some(v) => self@.contains_key(key@) && v@ == self@[key@],
                None => !self@.contains_key(key@),
            },
    {
        proof {
            lemma_sorted_unique(self.entries@);
            lemma_entries_map_props(self.entries@);
        }
        let n = self.entries.len();
        let mut i: usize = 0;
        while i < n
            invariant
                self.wf(),
                i <= n,
                n == self.entries@.len(),
                forall|j: int| 0 <= j < i ==> #[trigger] key_at(self.entries@, j) != key@,
            decreases n - i,
        {
            let c = bytes_compare(&self.entries[i].0, key);
            proof {
                lemma_sorted_unique(self.entries@);
                lemma_entries_map_props(self.entries@);
                lemma_cmp_eq(self.entries@[i as int].0@, key@);
            }
            if c == 0 {
                proof {
                    assert(key_at(self.entries@, i as int) == key@);
                }
                return Some(copy_bytes(&self.entries[i].1));
            }
            i = i + 1;
        }
        proof {
            lemma_sorted_unique(self.entries@);
            lemma_entries_map_props(self.entries@);
            assert(!has_key_index(self.entries@, key@));
        }
        None
    }

    /// Stores `value` under `key`, replacing any previous value.
    pub fn put(&mut self, key: Vec<u8>, value: Vec<u8>)
        requires
            old(self).wf(),
        ensures
            final(self).wf(),
            final(self)@ == old(self)@.insert(key@, value@),
    {
        let ghost gk = key@;
        let ghost gv = value@;
        let ghost s = self.entries@;
        proof {
            lemma_sorted_unique(s);
        }
        let pos = self.lower_bound(&key);
        let mut exact = false;
        if pos < self.entries.len() {
            let c = bytes_compare(&self.entries[pos].0, &key);
            proof {
                lemma_cmp_eq(key_at(s, pos as int), gk);
            }
            if c == 0 {
                exact = true;
            }
        }
        if exact {
            proof {
                lemma_entries_map_remove_at(s, pos as int);
            }
            let _old = self.entries.remove(pos);
            let ghost s1 = self.entries@;
            proof {
                assert forall|j: int| pos <= j < s1.len() implies #[trigger] key_at(s1, j)
                    != gk by {
                    assert(key_at(s1, j) == key_at(s, j + 1));
                    lemma_cmp_eq(key_at(s, pos as int), key_at(s, j + 1));
                }
                lemma_entries_map_insert_at(s1, pos as int, (key, value));
            }
            self.entries.insert(pos, (key, value));
            proof {
                // contents: remove then insert of the same key is insert
                assert(entries_map(s).remove(gk).insert(gk, gv) =~= entries_map(s).insert(gk, gv));
                assert(key_at(s, pos as int) == gk);
                // sortedness of the updated entries
                let t = self.entries@;
                assert forall|i: int, j: int| 0 <= i < j < t.len() implies bytes_cmp_spec(
                    #[trigger] key_at(t, i),
                    #[trigger] key_at(t, j),
                ) < 0 by {
                    assert(t =~= s.update(pos as int, (key, value)));
                    assert(forall|q: int|
                        0 <= q < t.len() && q != pos ==> #[trigger] key_at(t, q) == key_at(s, q));
                    assert(key_at(t, pos as int) == gk);
                }
            }
        } else {
            proof {
                assert forall|j: int| pos <= j < s.len() implies #[trigger] key_at(s, j) != gk by {
                    lemma_cmp_eq(key_at(s, j), gk);
                    if j > pos {
                        lemma_cmp_antisym(key_at(s, pos as int), key_at(s, j));
                        if bytes_cmp_spec(key_at(s, j), gk) == 0 {
                            lemma_cmp_eq(key_at(s, j), gk);
                        }
                        // key_at(s, pos) < key_at(s, j); key_at(s, pos) >= gk
                        if bytes_cmp_spec(key_at(s, j), gk) < 0 {
                            // then key_at(s,j) < gk <= key_at(s,pos) < key_at(s,j): contradiction
                            lemma_cmp_eq(key_at(s, pos as int), gk);
                            if bytes_cmp_spec(key_at(s, pos as int), gk) == 0 {
                                assert(key_at(s, pos as int) == gk);
                                lemma_cmp_trans(key_at(s, j), key_at(s, pos as int), key_at(s, j));
                                lemma_cmp_antisym(key_at(s, j), key_at(s, j));
                            } else {
                                lemma_cmp_antisym(key_at(s, pos as int), gk);
                                lemma_cmp_trans(key_at(s, j), gk, key_at(s, pos as int));
                                lemma_cmp_trans(key_at(s, j), key_at(s, pos as int), key_at(s, j));
                                lemma_cmp_antisym(key_at(s, j), key_at(s, j));
                            }
                        }
                    }
                }
                lemma_entries_map_insert_at(s, pos as int, (key, value));
            }
            self.entries.insert(pos, (key, value));
            proof {
                let t = self.entries@;
                assert forall|i: int, j: int| 0 <= i < j < t.len() implies bytes_cmp_spec(
                    #[trigger] key_at(t, i),
                    #[trigger] key_at(t, j),
                ) < 0 by {
                    assert(forall|q: int| 0 <= q < pos ==> #[trigger] key_at(t, q) == key_at(s, q));
                    assert(forall|q: int|
                        pos < q < t.len() ==> #[trigger] key_at(t, q) == key_at(s, q - 1));
                    assert(key_at(t, pos as int) == gk);
                    if i < pos && j == pos {
                        // key_at(s, i) < gk
                    } else if i == pos && j > pos {
                        // gk < key_at(s, j - 1): gk <= key_at(s, pos) < key_at(s, j - 1) or j - 1 == pos
                        assert(key_at(s, j - 1) != gk);
                        lemma_cmp_eq(key_at(s, j - 1), gk);
                        lemma_cmp_antisym(key_at(s, j - 1), gk);
                        if bytes_cmp_spec(gk, key_at(s, j - 1)) >= 0 {
                            // gk >= key_at(s, j-1) >= key_at(s, pos) >= gk: contradiction with neq
                            if bytes_cmp_spec(key_at(s, j - 1), gk) < 0 {
                                lemma_cmp_eq(key_at(s, pos as int), gk);
                                if bytes_cmp_spec(key_at(s, pos as int), gk) == 0 {
                                    assert(key_at(s, pos as int) == gk);
                                    if j - 1 > pos {
                                        lemma_cmp_trans(
                                            key_at(s, pos as int),
                                            key_at(s, j - 1),
                                            key_at(s, pos as int),
                                        );
                                        lemma_cmp_antisym(
                                            key_at(s, pos as int),
                                            key_at(s, pos as int),
                                        );
                                    }
                                } else {
                                    lemma_cmp_antisym(key_at(s, pos as int), gk);
                                    if j - 1 > pos {
                                        lemma_cmp_trans(
                                            gk,
                                            key_at(s, pos as int),
                                            key_at(s, j - 1),
                                        );
                                        lemma_cmp_trans(key_at(s, j - 1), gk, key_at(s, j - 1));
                                        lemma_cmp_antisym(key_at(s, j - 1), key_at(s, j - 1));
                                    } else {
                                        lemma_cmp_trans(key_at(s, j - 1), gk, key_at(s, j - 1));
                                        lemma_cmp_antisym(key_at(s, j - 1), key_at(s, j - 1));
                                    }
                                }
                            }
                        }
                    } else if i < pos && j > pos {
                        if i < j - 1 {
                        } else {
                            // i == j - 1 impossible: i < pos < j means i <= pos - 1, j - 1 >= pos
                            assert(i <= pos - 1 && j - 1 >= pos);
                        }
                    }
                }
            }
        }
    }

    /// Removes `key` and its value, if present.
    pub fn delete(&mut self, key: &Vec<u8>)
        requires
            old(self).wf(),
        ensures
            final(self).wf(),
            final(self)@ == old(self)@.remove(key@),
    {
        let ghost s = self.entries@;
        proof {
            lemma_sorted_unique(s);
            lemma_entries_map_props(s);
        }
        let n = self.entries.len();
        let mut i: usize = 0;
        while i < n
            invariant
                i <= n,
                n == self.entries@.len(),
                self.entries@ == s,
                entries_sorted(s),
                old(self)@ == entries_map(s),
                forall|j: int| 0 <= j < i ==> #[trigger] key_at(s, j) != key@,
            decreases n - i,
        {
            let c = bytes_compare(&self.entries[i].0, key);
            proof {
                lemma_sorted_unique(s);
                lemma_entries_map_props(s);
                lemma_cmp_eq(key_at(s, i as int), key@);
            }
            if c == 0 {
                proof {
                    lemma_entries_map_remove_at(s, i as int);
                    assert(key_at(s, i as int) == key@);
                }
                let _old = self.entries.remove(i);
                proof {
                    let t = self.entries@;
                    assert forall|p: int, q: int| 0 <= p < q < t.len() implies bytes_cmp_spec(
                        #[trigger] key_at(t, p),
                        #[trigger] key_at(t, q),
                    ) < 0 by {
                        assert(forall|r: int|
                            0 <= r < i ==> #[trigger] key_at(t, r) == key_at(s, r));
                        assert(forall|r: int|
                            i <= r < t.len() ==> #[trigger] key_at(t, r) == key_at(s, r + 1));
                    }
                }
                return ;
            }
            i = i + 1;
        }
        proof {
            lemma_sorted_unique(s);
            lemma_entries_map_props(s);
            assert(!has_key_index(s, key@));
            assert(!self@.contains_key(key@));
            assert(self@.remove(key@) =~= self@);
        }
    }

    /// Applies every write of `txn`, in order, atomically.
    pub fn commit(&mut self, txn: Transaction) -> (r: Result<(), HubError>)
        requires
            old(self).wf(),
        ensures
            r is Ok,
            final(self).wf(),
            final(self)@ == apply_ops(old(self)@, txn.ops@),
    {
        let ghost m0 = self@;
        let ghost ops = txn.ops@;
        let n = txn.ops.len();
        let mut i: usize = 0;
        while i < n
            invariant
                i <= n,
                n == ops.len(),
                txn.ops@ == ops,
                self.wf(),
                self@ == apply_ops(m0, ops.take(i as int)),
            decreases n - i,
        {
            proof {
                assert(ops.take(i as int + 1).drop_last() =~= ops.take(i as int));
                assert(ops.take(i as int + 1).last() == ops[i as int]);
            }
            match &txn.ops[i] {
                DbOp::Put { key, value } => {
                    self.put(copy_bytes(key), copy_bytes(value));
                },
                DbOp::Delete { key } => {
                    self.delete(key);
                },
            }
            i = i + 1;
        }
        proof {
            assert(ops.take(n as int) =~= ops);
        }
        Ok(())
    }

    /// Every key with prefix `prefix` that lies past `start_after` in the
    /// chosen direction, with its value, in ascending key order (descending
    /// when `reverse`).
    #[verifier::rlimit(60)]
    pub fn prefix_scan(&self, prefix: &Vec<u8>, reverse: bool, start_after: Option<&Vec<u8>>) -> (r:
        Vec<(Vec<u8>, Vec<u8>)>)
        requires
            self.wf(),
        ensures
            forall|t: int|
                0 <= t < r@.len() ==> self@.contains_key(#[trigger] key_at(r@, t)) && self@[key_at(
                    r@,
                    t,
                )] == r@[t].1@ && in_scan_range(key_at(r@, t), prefix@, reverse, opt_view(
                    start_after,
                )),
            forall|t1: int, t2: int|
                0 <= t1 < t2 < r@.len() ==> (if reverse {
                    bytes_cmp_spec(#[trigger] key_at(r@, t2), #[trigger] key_at(r@, t1)) < 0
                } else {
                    bytes_cmp_spec(#[trigger] key_at(r@, t1), #[trigger] key_at(r@, t2)) < 0
                }),
            forall|k: Seq<u8>|
                #[trigger] self@.contains_key(k) && in_scan_range(k, prefix@, reverse, opt_view(
                    start_after,
                )) ==> has_key_index(r@, k),
    {
        let ghost s = self.entries@;
        let ghost sa = opt_view(start_after);
        let ghost mut src: Seq<int> = Seq::empty();
        let n = self.entries.len();
        let mut r: Vec<(Vec<u8>, Vec<u8>)> = Vec::new();
        let mut i: usize = 0;
        while i < n
            invariant
                i <= n,
                n == s.len(),
                self.entries@ == s,
                self.wf(),
                sa == opt_view(start_after),
                src.len() == r@.len(),
                forall|t: int| #![trigger src[t]]
                    0 <= t < r@.len() ==> scan_src(s, r@, t, src[t], prefix@, reverse, sa)
                        && src[t] < i,
                forall|t1: int, t2: int|
                    0 <= t1 < t2 < r@.len() ==> bytes_cmp_spec(
                        #[trigger] key_at(r@, t1),
                        #[trigger] key_at(r@, t2),
                    ) < 0,
                forall|j: int|
                    0 <= j < i && in_scan_range(#[trigger] key_at(s, j), prefix@, reverse, sa)
                        ==> has_key_index(r@, key_at(s, j)),
            decreases n - i,
        {
            let keep_prefix = starts_with(&self.entries[i].0, prefix);
            let keep_start = match start_after {
                Some(v) => {
                    let c = bytes_compare(&self.entries[i].0, v);
                    if reverse {
                        c < 0
                    } else {
                        c > 0
                    }
                },
                None => true,
            };
            let ghost r0 = r@;
            if keep_prefix && keep_start {
                r.push((copy_bytes(&self.entries[i].0), copy_bytes(&self.entries[i].1)));
                proof {
                    src = src.push(i as int);
                    assert(key_at(r@, r@.len() - 1) == key_at(s, i as int));
                    assert(r@[r@.len() - 1].1@ == s[i as int].1@);
                    assert(in_scan_range(key_at(s, i as int), prefix@, reverse, sa));
                    assert(scan_src(s, r@, r@.len() - 1, i as int, prefix@, reverse, sa));
                    assert forall|t: int| #![trigger src[t]] 0 <= t < r@.len() implies scan_src(
                        s,
                        r@,
                        t,
                        src[t],
                        prefix@,
                        reverse,
                        sa,
                    ) && src[t] < i + 1 by {
                        if t < r0.len() {
                            assert(key_at(r@, t) == key_at(r0, t) && r@[t].1@ == r0[t].1@);
                            assert(scan_src(s, r0, t, src[t], prefix@, reverse, sa));
                            assert(scan_src(s, r@, t, src[t], prefix@, reverse, sa));
                        } else {
                            assert(src[t] == i as int);
                        }
                    }
                    assert forall|t1: int, t2: int| 0 <= t1 < t2 < r@.len() implies bytes_cmp_spec(
                        #[trigger] key_at(r@, t1),
                        #[trigger] key_at(r@, t2),
                    ) < 0 by {
                        if t2 < r0.len() {
                            assert(key_at(r@, t1) == key_at(r0, t1));
                            assert(key_at(r@, t2) == key_at(r0, t2));
                        } else {
                            assert(key_at(r@, t1) == key_at(r0, t1));
                            let j = src[t1];
                            assert(scan_src(s, r0, t1, j, prefix@, reverse, sa));
                            assert(key_at(r@, t1) == key_at(s, j));
                            assert(key_at(r@, t2) == key_at(s, i as int));
                            assert(bytes_cmp_spec(key_at(s, j), key_at(s, i as int)) < 0);
                        }
                    }
                    assert forall|j: int|
                        0 <= j < i + 1 && in_scan_range(
                            #[trigger] key_at(s, j),
                            prefix@,
                            reverse,
                            sa,
                        ) implies has_key_index(r@, key_at(s, j)) by {
                        if j < i {
                            assert(has_key_index(r0, key_at(s, j)));
                            let t = choose|t: int|
                                0 <= t < r0.len() && #[trigger] key_at(r0, t) == key_at(s, j);
                            assert(key_at(r@, t) == key_at(s, j));
                        } else {
                            assert(key_at(r@, r@.len() - 1) == key_at(s, j));
                        }
                    }
                }
            } else {
                proof {
                    assert forall|t: int| #![trigger src[t]] 0 <= t < r@.len() implies scan_src(
                        s,
                        r@,
                        t,
                        src[t],
                        prefix@,
                        reverse,
                        sa,
                    ) && src[t] < i + 1 by {
                        assert(scan_src(s, r@, t, src[t], prefix@, reverse, sa));
                    }
                    assert forall|j: int|
                        0 <= j < i + 1 && in_scan_range(
                            #[trigger] key_at(s, j),
                            prefix@,
                            reverse,
                            sa,
                        ) implies has_key_index(r@, key_at(s, j)) by {
                        if j == i {
                            assert(!in_scan_range(key_at(s, i as int), prefix@, reverse, sa));
                        }
                    }
                }
            }
            i = i + 1;
        }
        proof {
            lemma_sorted_unique(s);
            lemma_entries_map_props(s);
            assert forall|t: int| 0 <= t < r@.len() implies self@.contains_key(
                #[trigger] key_at(r@, t),
            ) && self@[key_at(r@, t)] == r@[t].1@ && in_scan_range(
                key_at(r@, t),
                prefix@,
                reverse,
                opt_view(start_after),
            ) by {
                let j = src[t];
                assert(scan_src(s, r@, t, j, prefix@, reverse, sa));
                assert(key_at(r@, t) == key_at(s, j));
                assert(entries_map(s).contains_key(key_at(s, j)) && entries_map(s)[key_at(s, j)]
                    == s[j].1@);
            }
            assert forall|k: Seq<u8>|
                #[trigger] self@.contains_key(k) && in_scan_range(k, prefix@, reverse, opt_view(
                    start_after,
                )) implies has_key_index(r@, k) by {
                let j = choose|j: int| 0 <= j < s.len() && #[trigger] key_at(s, j) == k;
            }
        }
        if reverse {
            let ghost rs = r@;
            let mut rev: Vec<(Vec<u8>, Vec<u8>)> = Vec::new();
            let mut t: usize = r.len();
            while t > 0
                invariant
                    t <= rs.len(),
                    r@ == rs,
                    rev@.len() == rs.len() - t,
                    forall|q: int|
                        0 <= q < rev@.len() ==> #[trigger] key_at(rev@, q) == key_at(
                            rs,
                            rs.len() - 1 - q,
                        ) && rev@[q].1@ == rs[rs.len() - 1 - q].1@,
                decreases t,
            {
                t = t - 1;
                let ghost rev0 = rev@;
                rev.push((copy_bytes(&r[t].0), copy_bytes(&r[t].1)));
                proof {
                    assert(key_at(rev@, rev@.len() - 1) == key_at(rs, t as int));
                    assert(rev@[rev@.len() - 1].1@ == rs[t as int].1@);
                    assert forall|q: int| 0 <= q < rev@.len() implies #[trigger] key_at(rev@, q)
                        == key_at(rs, rs.len() - 1 - q) && rev@[q].1@ == rs[rs.len() - 1
                        - q].1@ by {
                        if q < rev@.len() - 1 {
                            assert(key_at(rev@, q) == key_at(rev0, q) && rev@[q].1@ == rev0[q].1@);
                        }
                    }
                }
            }
            proof {
                assert forall|t1: int, t2: int| 0 <= t1 < t2 < rev@.len() implies bytes_cmp_spec(
                    #[trigger] key_at(rev@, t2),
                    #[trigger] key_at(rev@, t1),
                ) < 0 by {
                    assert(key_at(rev@, t1) == key_at(rs, rs.len() - 1 - t1));
                    assert(key_at(rev@, t2) == key_at(rs, rs.len() - 1 - t2));
                    assert(bytes_cmp_spec(
                        key_at(rs, rs.len() - 1 - t2),
                        key_at(rs, rs.len() - 1 - t1),
                    ) < 0);
                }
                assert forall|k: Seq<u8>|
                    #[trigger] self@.contains_key(k) && in_scan_range(k, prefix@, reverse, opt_view(
                        start_after,
                    )) implies has_key_index(rev@, k) by {
                    assert(has_key_index(rs, k));
                    let t0 = choose|t0: int| 0 <= t0 < rs.len() && #[trigger] key_at(rs, t0) == k;
                    assert(key_at(rev@, rs.len() - 1 - t0) == k);
                }
                assert forall|t: int| 0 <= t < rev@.len() implies self@.contains_key(
                    #[trigger] key_at(rev@, t),
                ) && self@[key_at(rev@, t)] == rev@[t].1@ && in_scan_range(
                    key_at(rev@, t),
                    prefix@,
                    reverse,
                    opt_view(start_after),
                ) by {
                    assert(key_at(rev@, t) == key_at(rs, rs.len() - 1 - t));
                    assert(rev@[t].1@ == rs[rs.len() - 1 - t].1@);
                }
            }
            rev
        } else {
            r
        }
    }

}

/// The view of an optional borrowed byte vector.
pub open spec fn opt_view(o: Option<&Vec<u8>>) -> Option<Seq<u8>> {
    match o {
        Some(v) => Some(v@),
        None => None,
    }
}

/// Whether key `k` falls in the scanned range.
pub open spec fn in_scan_range(
    k: Seq<u8>,
    prefix: Seq<u8>,
    reverse: bool,
    start_after: Option<Seq<u8>>,
) -> bool {
    has_prefix(k, prefix) && match start_after {
        None => true,
        Some(sa) => if reverse {
            bytes_cmp_spec(k, sa) < 0
        } else {
            bytes_cmp_spec(k, sa) > 0
        },
    }
}

/// The scan result entry `t` mirrors the store entry `j`, which lies in the
/// scanned range.
pub open spec fn scan_src(
    s: Seq<(Vec<u8>, Vec<u8>)>,
    r: Seq<(Vec<u8>, Vec<u8>)>,
    t: int,
    j: int,
    prefix: Seq<u8>,
    reverse: bool,
    start_after: Option<Seq<u8>>,
) -> bool {
    0 <= j < s.len() && key_at(r, t) == key_at(s, j) && r[t].1@ == s[j].1@ && in_scan_range(
        key_at(s, j),
        prefix,
        reverse,
        start_after,
    )
}

/// The number of keys equals the number of entries when keys are distinct.
pub proof fn lemma_entries_map_dom_len(s: Seq<(Vec<u8>, Vec<u8>)>)
    requires
        entries_sorted(s),
    ensures
        entries_map(s).dom().len() == s.len(),
        entries_map(s).dom().finite(),
    decreases s.len(),
{
    if s.len() == 0 {
        assert(entries_map(s).dom() =~= Set::<Seq<u8>>::empty());
    } else {
        let s0 = s.drop_last();
        assert(forall|i: int, j: int|
            0 <= i < j < s0.len() ==> bytes_cmp_spec(
                #[trigger] key_at(s0, i),
                #[trigger] key_at(s0, j),
            ) < 0) by {
            assert(forall|i: int| 0 <= i < s0.len() ==> #[trigger] key_at(s0, i) == key_at(s, i));
        }
        lemma_entries_map_dom_len(s0);
        lemma_sorted_unique(s);
        lemma_sorted_unique(s0);
        lemma_entries_map_props(s0);
        assert(!entries_map(s0).contains_key(s.last().0@)) by {
            if entries_map(s0).contains_key(s.last().0@) {
                let i = choose|i: int| 0 <= i < s0.len() && #[trigger] key_at(s0, i) == s.last().0@;
                assert(key_at(s, i) == key_at(s, s.len() - 1));
            }
        }
        assert(entries_map(s).dom() =~= entries_map(s0).dom().insert(s.last().0@));
        vstd::set::axiom_set_insert_len(entries_map(s0).dom(), s.last().0@);
    }
}


/// Applying a concatenation of batches applies them in turn.
pub proof fn lemma_apply_ops_concat(m: Map<Seq<u8>, Seq<u8>>, a: Seq<DbOp>, b: Seq<DbOp>)
    ensures
        apply_ops(m, a + b) == apply_ops(apply_ops(m, a), b),
    decreases b.len(),
{
    if b.len() == 0 {
        assert(a + b =~= a);
    } else {
        assert((a + b).drop_last() =~= a + b.drop_last());
        assert((a + b).last() == b.last());
        lemma_apply_ops_concat(m, a, b.drop_last());
    }
}

/// Applying one more write applies it last.
pub proof fn lemma_apply_ops_push(m: Map<Seq<u8>, Seq<u8>>, ops: Seq<DbOp>, op: DbOp)
    ensures
        apply_ops(m, ops.push(op)) == apply_op(apply_ops(m, ops), op),
{
    assert(ops.push(op).drop_last() =~= ops);
    assert(ops.push(op).last() == op);
}

} // verus!
