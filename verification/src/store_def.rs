//! The polymorphic store kind: per-set policy for type tags, key
//! derivation, kind-specific conflict checks and secondary indices.

use vstd::prelude::*;

use crate::HubError;
use crate::codec::push_u32_be;
use crate::codec::u32_be_spec;
use crate::db::DbOp;
use crate::db::Transaction;
use crate::message::Message;
use crate::message::MessageModel;
use crate::message::MESSAGE_TYPE_NONE;

verus! {

/// The fid of a message, zero when the data fields are absent.
pub open spec fn fid_of(m: MessageModel) -> u32 {
    match m.data {
        Some(d) => d.fid,
        None => 0,
    }
}

/// The capability set of one store kind. Each method's result is pinned to
/// a spec function of the kind, so the merge engine's contracts hold for
/// every implementation that verifies.
pub trait StoreDef: Sized {
    /// The kind's one-byte namespace discriminator.
    spec fn postfix_spec(&self) -> u8;

    /// The type tag of this kind's adds.
    spec fn add_type_spec(&self) -> u8;

    /// The type tag of this kind's removes; `MESSAGE_TYPE_NONE` means
    /// removes are unsupported.
    spec fn remove_type_spec(&self) -> u8;

    /// Whether a message is an add of this kind.
    spec fn is_add_spec(&self, m: MessageModel) -> bool;

    /// Whether a message is a remove of this kind.
    spec fn is_remove_spec(&self, m: MessageModel) -> bool;

    /// The add pointer key of a message's logical record.
    spec fn add_key_spec(&self, m: MessageModel) -> Seq<u8>;

    /// The remove pointer key of a message's logical record.
    spec fn remove_key_spec(&self, m: MessageModel) -> Seq<u8>;

    /// Whether the kind-specific precondition for merging an add holds.
    spec fn add_conflict_free_spec(&self, m: MessageModel) -> bool;

    /// Whether the kind-specific precondition for merging a remove holds.
    spec fn remove_conflict_free_spec(&self, m: MessageModel) -> bool;

    /// The error code the kind's add hook rejects a message with.
    spec fn add_conflict_code_spec(&self, m: MessageModel) -> Seq<char>;

    /// The error code the kind's remove hook rejects a message with.
    spec fn remove_conflict_code_spec(&self, m: MessageModel) -> Seq<char>;

    /// The writes that build this kind's secondary indices for a message.
    spec fn build_ops_spec(&self, ts_hash: Seq<u8>, m: MessageModel) -> Seq<DbOp>;

    /// The writes that delete this kind's secondary indices for a message.
    spec fn delete_ops_spec(&self, ts_hash: Seq<u8>, m: MessageModel) -> Seq<DbOp>;

    fn postfix(&self) -> (r: u8)
        ensures
            r == self.postfix_spec(),
    ;

    fn add_message_type(&self) -> (r: u8)
        ensures
            r == self.add_type_spec(),
    ;

    fn remove_message_type(&self) -> (r: u8)
        ensures
            r == self.remove_type_spec(),
    ;

    fn is_add_type(&self, message: &Message) -> (r: bool)
        ensures
            r == self.is_add_spec(message@),
    ;

    fn is_remove_type(&self, message: &Message) -> (r: bool)
        ensures
            r == self.is_remove_spec(message@),
    ;

    /// Whether this kind supports remove messages.
    fn remove_type_supported(&self) -> (r: bool)
        ensures
            r == (self.remove_type_spec() != MESSAGE_TYPE_NONE),
    {
        self.remove_message_type() != MESSAGE_TYPE_NONE
    }

    fn make_add_key(&self, message: &Message) -> (r: Vec<u8>)
        ensures
            r@ == self.add_key_spec(message@),
    ;

    fn make_remove_key(&self, message: &Message) -> (r: Vec<u8>)
        ensures
            r@ == self.remove_key_spec(message@),
    ;

    fn find_merge_add_conflicts(&self, message: &Message) -> (r: Result<(), HubError>)
        ensures
            r is Ok <==> self.add_conflict_free_spec(message@),
            r matches Err(e) ==> e.code@ == self.add_conflict_code_spec(message@),
    ;

    fn find_merge_remove_conflicts(&self, message: &Message) -> (r: Result<(), HubError>)
        ensures
            r is Ok <==> self.remove_conflict_free_spec(message@),
            r matches Err(e) ==> e.code@ == self.remove_conflict_code_spec(message@),
    ;

    fn build_secondary_indicies(&self, txn: &mut Transaction, ts_hash: &Vec<u8>, message: &Message)
        -> (r: Result<(), HubError>)
        ensures
            r is Ok,
            final(txn).ops@ == old(txn).ops@ + self.build_ops_spec(ts_hash@, message@),
    ;

    fn delete_secondary_indicies(&self, txn: &mut Transaction, ts_hash: &Vec<u8>, message: &Message)
        -> (r: Result<(), HubError>)
        ensures
            r is Ok,
            final(txn).ops@ == old(txn).ops@ + self.delete_ops_spec(ts_hash@, message@),
    ;

    /// Symmetry of the secondary indices: deleting them undoes building
    /// them, so replaying build followed by delete against the same message
    /// has the same effect as the delete alone.
    proof fn lemma_secondary_symmetric(&self, m: Map<Seq<u8>, Seq<u8>>, ts_hash: Seq<u8>, msg: MessageModel)
        ensures
            crate::db::apply_ops(
                crate::db::apply_ops(m, self.build_ops_spec(ts_hash, msg)),
                self.delete_ops_spec(ts_hash, msg),
            ) == crate::db::apply_ops(m, self.delete_ops_spec(ts_hash, msg)),
    ;
}

/// A minimal kind: one add type, an optional remove type, the fid as the
/// logical record key, and no secondary indices.
#[derive(Debug, Clone, Copy)]
pub struct BasicStoreDef {
    pub set_postfix: u8,
    pub add_type: u8,
    pub remove_type: u8,
}

impl StoreDef for BasicStoreDef {
    open spec fn postfix_spec(&self) -> u8 {
        self.set_postfix
    }

    open spec fn add_type_spec(&self) -> u8 {
        self.add_type
    }

    open spec fn remove_type_spec(&self) -> u8 {
        self.remove_type
    }

    open spec fn is_add_spec(&self, m: MessageModel) -> bool {
        m.data is Some && m.data.unwrap().msg_type == self.add_type
    }

    open spec fn is_remove_spec(&self, m: MessageModel) -> bool {
        m.data is Some && self.remove_type != MESSAGE_TYPE_NONE && m.data.unwrap().msg_type
            == self.remove_type
    }

    open spec fn add_key_spec(&self, m: MessageModel) -> Seq<u8> {
        seq![255u8, self.set_postfix] + u32_be_spec(fid_of(m))
    }

    open spec fn remove_key_spec(&self, m: MessageModel) -> Seq<u8> {
        seq![254u8, self.set_postfix] + u32_be_spec(fid_of(m))
    }

    open spec fn add_conflict_free_spec(&self, m: MessageModel) -> bool {
        true
    }

    open spec fn remove_conflict_free_spec(&self, m: MessageModel) -> bool {
        true
    }

    open spec fn add_conflict_code_spec(&self, m: MessageModel) -> Seq<char> {
        Seq::empty()
    }

    open spec fn remove_conflict_code_spec(&self, m: MessageModel) -> Seq<char> {
        Seq::empty()
    }

    open spec fn build_ops_spec(&self, ts_hash: Seq<u8>, m: MessageModel) -> Seq<DbOp> {
        Seq::empty()
    }

    open spec fn delete_ops_spec(&self, ts_hash: Seq<u8>, m: MessageModel) -> Seq<DbOp> {
        Seq::empty()
    }

    fn postfix(&self) -> (r: u8) {
        self.set_postfix
    }

    fn add_message_type(&self) -> (r: u8) {
        self.add_type
    }

    fn remove_message_type(&self) -> (r: u8) {
        self.remove_type
    }

    fn is_add_type(&self, message: &Message) -> (r: bool) {
        match &message.data {
            Some(d) => d.msg_type == self.add_type,
            None => false,
        }
    }

    fn is_remove_type(&self, message: &Message) -> (r: bool) {
        match &message.data {
            Some(d) => self.remove_type != MESSAGE_TYPE_NONE && d.msg_type == self.remove_type,
            None => false,
        }
    }

    fn make_add_key(&self, message: &Message) -> (r: Vec<u8>) {
        let mut out: Vec<u8> = Vec::new();
        out.push(255u8);
        out.push(self.set_postfix);
        let fid = match &message.data {
            Some(d) => d.fid,
            None => 0,
        };
        push_u32_be(&mut out, fid);
        proof {
            assert(out@ =~= self.add_key_spec(message@));
        }
        out
    }

    fn make_remove_key(&self, message: &Message) -> (r: Vec<u8>) {
        let mut out: Vec<u8> = Vec::new();
        out.push(254u8);
        out.push(self.set_postfix);
        let fid = match &message.data {
            Some(d) => d.fid,
            None => 0,
        };
        push_u32_be(&mut out, fid);
        proof {
            assert(out@ =~= self.remove_key_spec(message@));
        }
        out
    }

    fn find_merge_add_conflicts(&self, message: &Message) -> (r: Result<(), HubError>) {
        Ok(())
    }

    fn find_merge_remove_conflicts(&self, message: &Message) -> (r: Result<(), HubError>) {
        Ok(())
    }

    fn build_secondary_indicies(&self, txn: &mut Transaction, ts_hash: &Vec<u8>, message: &Message)
        -> (r: Result<(), HubError>) {
        proof {
            assert(txn.ops@ + self.build_ops_spec(ts_hash@, message@) =~= txn.ops@);
        }
        Ok(())
    }

    fn delete_secondary_indicies(&self, txn: &mut Transaction, ts_hash: &Vec<u8>, message: &Message)
        -> (r: Result<(), HubError>) {
        proof {
            assert(txn.ops@ + self.delete_ops_spec(ts_hash@, message@) =~= txn.ops@);
        }
        Ok(())
    }

    proof fn lemma_secondary_symmetric(
        &self,
        m: Map<Seq<u8>, Seq<u8>>,
        ts_hash: Seq<u8>,
        msg: MessageModel,
    ) {
        assert(self.build_ops_spec(ts_hash, msg).len() == 0);
        assert(self.delete_ops_spec(ts_hash, msg).len() == 0);
        assert(crate::db::apply_ops(m, self.build_ops_spec(ts_hash, msg)) == m);
        assert(crate::db::apply_ops(m, self.delete_ops_spec(ts_hash, msg)) == m);
    }
}

} // verus!
