use hub_store::message::{HubEvent, Message, MessageData};
use hub_store::store::Store;
use hub_store::store_def::BasicStoreDef;
use hub_store::PageOptions;
use hub_store::FID_LOCKS_COUNT;

const ADD_TYPE: u8 = 1;
const REMOVE_TYPE: u8 = 2;

fn basic_def() -> BasicStoreDef {
    BasicStoreDef { set_postfix: 1, add_type: ADD_TYPE, remove_type: REMOVE_TYPE }
}

fn no_removes_def() -> BasicStoreDef {
    BasicStoreDef { set_postfix: 1, add_type: ADD_TYPE, remove_type: 0 }
}

fn hash(seed: u8) -> Vec<u8> {
    vec![seed; 20]
}

fn add_msg(fid: u32, timestamp: u32, seed: u8) -> Message {
    Message {
        data: Some(MessageData { fid, timestamp, msg_type: ADD_TYPE }),
        hash: hash(seed),
    }
}

fn remove_msg(fid: u32, timestamp: u32, seed: u8) -> Message {
    Message {
        data: Some(MessageData { fid, timestamp, msg_type: REMOVE_TYPE }),
        hash: hash(seed),
    }
}

fn all_options() -> PageOptions {
    PageOptions { page_size: None, page_token: None, reverse: false }
}

fn no_filter() -> Option<fn(&Message) -> bool> {
    None
}

fn decode(bytes: &Vec<u8>) -> HubEvent {
    hub_store::message::decode_hub_event(bytes).expect("event bytes decode")
}

#[test]
fn duplicate_merge_is_rejected() {
    let mut store = Store::new_with_store_def(basic_def());
    let a = add_msg(1, 100, 0x11);
    store.merge(&a).expect("first merge");
    let err = store.merge(&a).expect_err("second merge");
    assert_eq!(err.code, "bad_request.duplicate");
}

#[test]
fn later_add_wins() {
    let mut store = Store::new_with_store_def(basic_def());
    let a1 = add_msg(1, 100, 0x11);
    let a2 = add_msg(1, 200, 0x22);
    store.merge(&a1).expect("first merge");
    let event_bytes = store.merge(&a2).expect("second merge");
    let event = decode(&event_bytes);
    assert_eq!(event.body.message, Some(a2.clone()));
    assert_eq!(event.body.deleted_messages, vec![a1.clone()]);
    let page = store.get_adds_by_fid(1, &all_options(), no_filter()).expect("page");
    assert_eq!(page.messages, vec![a2.clone()]);
    assert!(page.next_page_token.is_none());
    let winner = store.get_add(&a2).expect("get_add");
    assert_eq!(winner, Some(a2));
}

#[test]
fn remove_beats_add_at_equal_timestamp() {
    let mut store = Store::new_with_store_def(basic_def());
    let a = add_msg(1, 100, 0x11);
    let r = remove_msg(1, 100, 0x11);
    store.merge(&a).expect("merge add");

    let th = hub_store::codec::make_ts_hash(100, &hash(0x11)).expect("ts hash");
    let cmp = store.message_compare(REMOVE_TYPE, &th, ADD_TYPE, &th);
    assert_eq!(cmp, 1);

    store.merge(&r).expect("merge remove");
    assert_eq!(store.get_add(&a).expect("get_add"), None);
    assert_eq!(store.get_remove(&r).expect("get_remove"), Some(r.clone()));
}

#[test]
fn later_add_beats_earlier_remove() {
    let mut store = Store::new_with_store_def(basic_def());
    let r = remove_msg(1, 100, 0x33);
    let a = add_msg(1, 200, 0x44);
    store.merge(&r).expect("merge remove");
    let event_bytes = store.merge(&a).expect("merge add");
    let event = decode(&event_bytes);
    assert_eq!(event.body.deleted_messages, vec![r.clone()]);
    assert_eq!(store.get_add(&a).expect("get_add"), Some(a.clone()));
    assert_eq!(store.get_remove(&r).expect("get_remove"), None);
}

#[test]
fn unsupported_remove_is_rejected() {
    let mut store = Store::new_with_store_def(no_removes_def());
    let r = remove_msg(1, 100, 0x55);
    let err = store.merge(&r).expect_err("merge remove");
    assert_eq!(err.code, "bad_request.validation_failure");
}

#[test]
fn merge_remove_rejects_unsupported_kind() {
    let mut store = Store::new_with_store_def(no_removes_def());
    let r = remove_msg(1, 100, 0x55);
    let th = hub_store::codec::make_ts_hash(100, &hash(0x55)).expect("ts hash");
    let err = store.merge_remove(&th, &r).expect_err("merge_remove");
    assert_eq!(err.code, "bad_request.validation_failure");
}

#[test]
fn fids_sharing_a_lock_bucket_merge_independently() {
    assert_eq!(FID_LOCKS_COUNT, 4);
    assert_eq!(hub_store::store::fid_lock_index(1), hub_store::store::fid_lock_index(5));
    let mut store = Store::new_with_store_def(basic_def());
    let a1 = add_msg(1, 100, 0x66);
    let a5 = add_msg(5, 100, 0x77);
    store.merge(&a1).expect("merge fid 1");
    store.merge(&a5).expect("merge fid 5");
    assert_eq!(store.get_add(&a1).expect("get_add fid 1"), Some(a1.clone()));
    assert_eq!(store.get_add(&a5).expect("get_add fid 5"), Some(a5.clone()));
    let page1 = store.get_adds_by_fid(1, &all_options(), no_filter()).expect("page fid 1");
    assert_eq!(page1.messages, vec![a1]);
    let page5 = store.get_adds_by_fid(5, &all_options(), no_filter()).expect("page fid 5");
    assert_eq!(page5.messages, vec![a5]);
}

#[test]
fn conflict_with_more_recent_add_is_rejected() {
    let mut store = Store::new_with_store_def(basic_def());
    let a2 = add_msg(1, 200, 0x22);
    let a1 = add_msg(1, 100, 0x11);
    store.merge(&a2).expect("merge newer");
    let err = store.merge(&a1).expect_err("merge older");
    assert_eq!(err.code, "bad_request.conflict");
}

#[test]
fn conflict_with_more_recent_remove_is_rejected() {
    let mut store = Store::new_with_store_def(basic_def());
    let r = remove_msg(1, 200, 0x22);
    let a = add_msg(1, 100, 0x11);
    store.merge(&r).expect("merge remove");
    let err = store.merge(&a).expect_err("merge older add");
    assert_eq!(err.code, "bad_request.conflict");
}

#[test]
fn merge_rejects_missing_data_and_zero_fid() {
    let mut store = Store::new_with_store_def(basic_def());
    let no_data = Message { data: None, hash: hash(0x11) };
    assert_eq!(store.merge(&no_data).expect_err("no data").code, "bad_request.invalid_param");
    let zero_fid = add_msg(0, 100, 0x11);
    assert_eq!(store.merge(&zero_fid).expect_err("zero fid").code, "bad_request.invalid_param");
}

#[test]
fn merge_rejects_short_hash() {
    let mut store = Store::new_with_store_def(basic_def());
    let bad = Message {
        data: Some(MessageData { fid: 1, timestamp: 100, msg_type: ADD_TYPE }),
        hash: vec![0x11; 19],
    };
    assert_eq!(store.merge(&bad).expect_err("short hash").code, "bad_request.invalid_param");
}

#[test]
fn event_ids_strictly_increase() {
    let mut store = Store::new_with_store_def(basic_def());
    let e1 = decode(&store.merge(&add_msg(1, 100, 0x01)).expect("merge 1"));
    let e2 = decode(&store.merge(&add_msg(2, 100, 0x02)).expect("merge 2"));
    let e3 = decode(&store.merge(&add_msg(3, 100, 0x03)).expect("merge 3"));
    assert_eq!(e1.id, 1);
    assert_eq!(e2.id, 2);
    assert_eq!(e3.id, 3);
    assert!(e1.id < e2.id && e2.id < e3.id);
}

#[test]
fn failed_merge_leaves_no_trace() {
    let mut store = Store::new_with_store_def(basic_def());
    let a = add_msg(1, 200, 0x22);
    store.merge(&a).expect("merge");
    let before = store.get_all_messages_by_fid(1, &all_options()).expect("before");
    let err = store.merge(&add_msg(1, 100, 0x11)).expect_err("older add");
    assert_eq!(err.code, "bad_request.conflict");
    let after = store.get_all_messages_by_fid(1, &all_options()).expect("after");
    assert_eq!(before, after);
}

#[test]
fn permutations_of_the_same_messages_converge() {
    let msgs = [add_msg(1, 100, 0x11), remove_msg(1, 150, 0x22), add_msg(1, 200, 0x33)];
    let orders: [[usize; 3]; 6] =
        [[0, 1, 2], [0, 2, 1], [1, 0, 2], [1, 2, 0], [2, 0, 1], [2, 1, 0]];
    let mut winners = Vec::new();
    for order in orders.iter() {
        let mut store = Store::new_with_store_def(basic_def());
        for i in order.iter() {
            // losing merges are expected rejections
            let _ = store.merge(&msgs[*i]);
        }
        let adds = store.get_adds_by_fid(1, &all_options(), no_filter()).expect("adds");
        let removes = store.get_removes_by_fid(1, &all_options(), no_filter()).expect("removes");
        winners.push((adds.messages, removes.messages));
    }
    for w in winners.iter() {
        assert_eq!(*w, winners[0]);
    }
    assert_eq!(winners[0].0, vec![msgs[2].clone()]);
    assert!(winners[0].1.is_empty());
}

#[test]
fn paging_walks_adds_in_order() {
    let mut store = Store::new_with_store_def(basic_def());
    let a1 = add_msg(1, 100, 0x11);
    let a2 = add_msg(2, 100, 0x22);
    store.merge(&a1).expect("merge 1");
    store.merge(&a2).expect("merge 2");
    // both fids: all messages by fid only sees its own prefix
    let page = store.get_all_messages_by_fid(1, &all_options()).expect("page");
    assert_eq!(page.messages, vec![a1.clone()]);

    // a remove supersedes the earlier add of the same logical record,
    // so the fid holds exactly the winning row
    let b1 = add_msg(3, 100, 0x31);
    let b2 = remove_msg(3, 200, 0x32);
    store.merge(&b1).expect("merge b1");
    store.merge(&b2).expect("merge b2");
    let first = store
        .get_all_messages_by_fid(
            3,
            &PageOptions { page_size: Some(1), page_token: None, reverse: false },
        )
        .expect("first page");
    assert_eq!(first.messages, vec![b2.clone()]);
    let token = first.next_page_token.clone().expect("token");
    let second = store
        .get_all_messages_by_fid(
            3,
            &PageOptions { page_size: Some(1), page_token: Some(token), reverse: false },
        )
        .expect("second page");
    assert!(second.messages.is_empty());
    assert!(second.next_page_token.is_none());

    // reverse order
    let rev = store
        .get_all_messages_by_fid(
            3,
            &PageOptions { page_size: None, page_token: None, reverse: true },
        )
        .expect("reverse page");
    assert_eq!(rev.messages, vec![b2]);
}

#[test]
fn get_adds_by_fid_applies_the_filter() {
    let mut store = Store::new_with_store_def(basic_def());
    let a = add_msg(1, 100, 0x11);
    store.merge(&a).expect("merge");
    let keep_late =
        |m: &Message| -> bool { m.data.as_ref().map(|d| d.timestamp > 150).unwrap_or(false) };
    let page = store.get_adds_by_fid(1, &all_options(), Some(keep_late)).expect("filtered");
    assert!(page.messages.is_empty());
    let keep_early =
        |m: &Message| -> bool { m.data.as_ref().map(|d| d.timestamp <= 150).unwrap_or(false) };
    let page = store.get_adds_by_fid(1, &all_options(), Some(keep_early)).expect("filtered");
    assert_eq!(page.messages, vec![a]);
}

#[test]
fn get_remove_rejects_unsupported_kind() {
    let store = Store::new_with_store_def(no_removes_def());
    let r = remove_msg(1, 100, 0x11);
    assert_eq!(store.get_remove(&r).expect_err("get_remove").code, "bad_request.validation_failure");
    let opts = all_options();
    assert_eq!(
        store.get_removes_by_fid(1, &opts, no_filter()).expect_err("get_removes").code,
        "bad_request.validation_failure"
    );
}

#[test]
fn get_add_requires_a_fid() {
    let store = Store::new_with_store_def(basic_def());
    let no_data = Message { data: None, hash: hash(0x11) };
    assert_eq!(store.get_add(&no_data).expect_err("get_add").code, "bad_request.invalid_param");
}

#[test]
fn db_clear_empties_the_store() {
    let mut store = Store::new_with_store_def(basic_def());
    store.merge(&add_msg(1, 100, 0x11)).expect("merge");
    let removed = store.db_clear();
    // primary row, add pointer, event row, counter
    assert_eq!(removed, 4);
    let page = store.get_adds_by_fid(1, &all_options(), no_filter()).expect("page");
    assert!(page.messages.is_empty());
}
