use hub_store::codec::{bytes_compare, make_message_primary_key, make_ts_hash};
use hub_store::message::{
    decode_hub_event, decode_message_at, encode_hub_event, encode_message, HubEvent, Message,
    MessageData, MergeMessageBody, HUB_EVENT_MERGE_MESSAGE,
};

#[test]
fn bytes_compare_orders_lexicographically() {
    assert_eq!(bytes_compare(&[1, 2, 3], &[1, 2, 3]), 0);
    assert_eq!(bytes_compare(&[1, 2], &[1, 2, 3]), -1);
    assert_eq!(bytes_compare(&[1, 2, 4], &[1, 2, 3]), 1);
    assert_eq!(bytes_compare(&[], &[0]), -1);
    assert_eq!(bytes_compare(&[2], &[1, 9, 9]), 1);
}

#[test]
fn ts_hash_is_timestamp_then_hash() {
    let hash: Vec<u8> = (0u8..20u8).collect();
    let th = make_ts_hash(0x01020304, &hash).expect("ts hash");
    assert_eq!(th.len(), 24);
    assert_eq!(&th[0..4], &[1, 2, 3, 4]);
    assert_eq!(&th[4..24], hash.as_slice());

    let short = vec![0u8; 19];
    let err = make_ts_hash(1, &short).expect_err("short hash");
    assert_eq!(err.code, "bad_request.invalid_param");
}

#[test]
fn primary_key_layout() {
    let hash = vec![7u8; 20];
    let th = make_ts_hash(0x11223344, &hash).expect("ts hash");
    let key = make_message_primary_key(0x0A0B0C0D, 9, Some(&th));
    assert_eq!(key.len(), 29);
    assert_eq!(&key[0..4], &[0x0A, 0x0B, 0x0C, 0x0D]);
    assert_eq!(key[4], 9);
    assert_eq!(&key[5..29], th.as_slice());

    let prefix = make_message_primary_key(0x0A0B0C0D, 9, None);
    assert_eq!(prefix, vec![0x0A, 0x0B, 0x0C, 0x0D, 9]);
}

#[test]
fn message_round_trips() {
    let m = Message {
        data: Some(MessageData { fid: 42, timestamp: 123456, msg_type: 3 }),
        hash: (100u8..120u8).collect(),
    };
    let bytes = encode_message(&m);
    let (back, end) = decode_message_at(&bytes, 0).expect("decode");
    assert_eq!(end, bytes.len());
    assert_eq!(back, m);

    let bare = Message { data: None, hash: vec![1, 2, 3] };
    let bytes = encode_message(&bare);
    let (back, end) = decode_message_at(&bytes, 0).expect("decode bare");
    assert_eq!(end, bytes.len());
    assert_eq!(back, bare);
}

#[test]
fn event_round_trips() {
    let winner = Message {
        data: Some(MessageData { fid: 7, timestamp: 200, msg_type: 1 }),
        hash: vec![0xAA; 20],
    };
    let loser = Message {
        data: Some(MessageData { fid: 7, timestamp: 100, msg_type: 2 }),
        hash: vec![0xBB; 20],
    };
    let event = HubEvent {
        event_type: HUB_EVENT_MERGE_MESSAGE,
        body: MergeMessageBody {
            message: Some(winner),
            deleted_messages: vec![loser.clone(), loser],
        },
        id: 0x0102030405060708,
    };
    let bytes = encode_hub_event(&event);
    let back = decode_hub_event(&bytes).expect("decode");
    assert_eq!(back, event);
}

#[test]
fn empty_event_round_trips() {
    let event = HubEvent {
        event_type: HUB_EVENT_MERGE_MESSAGE,
        body: MergeMessageBody { message: None, deleted_messages: Vec::new() },
        id: 1,
    };
    let bytes = encode_hub_event(&event);
    let back = decode_hub_event(&bytes).expect("decode");
    assert_eq!(back, event);
}

#[test]
fn truncated_event_bytes_are_rejected() {
    let event = HubEvent {
        event_type: HUB_EVENT_MERGE_MESSAGE,
        body: MergeMessageBody { message: None, deleted_messages: Vec::new() },
        id: 1,
    };
    let mut bytes = encode_hub_event(&event);
    bytes.pop();
    assert!(decode_hub_event(&bytes).is_none());
    assert!(decode_hub_event(&vec![1, 2, 3]).is_none());
}
