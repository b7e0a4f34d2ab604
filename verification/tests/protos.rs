use mementocached::command::Reply;
use mementocached::kv::{
    Command, DeleteReply, DeleteRequest, GetReply, GetRequest, Request, SetReply, SetRequest,
};
use mementocached::protos::{
    decode_get_reply, decode_request, decode_status, encode_reply, encode_request,
};

fn request(command: Command) -> Request {
    Request { command: Some(command) }
}

#[test]
fn get_request_layout() {
    let bytes = encode_request(&request(Command::Get(GetRequest { key: "key".to_string() }))).unwrap();
    assert_eq!(bytes, vec![10, 5, 10, 3, b'k', b'e', b'y']);
}

#[test]
fn set_request_layout() {
    let set = SetRequest { key: "k".to_string(), value: b"vv".to_vec() };
    let bytes = encode_request(&request(Command::Put(set))).unwrap();
    assert_eq!(bytes, vec![18, 7, 10, 1, b'k', 18, 2, b'v', b'v']);
}

#[test]
fn delete_request_with_empty_key() {
    let bytes = encode_request(&request(Command::Delete(DeleteRequest { key: String::new() }))).unwrap();
    assert_eq!(bytes, vec![26, 0]);
    let back = decode_request(&bytes).unwrap();
    assert_eq!(back, request(Command::Delete(DeleteRequest { key: String::new() })));
}

#[test]
fn requests_read_back() {
    let long_value: Vec<u8> = (0..300u32).map(|i| i as u8).collect();
    let requests = vec![
        request(Command::Get(GetRequest { key: "key1".to_string() })),
        request(Command::Get(GetRequest { key: "clé ünïcode".to_string() })),
        request(Command::Put(SetRequest { key: "key".to_string(), value: b"value".to_vec() })),
        request(Command::Put(SetRequest { key: String::new(), value: long_value })),
        request(Command::Put(SetRequest { key: "empty".to_string(), value: Vec::new() })),
        request(Command::Delete(DeleteRequest { key: "key".to_string() })),
    ];
    for r in requests {
        let bytes = encode_request(&r).unwrap();
        assert_eq!(decode_request(&bytes), Some(r));
    }
}

#[test]
fn unknown_fields_are_skipped() {
    // field 5 varint, then the get command, then field 4 length-delimited.
    let bytes = vec![40, 7, 10, 3, 10, 1, b'a', 34, 2, 0, 0];
    let back = decode_request(&bytes).unwrap();
    assert_eq!(back, request(Command::Get(GetRequest { key: "a".to_string() })));
}

#[test]
fn last_command_wins() {
    let mut bytes = encode_request(&request(Command::Get(GetRequest { key: "a".to_string() }))).unwrap();
    bytes.extend(encode_request(&request(Command::Delete(DeleteRequest { key: "b".to_string() }))).unwrap());
    let back = decode_request(&bytes).unwrap();
    assert_eq!(back, request(Command::Delete(DeleteRequest { key: "b".to_string() })));
}

#[test]
fn malformed_requests_are_refused() {
    assert_eq!(decode_request(&[10, 5, 10]), None);
    assert_eq!(decode_request(&[10, 3, 10, 1, 0xff]), None);
    assert_eq!(decode_request(&[0, 1]), None);
    // a command message whose key is not UTF-8, even when a later one is fine
    let mut bytes = vec![10, 3, 10, 1, 0xff];
    bytes.extend([10, 3, 10, 1, b'a']);
    assert_eq!(decode_request(&bytes), None);
    // an error field that is not UTF-8, even when a later one is fine
    assert_eq!(decode_get_reply(&[18, 1, 0xff, 18, 1, b'x']), None);
}

#[test]
fn get_reply_layout_and_read_back() {
    let found = Reply::Get(GetReply { value: b"value".to_vec(), err: String::new() });
    let bytes = encode_reply(&found).unwrap();
    assert_eq!(bytes, vec![10, 5, b'v', b'a', b'l', b'u', b'e']);
    assert_eq!(
        decode_get_reply(&bytes),
        Some(GetReply { value: b"value".to_vec(), err: String::new() })
    );

    let missing = Reply::Get(GetReply { value: Vec::new(), err: "KO".to_string() });
    let bytes = encode_reply(&missing).unwrap();
    assert_eq!(bytes, vec![18, 2, b'K', b'O']);
    assert_eq!(decode_get_reply(&bytes), Some(GetReply { value: Vec::new(), err: "KO".to_string() }));
}

#[test]
fn status_replies() {
    let set = encode_reply(&Reply::Put(SetReply { status: true })).unwrap();
    assert_eq!(set, vec![8, 1]);
    assert_eq!(decode_status(&set), Some(true));
    let delete = encode_reply(&Reply::Delete(DeleteReply { status: false })).unwrap();
    assert!(delete.is_empty());
    assert_eq!(decode_status(&delete), Some(false));
}

#[test]
fn request_without_command() {
    assert_eq!(decode_request(&[]), Some(Request { command: None }));
    assert_eq!(decode_request(&[40, 1]), Some(Request { command: None }));
}

#[test]
fn unknown_fields_of_every_wire_type_are_skipped() {
    let mut bytes = vec![];
    bytes.extend([40, 0x96, 0x01]); // field 5, varint 150
    bytes.extend([49, 1, 2, 3, 4, 5, 6, 7, 8]); // field 6, eight bytes
    bytes.extend([61, 1, 2, 3, 4]); // field 7, four bytes
    bytes.extend([130, 1, 2, 9, 9]); // field 16, two bytes of data
    bytes.extend([18, 9, 8, 1, 10, 1, b'k', 18, 2, b'v', b'w']); // set, with a stray flag inside
    let back = decode_request(&bytes).unwrap();
    let set = SetRequest { key: "k".to_string(), value: b"vw".to_vec() };
    assert_eq!(back, request(Command::Put(set)));
}

#[test]
fn repeated_fields_keep_the_last() {
    let bytes = vec![18, 11, 10, 1, b'a', 10, 1, b'b', 18, 1, b'1', 18, 0];
    let back = decode_request(&bytes).unwrap();
    let set = SetRequest { key: "b".to_string(), value: Vec::new() };
    assert_eq!(back, request(Command::Put(set)));
    let reply = decode_get_reply(&[10, 1, b'x', 18, 1, b'e', 10, 1, b'y']).unwrap();
    assert_eq!(reply, GetReply { value: b"y".to_vec(), err: "e".to_string() });
}

#[test]
fn explicit_defaults_are_read() {
    assert_eq!(decode_status(&[8, 0]), Some(false));
    assert_eq!(decode_status(&[8, 1, 8, 0]), Some(false));
    assert_eq!(decode_status(&[8, 0x80, 0x01]), Some(true));
    assert_eq!(decode_request(&[10, 2, 10, 0]), Some(request(Command::Get(GetRequest { key: String::new() }))));
}
