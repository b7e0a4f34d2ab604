use mementocached::command::{DBAction, Reply, DB};
use mementocached::kv::{DeleteRequest, GetReply, GetRequest, SetRequest};
use mementocached::protos::{decode_get_reply, decode_status, encode_reply};

fn do_get(key: String, db: &mut DB) -> GetReply {
    let reply = db.execute(DBAction::Get(GetRequest { key }));
    assert!(matches!(reply, Reply::Get(_)), "a get is answered by a get reply");
    decode_get_reply(encode_reply(&reply).unwrap().as_slice()).unwrap()
}

fn do_set(key: &str, value: &[u8], db: &mut DB) -> bool {
    let request = SetRequest { key: key.to_string(), value: value.to_vec() };
    let reply = db.execute(DBAction::Put(request));
    assert!(matches!(reply, Reply::Put(_)), "a set is answered by a set reply");
    decode_status(encode_reply(&reply).unwrap().as_slice()).unwrap()
}

fn do_delete(key: &str, db: &mut DB) -> bool {
    let reply = db.execute(DBAction::Delete(DeleteRequest { key: key.to_string() }));
    assert!(matches!(reply, Reply::Delete(_)), "a delete is answered by a delete reply");
    decode_status(encode_reply(&reply).unwrap().as_slice()).unwrap()
}

#[test]
fn get() {
    let mut db: DB = DB::new();
    do_set("key", "value".as_bytes(), &mut db);

    let get_reply = do_get("key".to_string(), &mut db);
    assert_eq!(get_reply.value, "value".as_bytes().to_vec());

    let get_reply = do_get("key_not_found".to_string(), &mut db);
    assert_eq!(get_reply.value, "".as_bytes().to_vec());
    assert_eq!(get_reply.err, "KO");
}

#[test]
fn set() {
    let mut db: DB = DB::new();

    assert!(do_set("key", "value".as_bytes(), &mut db));

    let get_reply = do_get("key".to_string(), &mut db);
    assert_eq!("value".as_bytes().to_vec(), get_reply.value);
    assert_eq!(get_reply.err, "");
}

#[test]
fn delete() {
    let mut db: DB = DB::new();
    do_set("key", "value".as_bytes(), &mut db);

    assert!(do_delete("key", &mut db));

    let get_reply = do_get("key".to_string(), &mut db);
    assert_eq!(get_reply.value, Vec::<u8>::new());
    assert_eq!(get_reply.err, "KO");
}

#[test]
fn default_store_is_empty() {
    let mut db = DB::default();
    let reply = do_get("anything".to_string(), &mut db);
    assert!(reply.value.is_empty());
    assert_eq!(reply.err, "KO");
}

#[test]
fn last_set_wins() {
    let mut db = DB::new();
    assert!(do_set("key", b"first", &mut db));
    assert!(do_set("key", b"second", &mut db));
    assert_eq!(do_get("key".to_string(), &mut db).value, b"second".to_vec());
}

#[test]
fn delete_twice_and_absent_key() {
    let mut db = DB::new();
    do_set("key", b"value", &mut db);
    assert!(do_delete("key", &mut db));
    assert!(do_delete("key", &mut db));
    assert!(do_delete("never_set", &mut db));
    assert_eq!(do_get("key".to_string(), &mut db).err, "KO");
}

#[test]
fn other_keys_unchanged() {
    let mut db = DB::new();
    do_set("a", b"1", &mut db);
    do_set("b", b"2", &mut db);
    do_delete("a", &mut db);
    do_set("c", b"3", &mut db);
    let reply = do_get("b".to_string(), &mut db);
    assert_eq!(reply.value, b"2".to_vec());
    assert_eq!(reply.err, "");
    assert_eq!(do_get("a".to_string(), &mut db).err, "KO");
}

#[test]
fn empty_value_is_stored() {
    let mut db = DB::new();
    do_set("empty", b"", &mut db);
    let reply = do_get("empty".to_string(), &mut db);
    assert!(reply.value.is_empty());
    assert_eq!(reply.err, "");
}
