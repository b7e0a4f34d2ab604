use mementocached::command::{DBAction, Reply, DB};
use mementocached::kv::{Command, DeleteRequest, GetRequest, Request, SetRequest};
use mementocached::runtime::db;
use mementocached::runtime::db::{
    calculate_modulo, request_type, route_request, worker_for_hash, Route,
};

#[test]
fn compute_hash() {
    let hash = calculate_modulo("test_key", 6);
    assert_eq!(hash, 0);
}

#[test]
fn process() {
    let len_vec = 6;
    let set = SetRequest { key: "key1".to_string(), value: Vec::from("value") };
    let request = Request { command: Some(Command::Put(set)) };
    let (worker_id, db_action) = db::process(request, len_vec);
    assert_eq!(worker_id, 2);
    let expected_action = match db_action {
        DBAction::Put(_) => true,
        _ => false,
    };
    assert!(expected_action);

    let get = GetRequest { key: "key".to_string() };
    let request = Request { command: Some(Command::Get(get)) };
    let (_, db_action) = db::process(request, len_vec);
    let expected_action = match db_action {
        DBAction::Get(_) => true,
        _ => false,
    };
    assert!(expected_action);

    let delete = DeleteRequest { key: "key".to_string() };
    let request = Request { command: Some(Command::Delete(delete)) };
    let (_, db_action) = db::process(request, len_vec);
    let expected_action = match db_action {
        DBAction::Delete(_) => true,
        _ => false,
    };
    assert!(expected_action);
}

#[test]
fn worker_for_hash_is_remainder() {
    assert_eq!(worker_for_hash(17, 5), 2);
    assert_eq!(worker_for_hash(0, 3), 0);
    assert_eq!(worker_for_hash(u64::MAX, 1), 0);
}

#[test]
fn one_owner_per_key() {
    for n in 1..10 {
        let w = calculate_modulo("some key", n);
        assert!(w < n);
        let get = Request { command: Some(Command::Get(GetRequest { key: "some key".to_string() })) };
        let del = Request {
            command: Some(Command::Delete(DeleteRequest { key: "some key".to_string() })),
        };
        assert_eq!(db::process(get, n).0, w);
        assert_eq!(db::process(del, n).0, w);
    }
}

#[test]
fn route_local_or_forward() {
    let n = 6;
    let owner = calculate_modulo("key1", n);
    let make = || Request {
        command: Some(Command::Put(SetRequest { key: "key1".to_string(), value: b"v".to_vec() })),
    };
    match route_request(make(), n, owner) {
        Route::Local(DBAction::Put(r)) => assert_eq!(r.value, b"v".to_vec()),
        _ => panic!("the owner executes its own key"),
    }
    let other = (owner + 1) % n;
    match route_request(make(), n, other) {
        Route::Forward(w, DBAction::Put(r)) => {
            assert_eq!(w, owner);
            assert_eq!(r.key, "key1");
        }
        _ => panic!("another worker forwards to the owner"),
    }
}

#[test]
fn request_labels() {
    assert_eq!(request_type(&DBAction::Get(GetRequest { key: String::new() })), "get");
    let put = DBAction::Put(SetRequest { key: String::new(), value: vec![] });
    assert_eq!(request_type(&put), "set");
    assert_eq!(request_type(&DBAction::Delete(DeleteRequest { key: String::new() })), "delete");
}

fn reply_text(reply: Reply) -> String {
    match reply {
        Reply::Get(r) => format!("get {:?} {}", r.value, r.err),
        Reply::Put(r) => format!("set {}", r.status),
        Reply::Delete(r) => format!("delete {}", r.status),
    }
}

fn command(kind: usize, key: &str, value: u8) -> Command {
    match kind % 3 {
        0 => Command::Get(GetRequest { key: key.to_string() }),
        1 => Command::Put(SetRequest { key: key.to_string(), value: vec![value] }),
        _ => Command::Delete(DeleteRequest { key: key.to_string() }),
    }
}

fn to_action(command: Command) -> DBAction {
    match command {
        Command::Get(r) => DBAction::Get(r),
        Command::Put(r) => DBAction::Put(r),
        Command::Delete(r) => DBAction::Delete(r),
    }
}

#[test]
fn sharded_workers_act_as_one_store() {
    let n = 4;
    let mut shards: Vec<DB> = (0..n).map(|_| DB::new()).collect();
    let mut whole = DB::new();
    let keys = ["a", "b", "key1", "test_key", "zz", "key"];
    for step in 0..60usize {
        let key = keys[(step * 7) % keys.len()];
        let cmd = command(step * 5 + step / 3, key, step as u8);
        let reader = step % n;
        let expected = reply_text(whole.execute(to_action(cmd.clone())));
        let got = match route_request(Request { command: Some(cmd) }, n, reader) {
            Route::Local(action) => reply_text(shards[reader].execute(action)),
            Route::Forward(owner, action) => reply_text(shards[owner].execute(action)),
        };
        assert_eq!(got, expected);
    }
}
