use mementocached::client::client_round;
use mementocached::command::{DBAction, Reply, DB};
use mementocached::kv::Command;

#[test]
fn client_round_on_a_store() {
    let key = "abcdefg0".to_string();
    let commands = client_round(&key);
    assert_eq!(commands.len(), 4);
    let mut db = DB::new();
    let mut replies = Vec::new();
    for command in commands {
        let action = match command {
            Command::Get(r) => {
                assert_eq!(r.key, key);
                DBAction::Get(r)
            }
            Command::Put(r) => {
                assert_eq!(r.key, key);
                assert_eq!(r.value, b"nicovalue".to_vec());
                DBAction::Put(r)
            }
            Command::Delete(r) => DBAction::Delete(r),
        };
        replies.push(db.execute(action));
    }
    match &replies[0] {
        Reply::Get(r) => assert_eq!(r.err, "KO"),
        _ => panic!("first a get"),
    }
    match &replies[2] {
        Reply::Get(r) => assert_eq!(r.value, b"nicovalue".to_vec()),
        _ => panic!("third a get"),
    }
    match &replies[3] {
        Reply::Delete(r) => assert!(r.status),
        _ => panic!("last a delete"),
    }
}
