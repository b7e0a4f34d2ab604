//! What the load-testing client asks of the server.
//!
//! The client works on keys of its own: for each key it reads it, stores a
//! fixed value under it, reads it again and deletes it.
use vstd::prelude::*;

use crate::command::{apply_action, reply_to, ActionModel, ReplyModel, StoreModel};
use crate::kv::{Command, DeleteRequest, GetRequest, SetRequest};

verus! {

/// The value that the client stores, the bytes of the text `nicovalue`.
pub open spec fn client_value() -> Seq<u8> {
    seq![110u8, 105u8, 99u8, 111u8, 118u8, 97u8, 108u8, 117u8, 101u8]
}

/// The commands of one round of the client on `key`, in the order sent.
pub open spec fn client_round_model(key: Seq<char>) -> Seq<ActionModel> {
    seq![
        ActionModel::Get { key },
        ActionModel::Put { key, value: client_value() },
        ActionModel::Get { key },
        ActionModel::Delete { key },
    ]
}

/// The commands that the client sends, in order, in one round on `key`.
pub fn client_round(key: &String) -> (commands: Vec<Command>)
    ensures
        commands@.len() == 4,
        forall|i: int| 0 <= i < 4 ==> #[trigger] commands@[i]@ == client_round_model(key@)[i],
{
    let value: Vec<u8> = vec![110u8, 105u8, 99u8, 111u8, 118u8, 97u8, 108u8, 117u8, 101u8];
    assert(value@ =~= client_value());
    let mut commands: Vec<Command> = Vec::new();
    commands.push(Command::Get(GetRequest { key: key.clone() }));
    commands.push(Command::Put(SetRequest { key: key.clone(), value }));
    commands.push(Command::Get(GetRequest { key: key.clone() }));
    commands.push(Command::Delete(DeleteRequest { key: key.clone() }));
    commands
}

/// A round executed in order on a store: the second read answers the value
/// just stored, and the round leaves the store as it was, less the key.
pub proof fn lemma_client_round(store: StoreModel, key: Seq<char>)
    ensures
        ({
            let round = client_round_model(key);
            let after_first = apply_action(store, round[0]);
            let after_set = apply_action(after_first, round[1]);
            let after_second = apply_action(after_set, round[2]);
            &&& reply_to(after_set, round[2]) == (ReplyModel::Get {
                value: client_value(),
                err: Seq::empty(),
            })
            &&& apply_action(after_second, round[3]) == store.remove(key)
        }),
{
    assert(store.insert(key, client_value()).remove(key) =~= store.remove(key));
}

} // verus!
