//! The store owned by one database worker and the commands it executes.
use std::collections::HashMap;

use vstd::prelude::*;

use crate::kv::{Command, DeleteReply, DeleteRequest, GetReply, GetRequest, SetReply, SetRequest};

verus! {

/// `ahash::RandomState`, the hash builder of the table behind a store.
#[verifier::external_type_specification]
#[verifier::external_body]
pub struct ExAhashRandomState(ahash::RandomState);

/// What a table holds: each key, taken by its characters, mapped to the
/// bytes of its value.
pub uninterp spec fn table_contents(table: HashMap<String, Vec<u8>, ahash::RandomState>) -> Map<
    Seq<char>,
    Seq<u8>,
>;

/// Calls `ahash::HashMapExt::new` for `ahash::HashMap<String, Vec<u8>>`.
/// Claimed: the new table holds nothing.
#[verifier::external_body]
fn table_new() -> (fresh: HashMap<String, Vec<u8>, ahash::RandomState>)
    ensures
        table_contents(fresh).is_empty(),
{
    <HashMap<String, Vec<u8>, ahash::RandomState> as ahash::HashMapExt>::new()
}

/// Calls `HashMap::get`. Claimed: it finds a value exactly when the table
/// holds the key, and then hands out the value stored under it.
#[verifier::external_body]
fn table_get<'a>(table: &'a HashMap<String, Vec<u8>, ahash::RandomState>, key: &String) -> (found:
    Option<&'a Vec<u8>>)
    ensures
        found.is_some() == table_contents(*table).contains_key(key@),
        found.is_some() ==> found.unwrap()@ == table_contents(*table)[key@],
{
    table.get(key)
}

/// Calls `HashMap::insert`. Claimed: afterwards the key maps to the new
/// value and every other key is as before.
#[verifier::external_body]
fn table_insert(table: &mut HashMap<String, Vec<u8>, ahash::RandomState>, key: String, value: Vec<u8>)
    ensures
        table_contents(*final(table)) == table_contents(*old(table)).insert(key@, value@),
{
    table.insert(key, value);
}

/// Calls `HashMap::remove`. Claimed: afterwards the key is absent and every
/// other key is as before.
#[verifier::external_body]
fn table_remove(table: &mut HashMap<String, Vec<u8>, ahash::RandomState>, key: &String)
    ensures
        table_contents(*final(table)) == table_contents(*old(table)).remove(key@),
{
    table.remove(key);
}

/// The content of a store: each key mapped to its value.
pub type StoreModel = Map<Seq<char>, Seq<u8>>;

/// An action for a database worker, as the worker sees it.
pub enum ActionModel {
    Get { key: Seq<char> },
    Put { key: Seq<char>, value: Seq<u8> },
    Delete { key: Seq<char> },
}

/// A reply of a database worker, as the client sees it.
pub enum ReplyModel {
    Get { value: Seq<u8>, err: Seq<char> },
    Put { status: bool },
    Delete { status: bool },
}

/// The action that a database worker executes on its store.
#[derive(Debug)]
pub enum DBAction {
    Get(GetRequest),
    Put(SetRequest),
    Delete(DeleteRequest),
}

impl View for DBAction {
    type V = ActionModel;

    open spec fn view(&self) -> ActionModel {
        match self {
            DBAction::Get(r) => ActionModel::Get { key: r.key@ },
            DBAction::Put(r) => ActionModel::Put { key: r.key@, value: r.value@ },
            DBAction::Delete(r) => ActionModel::Delete { key: r.key@ },
        }
    }
}

impl View for Command {
    type V = ActionModel;

    open spec fn view(&self) -> ActionModel {
        match self {
            Command::Get(r) => ActionModel::Get { key: r.key@ },
            Command::Put(r) => ActionModel::Put { key: r.key@, value: r.value@ },
            Command::Delete(r) => ActionModel::Delete { key: r.key@ },
        }
    }
}

/// The reply to an action, ready to be encoded for the client.
#[derive(Debug)]
pub enum Reply {
    Get(GetReply),
    Put(SetReply),
    Delete(DeleteReply),
}

impl View for Reply {
    type V = ReplyModel;

    open spec fn view(&self) -> ReplyModel {
        match self {
            Reply::Get(r) => ReplyModel::Get { value: r.value@, err: r.err@ },
            Reply::Put(r) => ReplyModel::Put { status: r.status },
            Reply::Delete(r) => ReplyModel::Delete { status: r.status },
        }
    }
}

/// The key an action is about.
pub open spec fn action_key(action: ActionModel) -> Seq<char> {
    match action {
        ActionModel::Get { key } => key,
        ActionModel::Put { key, .. } => key,
        ActionModel::Delete { key } => key,
    }
}

/// The error text of a get on an absent key.
pub open spec fn missing_key_error() -> Seq<char> {
    seq!['K', 'O']
}

/// The store after an action: a get leaves it alone, a set stores the value
/// under the key, a delete removes the key.
pub open spec fn apply_action(store: StoreModel, action: ActionModel) -> StoreModel {
    match action {
        ActionModel::Get { .. } => store,
        ActionModel::Put { key, value } => store.insert(key, value),
        ActionModel::Delete { key } => store.remove(key),
    }
}

/// The reply to an action on a store: a get answers the stored value, or an
/// empty value with the error `KO` when the key is absent; a set and a
/// delete always answer a true status.
pub open spec fn reply_to(store: StoreModel, action: ActionModel) -> ReplyModel {
    match action {
        ActionModel::Get { key } => if store.contains_key(key) {
            ReplyModel::Get { value: store[key], err: Seq::empty() }
        } else {
            ReplyModel::Get { value: Seq::empty(), err: missing_key_error() }
        },
        ActionModel::Put { .. } => ReplyModel::Put { status: true },
        ActionModel::Delete { .. } => ReplyModel::Delete { status: true },
    }
}

/// A get that follows a set of the same key answers the value that was set,
/// with no error.
pub proof fn lemma_get_after_set(store: StoreModel, key: Seq<char>, value: Seq<u8>)
    ensures
        reply_to(apply_action(store, ActionModel::Put { key, value }), ActionModel::Get { key })
            == (ReplyModel::Get { value, err: Seq::empty() }),
{
}

/// A get that follows a delete of the same key answers an empty value and
/// the error `KO`.
pub proof fn lemma_get_after_delete(store: StoreModel, key: Seq<char>)
    ensures
        reply_to(apply_action(store, ActionModel::Delete { key }), ActionModel::Get { key })
            == (ReplyModel::Get { value: Seq::empty(), err: missing_key_error() }),
{
}

/// An action changes nothing that a get of another key can see.
pub proof fn lemma_other_keys_unchanged(store: StoreModel, action: ActionModel, key: Seq<char>)
    requires
        key != action_key(action),
    ensures
        reply_to(apply_action(store, action), ActionModel::Get { key }) == reply_to(
            store,
            ActionModel::Get { key },
        ),
{
}

/// A get leaves the store as it was.
pub proof fn lemma_get_changes_nothing(store: StoreModel, key: Seq<char>)
    ensures
        apply_action(store, ActionModel::Get { key }) == store,
{
}

/// Of two sets of one key, the second decides the store.
pub proof fn lemma_last_set_wins(store: StoreModel, key: Seq<char>, first: Seq<u8>, second: Seq<u8>)
    ensures
        apply_action(
            apply_action(store, ActionModel::Put { key, value: first }),
            ActionModel::Put { key, value: second },
        ) == apply_action(store, ActionModel::Put { key, value: second }),
{
    assert(store.insert(key, first).insert(key, second) =~= store.insert(key, second));
}

/// Deleting a key twice leaves the store as deleting it once.
pub proof fn lemma_delete_twice(store: StoreModel, key: Seq<char>)
    ensures
        apply_action(apply_action(store, ActionModel::Delete { key }), ActionModel::Delete { key })
            == apply_action(store, ActionModel::Delete { key }),
{
    assert(store.remove(key).remove(key) =~= store.remove(key));
}

/// A set and a delete are always acknowledged with a true status.
pub proof fn lemma_writes_acknowledged(store: StoreModel, action: ActionModel)
    ensures
        action is Put ==> reply_to(store, action) == (ReplyModel::Put { status: true }),
        action is Delete ==> reply_to(store, action) == (ReplyModel::Delete { status: true }),
{
}

/// On a new store, every get answers an empty value and the error `KO`.
pub proof fn lemma_new_store_has_no_key(key: Seq<char>)
    ensures
        reply_to(Map::<Seq<char>, Seq<u8>>::empty(), ActionModel::Get { key }) == (ReplyModel::Get {
            value: Seq::empty(),
            err: missing_key_error(),
        }),
{
}

/// One shard of the database: a table from keys to values.
pub struct DB {
    data: HashMap<String, Vec<u8>, ahash::RandomState>,
}

impl View for DB {
    type V = StoreModel;

    closed spec fn view(&self) -> StoreModel {
        table_contents(self.data)
    }
}

impl Default for DB {
    fn default() -> (db: Self)
        ensures
            db@ == Map::<Seq<char>, Seq<u8>>::empty(),
    {
        DB::new()
    }
}

impl DB {
    /// Creates an empty store.
    pub fn new() -> (db: Self)
        ensures
            db@ == Map::<Seq<char>, Seq<u8>>::empty(),
    {
        DB { data: table_new() }
    }

    /// Executes an action on the store and answers it.
    pub fn execute(&mut self, cmd: DBAction) -> (reply: Reply)
        ensures
            final(self)@ == apply_action(old(self)@, cmd@),
            reply@ == reply_to(old(self)@, cmd@),
    {
        match cmd {
            DBAction::Get(get) => Reply::Get(self.get(&get.key)),
            DBAction::Put(set) => Reply::Put(self.set(set.key, set.value)),
            DBAction::Delete(delete) => Reply::Delete(self.delete(&delete.key)),
        }
    }

    fn get(&self, key: &String) -> (reply: GetReply)
        ensures
            (ReplyModel::Get { value: reply.value@, err: reply.err@ }) == reply_to(
                self@,
                ActionModel::Get { key: key@ },
            ),
    {
        match table_get(&self.data, key) {
            Some(x) => {
                let value = x.clone();
                assert(value@ =~= x@);
                GetReply { value, err: String::new() }
            },
            None => {
                let err = "KO".to_owned();
                proof {
                    reveal_strlit("KO");
                }
                assert(err@ =~= missing_key_error());
                GetReply { value: Vec::new(), err }
            },
        }
    }

    fn set(&mut self, key: String, value: Vec<u8>) -> (reply: SetReply)
        ensures
            final(self)@ == old(self)@.insert(key@, value@),
            reply.status,
    {
        table_insert(&mut self.data, key, value);
        SetReply { status: true }
    }

    fn delete(&mut self, key: &String) -> (reply: DeleteReply)
        ensures
            final(self)@ == old(self)@.remove(key@),
            reply.status,
    {
        table_remove(&mut self.data, key);
        DeleteReply { status: true }
    }
}

} // verus!
