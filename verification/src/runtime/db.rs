//! How the database workers share the keys and the requests.
//!
//! Every worker owns the keys that hash to its index. A request read from a
//! client is turned into an action for the worker that owns its key: the
//! worker that read it executes it itself when it owns the key, and forwards
//! it otherwise.
use vstd::prelude::*;

use crate::command::{action_key, apply_action, reply_to, ActionModel, DBAction, ReplyModel, StoreModel};
use crate::kv::{Command, Request};

verus! {

/// The hash that `ahash::RandomState::with_seeds(k0, k1, k2, k3).hash_one(key)`
/// gives in a running program, taken as a function of the seeds and of the
/// key's characters. Nothing of its values is known here: ahash computes
/// different hashes on different machines and builds, so what is proved
/// from it holds whichever function the running build computes.
pub closed spec fn seeded_hash(k0: u64, k1: u64, k2: u64, k3: u64, key: Seq<char>) -> u64 {
    (arbitrary::<spec_fn(u64, u64, u64, u64, Seq<char>) -> u64>())(k0, k1, k2, k3, key)
}

/// Calls `ahash::RandomState::with_seeds(k0, k1, k2, k3).hash_one(key)`.
/// Claimed: the hash depends on the seeds and the key alone, as ahash
/// documents that hash builders made from the same seeds are identical and
/// give the same hash for the same data. Which hash a key gets is not
/// claimed.
#[verifier::external_body]
fn hash_key(k0: u64, k1: u64, k2: u64, k3: u64, key: &str) -> (hash: u64)
    ensures
        hash == seeded_hash(k0, k1, k2, k3, key@),
{
    ahash::RandomState::with_seeds(k0, k1, k2, k3).hash_one(key)
}

/// The worker, among `nb_workers`, that owns a key with the given hash.
pub fn worker_for_hash(hash: u64, nb_workers: usize) -> (worker: usize)
    requires
        nb_workers > 0,
    ensures
        worker == (hash as usize) % nb_workers,
        worker < nb_workers,
{
    (hash as usize) % nb_workers
}

/// The worker, among `nb_workers`, that owns `key`: the remainder of the
/// key's hash, ahash with all four seeds zero, by the number of workers.
pub open spec fn owner_of(key: Seq<char>, nb_workers: usize) -> int {
    ((seeded_hash(0, 0, 0, 0, key) as usize) % nb_workers) as int
}

/// The assignment of every key to its owner among `nb_workers` workers.
pub open spec fn owners(nb_workers: usize) -> spec_fn(Seq<char>) -> int {
    |key: Seq<char>| owner_of(key, nb_workers)
}

/// The worker, among `len_vec`, that owns `key`: the remainder of the key's
/// hash, ahash with all four seeds zero, by the number of workers.
pub fn calculate_modulo(key: &str, len_vec: usize) -> (worker: usize)
    requires
        len_vec > 0,
    ensures
        worker == owner_of(key@, len_vec),
        worker < len_vec,
{
    let hash = hash_key(0, 0, 0, 0, key);
    worker_for_hash(hash, len_vec)
}

/// Turns a request into an action and picks the worker, among `len_vec`,
/// that owns the action's key.
pub fn process(request: Request, len_vec: usize) -> (routed: (usize, DBAction))
    requires
        len_vec > 0,
        request.command is Some,
    ensures
        routed.1@ == request.command.unwrap()@,
        routed.0 == owner_of(action_key(request.command.unwrap()@), len_vec),
        routed.0 < len_vec,
{
    match request.command.unwrap() {
        Command::Get(get) => {
            let worker_id = calculate_modulo(get.key.as_str(), len_vec);
            (worker_id, DBAction::Get(get))
        },
        Command::Put(set) => {
            let worker_id = calculate_modulo(set.key.as_str(), len_vec);
            (worker_id, DBAction::Put(set))
        },
        Command::Delete(delete) => {
            let worker_id = calculate_modulo(delete.key.as_str(), len_vec);
            (worker_id, DBAction::Delete(delete))
        },
    }
}

/// Where an action read by a worker is executed.
#[derive(Debug)]
pub enum Route {
    /// By the worker that read it.
    Local(DBAction),
    /// By the worker with the given index.
    Forward(usize, DBAction),
}

/// Decides where a request read by worker `local_worker_id`, among
/// `nb_workers`, is executed: by the reader itself when it owns the key, by
/// the owner otherwise.
pub fn route_request(request: Request, nb_workers: usize, local_worker_id: usize) -> (route: Route)
    requires
        nb_workers > 0,
        request.command is Some,
    ensures
        match route {
            Route::Local(action) => {
                &&& action@ == request.command.unwrap()@
                &&& local_worker_id == owner_of(action_key(action@), nb_workers)
            },
            Route::Forward(worker_id, action) => {
                &&& action@ == request.command.unwrap()@
                &&& worker_id == owner_of(action_key(action@), nb_workers)
                &&& worker_id != local_worker_id
                &&& worker_id < nb_workers
            },
        },
{
    let (worker_id, action) = process(request, nb_workers);
    if worker_id == local_worker_id {
        Route::Local(action)
    } else {
        Route::Forward(worker_id, action)
    }
}

/// An assignment of every key to one of `nb_workers` workers, fixed for a
/// run of the server.
pub open spec fn is_assignment(owner: spec_fn(Seq<char>) -> int, nb_workers: usize) -> bool {
    forall|key: Seq<char>| 0 <= #[trigger] owner(key) < nb_workers
}

/// The stores of the `nb_workers` workers together hold what `whole` holds:
/// each worker holds only keys it owns, and a key is in `whole`, with a
/// value, exactly when its owner holds it with that value.
pub open spec fn shards_hold(
    shards: Seq<StoreModel>,
    whole: StoreModel,
    owner: spec_fn(Seq<char>) -> int,
    nb_workers: usize,
) -> bool {
    &&& is_assignment(owner, nb_workers)
    &&& shards.len() == nb_workers
    &&& forall|i: int, key: Seq<char>|
        0 <= i < shards.len() && #[trigger] shards[i].contains_key(key) ==> owner(key) == i
    &&& forall|key: Seq<char>| #[trigger]
        whole.contains_key(key) == shards[owner(key)].contains_key(key)
    &&& forall|key: Seq<char>| #[trigger]
        whole.contains_key(key) ==> whole[key] == shards[owner(key)][key]
}

/// Workers that all start empty hold together an empty store.
pub proof fn lemma_empty_shards_hold(owner: spec_fn(Seq<char>) -> int, nb_workers: usize)
    requires
        is_assignment(owner, nb_workers),
    ensures
        shards_hold(
            Seq::new(nb_workers as nat, |i: int| Map::<Seq<char>, Seq<u8>>::empty()),
            Map::<Seq<char>, Seq<u8>>::empty(),
            owner,
            nb_workers,
        ),
{
    let shards = Seq::new(nb_workers as nat, |i: int| Map::<Seq<char>, Seq<u8>>::empty());
    assert forall|key: Seq<char>| !#[trigger] shards[owner(key)].contains_key(key) by {
        assert(0 <= owner(key) < nb_workers);
    }
}

/// Sending an action to the owner of its key makes the workers behave as
/// one store: the owner answers what the one store would answer, and
/// afterwards the workers still hold together what the one store holds.
pub proof fn lemma_shards_act_as_one_store(
    shards: Seq<StoreModel>,
    whole: StoreModel,
    owner: spec_fn(Seq<char>) -> int,
    nb_workers: usize,
    action: ActionModel,
)
    requires
        shards_hold(shards, whole, owner, nb_workers),
    ensures
        ({
            let w = owner(action_key(action));
            &&& reply_to(shards[w], action) == reply_to(whole, action)
            &&& shards_hold(
                shards.update(w, apply_action(shards[w], action)),
                apply_action(whole, action),
                owner,
                nb_workers,
            )
        }),
{
    let key = action_key(action);
    let w = owner(key);
    let new_shards = shards.update(w, apply_action(shards[w], action));
    let new_whole = apply_action(whole, action);
    assert(0 <= w < nb_workers);
    assert forall|i: int, k: Seq<char>|
        0 <= i < new_shards.len() && #[trigger] new_shards[i].contains_key(k) implies owner(k)
        == i by {
        if i == w {
            if k != key {
                assert(shards[i].contains_key(k));
            }
        } else {
            assert(shards[i].contains_key(k));
        }
    }
    assert forall|k: Seq<char>| #[trigger]
        new_whole.contains_key(k) == new_shards[owner(k)].contains_key(k) by {
        assert(whole.contains_key(k) == shards[owner(k)].contains_key(k));
        assert(0 <= owner(k) < nb_workers);
    }
    assert forall|k: Seq<char>| #[trigger]
        new_whole.contains_key(k) implies new_whole[k] == new_shards[owner(k)][k] by {
        assert(whole.contains_key(k) == shards[owner(k)].contains_key(k));
        assert(0 <= owner(k) < nb_workers);
        if k != key {
            assert(whole.contains_key(k));
        }
    }
    assert(whole.contains_key(key) == shards[w].contains_key(key));
}

/// The stores of the workers and the replies after sending each action, in
/// order, to the owner of its key.
pub open spec fn run_shards(
    shards: Seq<StoreModel>,
    actions: Seq<ActionModel>,
    owner: spec_fn(Seq<char>) -> int,
) -> (Seq<StoreModel>, Seq<crate::command::ReplyModel>)
    decreases actions.len(),
{
    if actions.len() == 0 {
        (shards, Seq::empty())
    } else {
        let (before, replies) = run_shards(shards, actions.drop_last(), owner);
        let action = actions.last();
        let w = owner(action_key(action));
        (
            before.update(w, apply_action(before[w], action)),
            replies.push(reply_to(before[w], action)),
        )
    }
}

/// One store and its replies after executing each action, in order.
pub open spec fn run_one_store(whole: StoreModel, actions: Seq<ActionModel>) -> (
    StoreModel,
    Seq<crate::command::ReplyModel>,
)
    decreases actions.len(),
{
    if actions.len() == 0 {
        (whole, Seq::empty())
    } else {
        let (before, replies) = run_one_store(whole, actions.drop_last());
        let action = actions.last();
        (apply_action(before, action), replies.push(reply_to(before, action)))
    }
}

/// Over any run of actions, the workers, each sent the actions on the keys
/// that a fixed assignment gives it, answer what one store answers, and
/// still hold together what that store holds.
pub proof fn lemma_shards_run_as_one_store(
    shards: Seq<StoreModel>,
    whole: StoreModel,
    owner: spec_fn(Seq<char>) -> int,
    nb_workers: usize,
    actions: Seq<ActionModel>,
)
    requires
        shards_hold(shards, whole, owner, nb_workers),
    ensures
        run_shards(shards, actions, owner).1 == run_one_store(whole, actions).1,
        shards_hold(run_shards(shards, actions, owner).0, run_one_store(whole, actions).0, owner, nb_workers),
    decreases actions.len(),
{
    if actions.len() > 0 {
        lemma_shards_run_as_one_store(shards, whole, owner, nb_workers, actions.drop_last());
        let before = run_shards(shards, actions.drop_last(), owner).0;
        let one = run_one_store(whole, actions.drop_last()).0;
        lemma_shards_act_as_one_store(before, one, owner, nb_workers, actions.last());
    }
}

/// Every key has one owner among `nb_workers` workers, whatever the action
/// on it: the owner is one of the workers.
pub proof fn lemma_owner_is_assignment(nb_workers: usize)
    requires
        nb_workers > 0,
    ensures
        is_assignment(owners(nb_workers), nb_workers),
{
}

/// Workers that start empty, each executing in order the actions that are
/// routed to the owner of their key, answer every action as one store that
/// executes them all would, and hold together what that store holds.
pub proof fn lemma_routed_actions_act_as_one_store(nb_workers: usize, actions: Seq<ActionModel>)
    requires
        nb_workers > 0,
    ensures
        ({
            let owner = owners(nb_workers);
            let empty = Map::<Seq<char>, Seq<u8>>::empty();
            let shards = Seq::new(nb_workers as nat, |i: int| empty);
            &&& run_shards(shards, actions, owner).1 == run_one_store(empty, actions).1
            &&& shards_hold(run_shards(shards, actions, owner).0, run_one_store(empty, actions).0, owner, nb_workers)
        }),
{
    let owner = owners(nb_workers);
    let empty = Map::<Seq<char>, Seq<u8>>::empty();
    let shards = Seq::new(nb_workers as nat, |i: int| empty);
    lemma_owner_is_assignment(nb_workers);
    lemma_empty_shards_hold(owner, nb_workers);
    lemma_shards_run_as_one_store(shards, empty, owner, nb_workers, actions);
}

/// A get routed after a set of the same key, both to the owner of the key,
/// answers the value that was set, with no error, whatever the workers held.
pub proof fn lemma_routed_get_after_set(
    shards: Seq<StoreModel>,
    whole: StoreModel,
    nb_workers: usize,
    key: Seq<char>,
    value: Seq<u8>,
)
    requires
        shards_hold(shards, whole, owners(nb_workers), nb_workers),
    ensures
        run_shards(
            shards,
            seq![ActionModel::Put { key, value }, ActionModel::Get { key }],
            owners(nb_workers),
        ).1[1] == (ReplyModel::Get { value, err: Seq::empty() }),
{
    let owner = owners(nb_workers);
    let put = ActionModel::Put { key, value };
    let actions = seq![put, ActionModel::Get { key }];
    lemma_shards_run_as_one_store(shards, whole, owner, nb_workers, actions);
    assert(actions.drop_last().drop_last() =~= Seq::<ActionModel>::empty());
    assert(actions.drop_last() =~= seq![put]);
    assert(run_one_store(whole, actions.drop_last().drop_last()) == (whole, Seq::<ReplyModel>::empty()));
    let first = run_one_store(whole, actions.drop_last());
    assert(first.0 == whole.insert(key, value));
    assert(first.1.len() == 1);
    assert(run_one_store(whole, actions).1[1] == reply_to(first.0, ActionModel::Get { key }));
}

/// The label under which requests of an action's kind are counted.
pub open spec fn request_type_label(action: ActionModel) -> Seq<char> {
    match action {
        ActionModel::Get { .. } => seq!['g', 'e', 't'],
        ActionModel::Put { .. } => seq!['s', 'e', 't'],
        ActionModel::Delete { .. } => seq!['d', 'e', 'l', 'e', 't', 'e'],
    }
}

/// Actions of one kind are counted under one label, whatever their key or
/// value, and actions of different kinds under different labels: `get`,
/// `set` and `delete`.
pub proof fn lemma_label_by_kind(a: ActionModel, b: ActionModel)
    ensures
        a is Get ==> request_type_label(a) == seq!['g', 'e', 't'],
        a is Put ==> request_type_label(a) == seq!['s', 'e', 't'],
        a is Delete ==> request_type_label(a) == seq!['d', 'e', 'l', 'e', 't', 'e'],
        (a is Get && b is Get) || (a is Put && b is Put) || (a is Delete && b is Delete)
            ==> request_type_label(a) == request_type_label(b),
        (a is Get && !(b is Get)) || (a is Put && !(b is Put)) || (a is Delete && !(b is Delete))
            ==> request_type_label(a) != request_type_label(b),
{
    let g = seq!['g', 'e', 't'];
    let s = seq!['s', 'e', 't'];
    let d = seq!['d', 'e', 'l', 'e', 't', 'e'];
    assert(g[0] != s[0] && g.len() != d.len() && s.len() != d.len());
}

/// The label under which requests of an action's kind are counted.
pub fn request_type(action: &DBAction) -> (label: &'static str)
    ensures
        label@ == request_type_label(action@),
        action is Get ==> label@ == seq!['g', 'e', 't'],
        action is Put ==> label@ == seq!['s', 'e', 't'],
        action is Delete ==> label@ == seq!['d', 'e', 'l', 'e', 't', 'e'],
{
    match action {
        DBAction::Get(_) => {
            proof {
                reveal_strlit("get");
            }
            "get"
        },
        DBAction::Put(_) => {
            proof {
                reveal_strlit("set");
            }
            "set"
        },
        DBAction::Delete(_) => {
            proof {
                reveal_strlit("delete");
            }
            "delete"
        },
    }
}

} // verus!
