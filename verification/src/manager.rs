//! The holder of the scoreboard's state, which hands each change on to its listeners.
use vstd::prelude::*;
use crate::path_syntax::state_segments;
use crate::state_trie::{
    empty_view, law_add_keeps_keys_unique, law_get_after_add, law_set_key_reads_after_merge,
    StateTrie, StateView,
};
use crate::ws::{connections_wf, queued_updates, update_recipients, Connections};

verus! {

broadcast use vstd::std_specs::hash::group_hash_axioms;

/// Something that is told of the state and of which keys in it changed.
///
/// Keys whose value is null count as deleted: they are present in `changes` only, not
/// in `state`.
pub trait JSONStateListener: Sized {
    /// How a listener that was `self` takes `state` and `changes`: `report` is what it
    /// reports back and `after` is what it is then.
    spec fn takes_updates(&self, state: StateView, changes: StateView, report: bool, after: Self) -> bool;

    /// Takes `state` (a snapshot of the whole state) and `changes` (what changed in
    /// it); returns what the listener reports back about handling them.
    fn send_updates(&mut self, state: &StateTrie, changes: &StateTrie) -> (r: bool)
        ensures
            old(self).takes_updates(state@, changes@, r, *final(self)),
    ;
}

/// The state of the scoreboard.
pub struct JSONStateManager {
    pub state: StateTrie,
}

impl JSONStateManager {
    /// A manager whose state is empty.
    pub fn new() -> (r: JSONStateManager)
        ensures
            r.state@ == (StateView { is_path: false, value: None, subtries: Seq::empty() }),
    {
        JSONStateManager { state: StateTrie::empty() }
    }

    /// A new listener is told of the whole state, both as the state and as its
    /// changes; what the listener reports back is returned.  The state is not changed.
    pub fn register<L: JSONStateListener>(&self, source: &mut L) -> (r: bool)
        ensures
            old(source).takes_updates(self.state@, self.state@, r, *final(source)),
    {
        let local_state = self.state.copy();
        source.send_updates(&local_state, &local_state)
    }

    /// Sets `key` to the JSON text `value`: an update trie holding just that key is
    /// built with [`StateTrie::add`] and merged in (see
    /// [`JSONStateManager::update_state_inner`]).  Returns the clients the update went
    /// to: every connected one.
    pub fn update_state(&mut self, key: String, value: String, connections: &mut Connections) -> (r:
        Vec<u128>)
        requires
            connections_wf(old(connections)@),
        ensures
            final(self).state@ == old(self).state@.merged(
                empty_view().added(state_segments(key@), Some(value@)),
                false,
            ),
            final(self).state@.lookup(state_segments(key@)) == Some(value@),
            r@.to_set() == old(connections)@.dom(),
            r@.no_duplicates(),
            connections_wf(final(connections)@),
            final(connections)@.dom() == old(connections)@.dom(),
            forall|id: u128|
                #[trigger] old(connections)@.contains_key(id) ==> queued_updates(
                    old(connections)@[id],
                    final(connections)@[id],
                    empty_view().added(state_segments(key@), Some(value@)),
                ),
    {
        let mut updates = StateTrie::empty();
        let ghost path = state_segments(key@);
        let ghost v = value@;
        updates.add(key, Some(value));
        proof {
            assert(path.len() > 0);
            assert(updates@.subtries.len() > 0);
            law_get_after_add(empty_view(), path, Some(v));
            law_add_keeps_keys_unique(empty_view(), path, Some(v));
            use_type_invariant(&self.state);
            law_set_key_reads_after_merge(self.state@, updates@, path, v);
        }
        self.update_state_inner(updates, connections)
    }

    /// Merges `updates` into the state; unless the update is empty (see
    /// [`StateView::is_empty`]) every connected client is then handed, once, the new
    /// state and the updates (see [`JSONStateListener::send_updates`]): each connection
    /// queues the message that carries the updates.  Returns the clients they went to
    /// (see [`update_recipients`]).
    pub fn update_state_inner(&mut self, updates: StateTrie, connections: &mut Connections) -> (r:
        Vec<u128>)
        requires
            connections_wf(old(connections)@),
        ensures
            final(self).state@ == old(self).state@.merged(updates@, false),
            updates@.is_empty() ==> r@.len() == 0,
            !updates@.is_empty() ==> r@.to_set() == old(connections)@.dom() && r@.no_duplicates(),
            connections_wf(final(connections)@),
            final(connections)@.dom() == old(connections)@.dom(),
            forall|id: u128|
                #[trigger] old(connections)@.contains_key(id) ==> if updates@.is_empty() {
                    final(connections)@[id] == old(connections)@[id]
                } else {
                    queued_updates(old(connections)@[id], final(connections)@[id], updates@)
                },
    {
        self.state = self.state.merge_cloned(&updates);
        let recipients = update_recipients(connections, &updates);
        let mut i: usize = 0;
        while i < recipients.len()
            invariant
                i <= recipients@.len(),
                !updates@.is_empty() ==> recipients@.to_set() == old(connections)@.dom()
                    && recipients@.no_duplicates(),
                updates@.is_empty() ==> recipients@.len() == 0,
                connections_wf(connections@),
                connections@.dom() == old(connections)@.dom(),
                forall|id: u128|
                    #[trigger] old(connections)@.contains_key(id) ==> if recipients@.take(i as int).contains(id) {
                        queued_updates(old(connections)@[id], connections@[id], updates@)
                    } else {
                        connections@[id] == old(connections)@[id]
                    },
            decreases recipients@.len() - i,
        {
            let id = recipients[i];
            assert(recipients@.to_set().contains(id));
            assert(!recipients@.take(i as int).contains(id)) by {
                if recipients@.take(i as int).contains(id) {
                    let j = choose|j: int| 0 <= j < i && recipients@.take(i as int)[j] == id;
                    assert(recipients@[j] == recipients@[i as int]);
                }
            }
            let ghost before = connections@;
            let mut connection = connections.remove(&id).unwrap();
            let ghost c0 = connection;
            assert(c0 == old(connections)@[id]);
            connection.send_updates(&self.state, &updates);
            assert(queued_updates(c0, connection, updates@));
            connections.insert(id, connection);
            proof {
                assert(recipients@.take(i + 1) == recipients@.take(i as int).push(id));
                assert(connections@.dom() =~= before.dom());
                assert forall|k: u128| #[trigger] old(connections)@.contains_key(k) implies if recipients@.take(
                    i + 1,
                ).contains(k) {
                    queued_updates(old(connections)@[k], connections@[k], updates@)
                } else {
                    connections@[k] == old(connections)@[k]
                } by {
                    if k != id {
                        assert(connections@[k] == before[k]);
                        assert(recipients@.take(i + 1).contains(k) == recipients@.take(i as int).contains(k));
                    } else {
                        assert(recipients@.take(i + 1)[i as int] == id);
                    }
                }
            }
            i = i + 1;
        }
        proof {
            assert(recipients@.take(i as int) == recipients@);
            assert forall|k: u128| #[trigger] old(connections)@.contains_key(k) implies !updates@.is_empty()
                || !recipients@.take(i as int).contains(k) by {}
        }
        recipients
    }
}

} // verus!
