//! Keeps the latest state of a game and decides when and what to write to its
//! snapshot files.
use vstd::prelude::*;
use crate::manager::{JSONStateListener, JSONStateManager};
use crate::path_syntax::path_tokens;
use crate::path_trie::{covered_by, intersect, PathTrie};
use crate::state_trie::{entries_view, StateTrie, StateView};

verus! {

/// What the snapshotter reads of a game: its id and the name of its files.
pub struct Game {
    pub id: String,
    pub filename: String,
}

/// Keeps the latest state and writes the parts of it that its filters cover to the
/// game's snapshot file when asked to.
pub struct JSONStateSnapshotter {
    directory: String,
    filename: String,
    write_on_next_update: bool,
    state: StateTrie,
    filters: PathTrie,
    use_metrics: bool,
}

/// The filter pattern that selects the data of the game `id`.
pub open spec fn game_pattern(id: Seq<char>) -> Seq<char> {
    "ScoreBoard.Game("@ + id + ")"@
}

impl JSONStateSnapshotter {
    #[verifier::type_invariant]
    closed spec fn inv(&self) -> bool {
        self.filters.well_formed()
    }

    pub closed spec fn spec_directory(&self) -> Seq<char> {
        self.directory@
    }

    pub closed spec fn spec_filename(&self) -> Seq<char> {
        self.filename@
    }

    pub closed spec fn spec_write_on_next_update(&self) -> bool {
        self.write_on_next_update
    }

    pub closed spec fn spec_state(&self) -> StateView {
        self.state@
    }

    pub closed spec fn spec_filters(&self) -> PathTrie {
        self.filters
    }

    pub closed spec fn spec_use_metrics(&self) -> bool {
        self.use_metrics
    }

    /// A snapshotter for the game `g`, writing under `directory`: its state is empty,
    /// no write is pending, and its filters are `ScoreBoard.Version` and
    /// `ScoreBoard.Game(<id of g>)`.
    pub fn new(jsm: JSONStateManager, g: Game, use_metrics: bool, directory: String) -> (r: Self)
        ensures
            r.spec_directory() == directory@,
            r.spec_filename() == g.filename@,
            !r.spec_write_on_next_update(),
            r.spec_state() == (StateView { is_path: false, value: None, subtries: Seq::empty() }),
            r.spec_filters().well_formed(),
            r.spec_filters().patterns() == set![
                path_tokens("ScoreBoard.Version"@),
                path_tokens(game_pattern(g.id@)),
            ],
            r.spec_use_metrics() == use_metrics,
    {
        let mut filters = PathTrie::empty();
        filters.add("ScoreBoard.Version");
        let pattern = String::from_str("ScoreBoard.Game(").concat(g.id.as_str()).concat(")");
        filters.add(pattern.as_str());
        proof {
            assert(pattern@ == game_pattern(g.id@));
            assert(filters.patterns() =~= set![
                path_tokens("ScoreBoard.Version"@),
                path_tokens(game_pattern(g.id@)),
            ]);
        }
        JSONStateSnapshotter {
            directory,
            filename: g.filename,
            write_on_next_update: false,
            state: StateTrie::empty(),
            filters,
            use_metrics,
        }
    }

    /// The next update of the state is to be written to disk.
    pub fn write_on_next_update(&mut self)
        ensures
            final(self).spec_write_on_next_update(),
            final(self).spec_directory() == old(self).spec_directory(),
            final(self).spec_filename() == old(self).spec_filename(),
            final(self).spec_state() == old(self).spec_state(),
            final(self).spec_filters() == old(self).spec_filters(),
            final(self).spec_use_metrics() == old(self).spec_use_metrics(),
    {
        proof {
            use_type_invariant(&*self);
        }
        self.write_on_next_update = true;
    }

    /// Renames the game's files to `new_name`.
    pub fn set_filename(&mut self, new_name: String)
        ensures
            final(self).spec_filename() == new_name@,
            final(self).spec_write_on_next_update() == old(self).spec_write_on_next_update(),
            final(self).spec_directory() == old(self).spec_directory(),
            final(self).spec_state() == old(self).spec_state(),
            final(self).spec_filters() == old(self).spec_filters(),
            final(self).spec_use_metrics() == old(self).spec_use_metrics(),
    {
        proof {
            use_type_invariant(&*self);
        }
        self.filename = new_name;
    }

    /// The directory the snapshot files are written under.
    pub fn directory(&self) -> (r: String)
        ensures
            r@ == self.spec_directory(),
    {
        self.directory.clone()
    }

    /// Whether the time spent writing snapshots is measured.
    pub fn use_metrics(&self) -> (r: bool)
        ensures
            r == self.spec_use_metrics(),
    {
        self.use_metrics
    }

    /// The name of the snapshot file: the game's file name with `.json` added.
    pub fn snapshot_file_name(&self) -> (r: String)
        ensures
            r@ == self.spec_filename() + ".json"@,
    {
        self.filename.clone().concat(".json")
    }

    /// The name the previous snapshot is kept under: the game's file name with
    /// `_prev.json` added.
    pub fn previous_file_name(&self) -> (r: String)
        ensures
            r@ == self.spec_filename() + "_prev.json"@,
    {
        self.filename.clone().concat("_prev.json")
    }

    /// What a snapshot holds: the (path, value) pairs of the state that the filters
    /// cover, those whose path ends in `Secret` left out.
    pub fn snapshot_content(&self) -> (r: Vec<(String, String)>)
        ensures
            entries_view(r@) == covered_by(
                self.spec_filters(),
                self.spec_state().entries(Seq::empty(), true),
            ),
    {
        proof {
            use_type_invariant(self);
        }
        intersect(&self.filters, &self.state, true)
    }
}

impl JSONStateListener for JSONStateSnapshotter {
    /// The snapshotter keeps `state`, reports whether a write was pending and has none
    /// pending afterwards; the rest stays as it was.
    open spec fn takes_updates(
        &self,
        state: StateView,
        changes: StateView,
        report: bool,
        after: Self,
    ) -> bool {
        &&& report == self.spec_write_on_next_update()
        &&& !after.spec_write_on_next_update()
        &&& after.spec_state() == state
        &&& after.spec_directory() == self.spec_directory()
        &&& after.spec_filename() == self.spec_filename()
        &&& after.spec_filters() == self.spec_filters()
        &&& after.spec_use_metrics() == self.spec_use_metrics()
    }

    /// Keeps a copy of `state`; returns whether a write was pending, which is then
    /// no longer the case: the caller writes the snapshot when `true` comes back.
    fn send_updates(&mut self, state: &StateTrie, changes: &StateTrie) -> (r: bool)
        ensures
            r == old(self).spec_write_on_next_update(),
            !final(self).spec_write_on_next_update(),
            final(self).spec_state() == state@,
            final(self).spec_directory() == old(self).spec_directory(),
            final(self).spec_filename() == old(self).spec_filename(),
            final(self).spec_filters() == old(self).spec_filters(),
            final(self).spec_use_metrics() == old(self).spec_use_metrics(),
    {
        proof {
            use_type_invariant(&*self);
        }
        self.state = state.copy();
        let pending = self.write_on_next_update;
        self.write_on_next_update = false;
        pending
    }
}

} // verus!
