//! The scoreboard's state: a trie of values indexed by state paths.
//!
//! A state path such as `ScoreBoard.Period(1).Jam` is cut into keys just before each
//! delimiter (see [`state_segments`]): `ScoreBoard`, `.Period`, `(1)`, `.Jam`; each
//! key leads one level down.  A node marked as a path may hold a value (the JSON text
//! of it).
use vstd::prelude::*;
use std::collections::HashMap;
use crate::path_syntax::{
    chars_of, concat_all, lemma_state_segments_concat, split_state_key, state_segments, strings_view,
};
use crate::path_trie::{covered_by, intersect, PathTrie};

verus! {

/// The mathematical value of a state trie: whether the node is a path, its value, and
/// its subtries in order.
pub ghost struct StateView {
    pub is_path: bool,
    pub value: Option<Seq<char>>,
    pub subtries: Seq<(Seq<char>, StateView)>,
}

/// A state trie.  `content` is kept as it was given to [`StateTrie::new`] and is not
/// read by any operation.
#[derive(Debug)]
pub struct StateTrie {
    content: HashMap<String, String>,
    is_path: bool,
    value: Option<String>,
    subtries: Vec<(String, StateTrie)>,
}

pub open spec fn opt_view(o: Option<String>) -> Option<Seq<char>> {
    match o {
        Some(s) => Some(s@),
        None => None,
    }
}

/// Position of the first subtrie under key `k`, or -1.
pub open spec fn key_pos(s: Seq<(Seq<char>, StateView)>, k: Seq<char>) -> int
    decreases s.len(),
{
    if s.len() == 0 {
        -1
    } else if s[0].0 == k {
        0
    } else {
        let r = key_pos(s.drop_first(), k);
        if r < 0 {
            -1
        } else {
            r + 1
        }
    }
}

pub proof fn lemma_key_pos(s: Seq<(Seq<char>, StateView)>, k: Seq<char>)
    ensures
        -1 <= key_pos(s, k) < s.len(),
        key_pos(s, k) >= 0 ==> s[key_pos(s, k)].0 == k,
        forall|i: int| 0 <= i < s.len() && (key_pos(s, k) < 0 || i < key_pos(s, k)) ==> s[i].0 != k,
    decreases s.len(),
{
    if s.len() > 0 && s[0].0 != k {
        lemma_key_pos(s.drop_first(), k);
        assert forall|i: int|
            0 <= i < s.len() && (key_pos(s, k) < 0 || i < key_pos(s, k)) implies s[i].0 != k by {
            if i > 0 {
                assert(s[i] == s.drop_first()[i - 1]);
            }
        }
    }
}

pub proof fn lemma_key_pos_at(s: Seq<(Seq<char>, StateView)>, k: Seq<char>, j: int)
    requires
        -1 <= j <= s.len(),
        forall|i: int| 0 <= i < s.len() && (j < 0 || i < j) ==> s[i].0 != k,
        0 <= j < s.len() ==> s[j].0 == k,
        j == s.len() ==> false,
    ensures
        key_pos(s, k) == j,
{
    lemma_key_pos(s, k);
    let p = key_pos(s, k);
    if p >= 0 && (j < 0 || p < j) {
        assert(s[p].0 != k);
    }
    if j >= 0 && (p < 0 || j < p) {
        assert(s[j].0 != k);
    }
}

impl StateView {
    /// The node holds nothing: it is not a path and has no subtrie.
    pub open spec fn is_empty(self) -> bool {
        !self.is_path && self.subtries.len() == 0
    }

    /// The subtrie under `k` (the first one, were there several).
    pub open spec fn sub(self, k: Seq<char>) -> Option<StateView> {
        let p = key_pos(self.subtries, k);
        if p >= 0 {
            Some(self.subtries[p].1)
        } else {
            None
        }
    }

    /// The value reached by following the keys `path`.
    pub open spec fn lookup(self, path: Seq<Seq<char>>) -> Option<Seq<char>>
        decreases path.len(),
    {
        if path.len() == 0 {
            self.value
        } else {
            match self.sub(path[0]) {
                Some(c) => c.lookup(path.drop_first()),
                None => None,
            }
        }
    }

    /// A copy of the trie; with `null_values` every value is dropped.
    pub open spec fn cloned(self, null_values: bool) -> StateView
        decreases self,
    {
        StateView {
            is_path: self.is_path,
            value: if null_values {
                None
            } else {
                self.value
            },
            subtries: Seq::new(
                self.subtries.len(),
                |i: int|
                    if 0 <= i < self.subtries.len() {
                        (self.subtries[i].0, self.subtries[i].1.cloned(null_values))
                    } else {
                        (Seq::empty(), self)
                    },
            ),
        }
    }

    /// The number of nodes that are paths.
    pub open spec fn count(self) -> int
        decreases self, 1int,
    {
        (if self.is_path {
            1int
        } else {
            0int
        }) + sum(self.child_counts())
    }

    /// The counts of the subtries, in order.
    pub open spec fn child_counts(self) -> Seq<int>
        decreases self, 0int,
    {
        Seq::new(
            self.subtries.len(),
            |i: int|
                if 0 <= i < self.subtries.len() {
                    self.subtries[i].1.count()
                } else {
                    0
                },
        )
    }
}

/// Sum of a sequence of integers.
pub open spec fn sum(s: Seq<int>) -> int
    decreases s.len(),
{
    if s.len() == 0 {
        0
    } else {
        sum(s.drop_last()) + s.last()
    }
}

pub proof fn lemma_sum_nonneg(s: Seq<int>)
    requires
        forall|i: int| 0 <= i < s.len() ==> s[i] >= 0,
    ensures
        sum(s) >= 0,
        forall|i: int| 0 <= i <= s.len() ==> sum(#[trigger] s.take(i)) <= sum(s),
    decreases s.len(),
{
    if s.len() > 0 {
        lemma_sum_nonneg(s.drop_last());
        assert forall|i: int| 0 <= i <= s.len() implies sum(#[trigger] s.take(i)) <= sum(s) by {
            if i < s.len() {
                assert(s.take(i) == s.drop_last().take(i));
            } else {
                assert(s.take(i) == s);
            }
        }
    }
}


impl StateView {
    /// The trie after clearing the node at the end of `path`: that node stops being a
    /// path and loses its value; on the way back up, a subtrie that is left empty (no
    /// path and no subtrie, see [`StateView::is_empty`]) is dropped from its parent.
    pub open spec fn removed(self, path: Seq<Seq<char>>) -> StateView
        decreases path.len(),
    {
        if path.len() == 0 {
            StateView { is_path: false, value: None, subtries: self.subtries }
        } else {
            let j = key_pos(self.subtries, path[0]);
            if j >= 0 {
                let c = self.subtries[j].1.removed(path.drop_first());
                if c.is_empty() {
                    StateView { subtries: self.subtries.remove(j), ..self }
                } else {
                    StateView { subtries: self.subtries.update(j, (path[0], c)), ..self }
                }
            } else {
                self
            }
        }
    }

    /// The (path, value) pairs of the trie, depth first, each path being `prefix`
    /// followed by the keys down to the node.  A node contributes when it is a path
    /// with a value, unless `filter_secrets` is set and its path ends in `Secret`.
    pub open spec fn entries(self, prefix: Seq<char>, filter_secrets: bool) -> Seq<(Seq<char>, Seq<char>)>
        decreases self, 1int,
    {
        let own = if self.is_path && (!filter_secrets || !ends_with_secret(prefix))
            && self.value is Some {
            seq![(prefix, self.value->Some_0)]
        } else {
            Seq::empty()
        };
        own + concat_entries(self.child_entries(prefix, filter_secrets))
    }

    /// The entries of each subtrie, in order, each under `prefix` followed by its key.
    pub open spec fn child_entries(self, prefix: Seq<char>, filter_secrets: bool) -> Seq<
        Seq<(Seq<char>, Seq<char>)>,
    >
        decreases self, 0int,
    {
        Seq::new(
            self.subtries.len(),
            |i: int|
                if 0 <= i < self.subtries.len() {
                    self.subtries[i].1.entries(prefix + self.subtries[i].0, filter_secrets)
                } else {
                    Seq::empty()
                },
        )
    }

    /// The changes of the trie as a client is told of them, depth first, each path
    /// being `prefix` followed by the keys down to the node: every node that is a path
    /// contributes its value, or `null` when it has none (a deleted key), unless
    /// `filter_secrets` is set and its path ends in `Secret`.
    pub open spec fn change_entries(self, prefix: Seq<char>, filter_secrets: bool) -> Seq<(Seq<char>, Seq<char>)>
        decreases self, 1int,
    {
        let own = if self.is_path && (!filter_secrets || !ends_with_secret(prefix)) {
            seq![(prefix, shown_value(self.value))]
        } else {
            Seq::empty()
        };
        own + concat_entries(self.child_change_entries(prefix, filter_secrets))
    }

    /// The change entries of each subtrie, in order, each under `prefix` followed by
    /// its key.
    pub open spec fn child_change_entries(self, prefix: Seq<char>, filter_secrets: bool) -> Seq<
        Seq<(Seq<char>, Seq<char>)>,
    >
        decreases self, 0int,
    {
        Seq::new(
            self.subtries.len(),
            |i: int|
                if 0 <= i < self.subtries.len() {
                    self.subtries[i].1.change_entries(prefix + self.subtries[i].0, filter_secrets)
                } else {
                    Seq::empty()
                },
        )
    }

    /// No two subtries of any node share a key.
    pub open spec fn keys_unique(self) -> bool
        decreases self,
    {
        &&& forall|i: int, j: int|
            0 <= i < self.subtries.len() && 0 <= j < self.subtries.len() && i != j
                ==> self.subtries[i].0 != self.subtries[j].0
        &&& forall|i: int| 0 <= i < self.subtries.len() ==> (#[trigger] self.subtries[i]).1.keys_unique()
    }
}

/// The JSON text a client is shown for a value: the value, or `null` when there is
/// none.
pub open spec fn shown_value(v: Option<Seq<char>>) -> Seq<char> {
    match v {
        Some(t) => t,
        None => "null"@,
    }
}

/// `s` ends with `Secret`.
pub open spec fn ends_with_secret(s: Seq<char>) -> bool {
    s.len() >= 6 && s.subrange(s.len() - 6, s.len() as int) == seq!['S', 'e', 'c', 'r', 'e', 't']
}

/// Concatenation of a sequence of entry lists.
pub open spec fn concat_entries(s: Seq<Seq<(Seq<char>, Seq<char>)>>) -> Seq<(Seq<char>, Seq<char>)>
    decreases s.len(),
{
    if s.len() == 0 {
        Seq::empty()
    } else {
        concat_entries(s.drop_last()) + s.last()
    }
}

pub open spec fn entries_view(v: Seq<(String, String)>) -> Seq<(Seq<char>, Seq<char>)> {
    v.map_values(|e: (String, String)| (e.0@, e.1@))
}

proof fn lemma_count_nonneg(v: StateView)
    ensures
        v.count() >= 0,
    decreases v,
{
    let cs = v.child_counts();
    assert forall|i: int| 0 <= i < cs.len() implies cs[i] >= 0 by {
        lemma_count_nonneg(v.subtries[i].1);
    }
    lemma_sum_nonneg(cs);
}

/// Whether `s` ends with `Secret`.
fn ends_with_secret_exec(s: &str) -> (r: bool)
    ensures
        r == ends_with_secret(s@),
{
    let chars = chars_of(s);
    let n = chars.len();
    if n < 6 {
        return false;
    }
    let r = chars[n - 6] == 'S' && chars[n - 5] == 'e' && chars[n - 4] == 'c' && chars[n - 3] == 'r'
        && chars[n - 2] == 'e' && chars[n - 1] == 't';
    proof {
        let tail = s@.subrange(n - 6, n as int);
        if r {
            assert(tail =~= seq!['S', 'e', 'c', 'r', 'e', 't']);
        } else {
            if tail == seq!['S', 'e', 'c', 'r', 'e', 't'] {
                assert(tail[0] == chars@[n - 6]);
                assert(tail[1] == chars@[n - 5]);
                assert(tail[2] == chars@[n - 4]);
                assert(tail[3] == chars@[n - 3]);
                assert(tail[4] == chars@[n - 2]);
                assert(tail[5] == chars@[n - 1]);
            }
        }
    }
    r
}


/// The values of the `Some` entries of `s`, in order.
pub open spec fn somes<T>(s: Seq<Option<T>>) -> Seq<T>
    decreases s.len(),
{
    if s.len() == 0 {
        Seq::empty()
    } else {
        match s.last() {
            Some(x) => somes(s.drop_last()).push(x),
            None => somes(s.drop_last()),
        }
    }
}

proof fn lemma_somes_take<T>(s: Seq<Option<T>>, i: int)
    requires
        0 <= i < s.len(),
    ensures
        somes(s.take(i + 1)) == match s[i] {
            Some(x) => somes(s.take(i)).push(x),
            None => somes(s.take(i)),
        },
{
    assert(s.take(i + 1).drop_last() == s.take(i));
    assert(s.take(i + 1).last() == s[i]);
}

impl StateView {
    /// Whether the node stays a path once cleaned: a path without a value does not.
    pub open spec fn cleaned_is_path(self) -> bool {
        self.is_path && self.value is Some
    }

    /// The cleaned copy of a trie: a path without a value stops being a path; a node
    /// that is then no path and has no subtrie gives nothing; else the copy keeps the value
    /// and the cleaned copies of its subtries (those that give something).
    pub open spec fn cleaned(self) -> Option<StateView>
        decreases self, 1int,
    {
        if !self.cleaned_is_path() && self.subtries.len() == 0 {
            None
        } else {
            Some(
                StateView {
                    is_path: self.cleaned_is_path(),
                    value: self.value,
                    subtries: somes(self.child_cleaned()),
                },
            )
        }
    }

    pub open spec fn child_cleaned(self) -> Seq<Option<(Seq<char>, StateView)>>
        decreases self, 0int,
    {
        Seq::new(
            self.subtries.len(),
            |i: int|
                if 0 <= i < self.subtries.len() {
                    match self.subtries[i].1.cleaned() {
                        Some(c) => Some((self.subtries[i].0, c)),
                        None => None,
                    }
                } else {
                    None
                },
        )
    }
}

/// The node fields of the merge of `change` into `state`: whether it is a path, its
/// value, and whether the subtries are merged in removing mode.
///
/// When `change` is a path: an unchanged value keeps the node as it was; otherwise the
/// node takes the changed value and is a path exactly when that value is present,
/// and removing mode starts if the node had no value.  When `change` is not a path,
/// the node keeps its fields, except that removing mode clears them.
pub open spec fn merge_top(state: StateView, change: StateView, removing: bool) -> (bool, Option<Seq<char>>, bool) {
    if change.is_path {
        if state.is_path && state.value == change.value {
            (true, state.value, removing)
        } else {
            (change.value is Some, change.value, removing || state.value is None)
        }
    } else {
        (state.is_path && !removing, if removing {
            None
        } else {
            state.value
        }, removing)
    }
}

impl StateView {
    /// The merge of the changes `change` into the state `self`.  The subtries are,
    /// first, those of `self` in order: one that `change` also has is merged and kept
    /// unless the merge is empty; one that `change` lacks is kept as it is, except in
    /// removing mode.  Then come the subtries of `change` whose key `self` lacks, as
    /// their cleaned copies (see [`StateView::cleaned`]).
    pub open spec fn merged(self, change: StateView, removing: bool) -> StateView
        decreases self, 1int,
    {
        let top = merge_top(self, change, removing);
        StateView {
            is_path: top.0,
            value: top.1,
            subtries: somes(self.merged_from_state(change, top.2)) + somes(
                self.merged_from_change(change),
            ),
        }
    }

    pub open spec fn merged_from_state(self, change: StateView, removing: bool) -> Seq<
        Option<(Seq<char>, StateView)>,
    >
        decreases self, 0int,
    {
        Seq::new(
            self.subtries.len(),
            |i: int|
                if 0 <= i < self.subtries.len() {
                    let k = self.subtries[i].0;
                    match change.sub(k) {
                        Some(cs) => {
                            let m = self.subtries[i].1.merged(cs, removing);
                            if m.is_empty() {
                                None
                            } else {
                                Some((k, m))
                            }
                        },
                        None => if removing {
                            None
                        } else {
                            Some((k, self.subtries[i].1))
                        },
                    }
                } else {
                    None
                },
        )
    }

    pub open spec fn merged_from_change(self, change: StateView) -> Seq<Option<(Seq<char>, StateView)>> {
        Seq::new(
            change.subtries.len(),
            |j: int|
                if self.sub(change.subtries[j].0) is Some {
                    None
                } else {
                    match change.subtries[j].1.cleaned() {
                        Some(c) => Some((change.subtries[j].0, c)),
                        None => None,
                    }
                },
        )
    }
}


/// A list that holds no key twice has no other entry under the key of entry `j`.
proof fn lemma_unique_key(s: Seq<(Seq<char>, StateView)>, j: int)
    requires
        0 <= j < s.len(),
        forall|a: int, b: int| 0 <= a < s.len() && 0 <= b < s.len() && a != b ==> s[a].0 != s[b].0,
    ensures
        key_pos(s.remove(j), s[j].0) == -1,
{
    let r = s.remove(j);
    assert forall|i: int| 0 <= i < r.len() implies r[i].0 != s[j].0 by {
        if i < j {
            assert(r[i] == s[i]);
        } else {
            assert(r[i] == s[i + 1]);
        }
    }
    lemma_key_pos_at(r, s[j].0, -1);
}

/// Law: once the node at `path` is removed, reading `path` gives nothing (in a trie
/// where no node has two subtries under one key).
pub proof fn law_get_after_remove(t: StateView, path: Seq<Seq<char>>)
    requires
        t.keys_unique(),
    ensures
        t.removed(path).lookup(path) is None,
    decreases path.len(),
{
    if path.len() > 0 {
        let k = path[0];
        let j = key_pos(t.subtries, k);
        lemma_key_pos(t.subtries, k);
        if j >= 0 {
            let child = t.subtries[j].1;
            assert(child.keys_unique());
            law_get_after_remove(child, path.drop_first());
            let c = child.removed(path.drop_first());
            if c.is_empty() {
                lemma_unique_key(t.subtries, j);
            } else {
                let u = t.subtries.update(j, (k, c));
                assert forall|i: int| 0 <= i < u.len() && i < j implies u[i].0 != k by {
                    assert(u[i] == t.subtries[i]);
                }
                lemma_key_pos_at(u, k, j);
            }
        }
    }
}

proof fn lemma_somes_all<T>(x: Seq<Option<T>>, y: Seq<T>)
    requires
        x.len() == y.len(),
        forall|i: int| 0 <= i < x.len() ==> x[i] == Some(y[i]),
    ensures
        somes(x) == y,
    decreases x.len(),
{
    if x.len() > 0 {
        lemma_somes_all(x.drop_last(), y.drop_last());
        assert(y.drop_last().push(y.last()) == y);
    }
}

/// Law: merging a change trie that is not a path and has no subtrie (such as an
/// empty one) gives the state back unchanged.
pub proof fn law_merge_without_changes(state: StateView, change: StateView)
    requires
        !change.is_path,
        change.subtries.len() == 0,
    ensures
        state.merged(change, false) == state,
{
    let from_state = state.merged_from_state(change, false);
    assert forall|i: int| 0 <= i < from_state.len() implies from_state[i] == Some(state.subtries[i]) by {
        assert(key_pos(change.subtries, state.subtries[i].0) == -1);
    }
    lemma_somes_all(from_state, state.subtries);
    let from_change = state.merged_from_change(change);
    assert(from_change.len() == 0);
    assert(somes(from_change) == Seq::<(Seq<char>, StateView)>::empty());
    assert(state.subtries + Seq::<(Seq<char>, StateView)>::empty() == state.subtries);
}

impl StateView {
    /// `change` deletes the key `path`: the node it reaches along `path` is a path
    /// without a value (a null value).
    pub open spec fn deletes(self, path: Seq<Seq<char>>) -> bool
        decreases path.len(),
    {
        if path.len() == 0 {
            self.is_path && self.value is None
        } else {
            match self.sub(path[0]) {
                Some(c) => c.deletes(path.drop_first()),
                None => false,
            }
        }
    }
}

/// The key of an entry that is there.
pub open spec fn opt_key(o: Option<(Seq<char>, StateView)>) -> Seq<char> {
    match o {
        Some(e) => e.0,
        None => Seq::empty(),
    }
}

/// The subtrie of an entry that is there.
pub open spec fn opt_tree(o: Option<(Seq<char>, StateView)>) -> StateView {
    match o {
        Some(e) => e.1,
        None => StateView { is_path: false, value: None, subtries: Seq::empty() },
    }
}

/// The subtrie under `k` in a list of subtries, as [`StateView::sub`] finds it.
pub open spec fn sub_in(s: Seq<(Seq<char>, StateView)>, k: Seq<char>) -> Option<StateView> {
    let p = key_pos(s, k);
    if p >= 0 {
        Some(s[p].1)
    } else {
        None
    }
}

proof fn lemma_key_pos_push(s: Seq<(Seq<char>, StateView)>, x: (Seq<char>, StateView), k: Seq<char>)
    ensures
        key_pos(s.push(x), k) == if key_pos(s, k) >= 0 {
            key_pos(s, k)
        } else if x.0 == k {
            s.len() as int
        } else {
            -1
        },
{
    lemma_key_pos(s, k);
    let t = s.push(x);
    let j = if key_pos(s, k) >= 0 {
        key_pos(s, k)
    } else if x.0 == k {
        s.len() as int
    } else {
        -1
    };
    assert forall|i: int| 0 <= i < t.len() && (j < 0 || i < j) implies t[i].0 != k by {
        if i < s.len() {
            assert(t[i] == s[i]);
        }
    }
    if 0 <= j < s.len() {
        assert(t[j] == s[j]);
    }
    lemma_key_pos_at(t, k, j);
}

/// In the `Some` entries of `xs`, where at most entry `j` has the key `k`, the subtrie
/// under `k` is the one of entry `j`, if that entry is there.
proof fn lemma_sub_in_somes(xs: Seq<Option<(Seq<char>, StateView)>>, k: Seq<char>, j: int)
    requires
        -1 <= j < xs.len(),
        forall|i: int| 0 <= i < xs.len() && i != j && (#[trigger] xs[i]) is Some ==> opt_key(xs[i]) != k,
        0 <= j && xs[j] is Some ==> opt_key(xs[j]) == k,
    ensures
        sub_in(somes(xs), k) == if 0 <= j && xs[j] is Some {
            Some(opt_tree(xs[j]))
        } else {
            None
        },
    decreases xs.len(),
{
    if xs.len() == 0 {
        return;
    }
    let front = xs.drop_last();
    let n = xs.len() - 1;
    let jj = if j == n {
        -1
    } else {
        j
    };
    assert forall|i: int| 0 <= i < front.len() && i != jj && (#[trigger] front[i]) is Some implies opt_key(front[i]) != k by {
        assert(front[i] == xs[i]);
    }
    if 0 <= jj {
        assert(front[jj] == xs[jj]);
    }
    lemma_sub_in_somes(front, k, jj);
    let sf = somes(front);
    lemma_key_pos(sf, k);
    match xs.last() {
        Some(e) => {
            assert(somes(xs) == sf.push(e));
            lemma_key_pos_push(sf, e, k);
            if key_pos(sf, k) >= 0 {
                assert(sf.push(e)[key_pos(sf, k)] == sf[key_pos(sf, k)]);
            } else if e.0 == k {
                assert(sf.push(e)[sf.len() as int] == e);
            }
        },
        None => {
            assert(somes(xs) == sf);
        },
    }
}

proof fn lemma_somes_append<T>(a: Seq<Option<T>>, b: Seq<Option<T>>)
    ensures
        somes(a + b) == somes(a) + somes(b),
    decreases b.len(),
{
    if b.len() == 0 {
        assert(a + b == a);
        assert(somes(a) + somes(b) == somes(a));
    } else {
        lemma_somes_append(a, b.drop_last());
        assert((a + b).drop_last() == a + b.drop_last());
        assert((a + b).last() == b.last());
        match b.last() {
            Some(x) => {
                assert(somes(a) + somes(b.drop_last()).push(x) == (somes(a) + somes(b.drop_last())).push(x));
            },
            None => {},
        }
    }
}

/// The cleaned copy of a trie that deletes `path` holds no value at `path`.
proof fn lemma_cleaned_keeps_deletion(c: StateView, path: Seq<Seq<char>>)
    requires
        c.keys_unique(),
        c.deletes(path),
    ensures
        c.cleaned() matches Some(v) ==> v.lookup(path) is None,
    decreases path.len(),
{
    if path.len() > 0 {
        let k = path[0];
        let j = key_pos(c.subtries, k);
        lemma_key_pos(c.subtries, k);
        let xs = c.child_cleaned();
        assert forall|i: int| 0 <= i < xs.len() && i != j && (#[trigger] xs[i]) is Some implies opt_key(xs[i]) != k by {
            assert(opt_key(xs[i]) == c.subtries[i].0);
        }
        lemma_sub_in_somes(xs, k, j);
        let d = c.subtries[j].1;
        assert(d.keys_unique());
        lemma_cleaned_keeps_deletion(d, path.drop_first());
    }
}

/// The merge of changes that delete `path` holds no value at `path`.
proof fn lemma_merge_keeps_deletion(state: StateView, change: StateView, removing: bool, path: Seq<Seq<char>>)
    requires
        state.keys_unique(),
        change.keys_unique(),
        change.deletes(path),
    ensures
        state.merged(change, removing).lookup(path) is None,
    decreases path.len(),
{
    if path.len() > 0 {
        let k = path[0];
        let top = merge_top(state, change, removing);
        let fs = state.merged_from_state(change, top.2);
        let fc = state.merged_from_change(change);
        let xs = fs + fc;
        lemma_somes_append(fs, fc);
        let js = key_pos(state.subtries, k);
        let jc = key_pos(change.subtries, k);
        lemma_key_pos(state.subtries, k);
        lemma_key_pos(change.subtries, k);
        let cs = change.subtries[jc].1;
        assert(cs.keys_unique());
        if js >= 0 {
            assert forall|i: int| 0 <= i < xs.len() && i != js && (#[trigger] xs[i]) is Some implies opt_key(xs[i]) != k by {
                if i < fs.len() {
                    assert(xs[i] == fs[i]);
                } else {
                    assert(xs[i] == fc[i - fs.len()]);
                }
            }
            assert(xs[js] == fs[js]);
            lemma_sub_in_somes(xs, k, js);
            assert(state.subtries[js].1.keys_unique());
            lemma_merge_keeps_deletion(state.subtries[js].1, cs, top.2, path.drop_first());
        } else {
            let j = fs.len() + jc;
            assert forall|i: int| 0 <= i < xs.len() && i != j && (#[trigger] xs[i]) is Some implies opt_key(xs[i]) != k by {
                if i < fs.len() {
                    assert(xs[i] == fs[i]);
                } else {
                    assert(xs[i] == fc[i - fs.len()]);
                }
            }
            assert(xs[j] == fc[jc]);
            lemma_sub_in_somes(xs, k, j);
            lemma_cleaned_keeps_deletion(cs, path.drop_first());
        }
    }
}

/// Law: a key that the changes delete (a null value) reads as absent in the merged
/// state, whatever the state held there (in tries where no node has two subtries
/// under one key).
pub proof fn law_deleted_key_is_absent_after_merge(state: StateView, change: StateView, path: Seq<Seq<char>>)
    requires
        state.keys_unique(),
        change.keys_unique(),
        change.deletes(path),
    ensures
        state.merged(change, false).lookup(path) is None,
{
    lemma_merge_keeps_deletion(state, change, false, path);
}

/// The cleaned copy of a trie that sets `path` to `v` is there and reads `v` at `path`.
proof fn lemma_cleaned_keeps_set(c: StateView, path: Seq<Seq<char>>, v: Seq<char>)
    requires
        c.keys_unique(),
        c.sets(path, v),
    ensures
        c.cleaned() matches Some(w) && w.lookup(path) == Some(v),
    decreases path.len(),
{
    if path.len() > 0 {
        let k = path[0];
        let j = key_pos(c.subtries, k);
        lemma_key_pos(c.subtries, k);
        let xs = c.child_cleaned();
        assert forall|i: int| 0 <= i < xs.len() && i != j && (#[trigger] xs[i]) is Some implies opt_key(xs[i]) != k by {
            assert(opt_key(xs[i]) == c.subtries[i].0);
        }
        lemma_sub_in_somes(xs, k, j);
        let d = c.subtries[j].1;
        assert(d.keys_unique());
        lemma_cleaned_keeps_set(d, path.drop_first(), v);
    }
}

/// The merge of changes that set `path` to `v` reads `v` at `path`, and is not empty.
proof fn lemma_merge_keeps_set(state: StateView, change: StateView, removing: bool, path: Seq<Seq<char>>, v: Seq<char>)
    requires
        state.keys_unique(),
        change.keys_unique(),
        change.sets(path, v),
    ensures
        state.merged(change, removing).lookup(path) == Some(v),
        !state.merged(change, removing).is_empty(),
    decreases path.len(),
{
    if path.len() > 0 {
        let k = path[0];
        let top = merge_top(state, change, removing);
        let fs = state.merged_from_state(change, top.2);
        let fc = state.merged_from_change(change);
        let xs = fs + fc;
        lemma_somes_append(fs, fc);
        let js = key_pos(state.subtries, k);
        let jc = key_pos(change.subtries, k);
        lemma_key_pos(state.subtries, k);
        lemma_key_pos(change.subtries, k);
        let cs = change.subtries[jc].1;
        assert(cs.keys_unique());
        if js >= 0 {
            assert forall|i: int| 0 <= i < xs.len() && i != js && (#[trigger] xs[i]) is Some implies opt_key(xs[i]) != k by {
                if i < fs.len() {
                    assert(xs[i] == fs[i]);
                } else {
                    assert(xs[i] == fc[i - fs.len()]);
                }
            }
            assert(xs[js] == fs[js]);
            lemma_sub_in_somes(xs, k, js);
            assert(state.subtries[js].1.keys_unique());
            lemma_merge_keeps_set(state.subtries[js].1, cs, top.2, path.drop_first(), v);
        } else {
            let j = fs.len() + jc;
            assert forall|i: int| 0 <= i < xs.len() && i != j && (#[trigger] xs[i]) is Some implies opt_key(xs[i]) != k by {
                if i < fs.len() {
                    assert(xs[i] == fs[i]);
                } else {
                    assert(xs[i] == fc[i - fs.len()]);
                }
            }
            assert(xs[j] == fc[jc]);
            lemma_sub_in_somes(xs, k, j);
            lemma_cleaned_keeps_set(cs, path.drop_first(), v);
        }
        lemma_key_pos(somes(xs), k);
    }
}

/// Law: a key that the changes set to a value reads that value in the merged state
/// (in tries where no node has two subtries under one key).
pub proof fn law_set_key_reads_after_merge(state: StateView, change: StateView, path: Seq<Seq<char>>, v: Seq<char>)
    requires
        state.keys_unique(),
        change.keys_unique(),
        change.sets(path, v),
    ensures
        state.merged(change, false).lookup(path) == Some(v),
{
    lemma_merge_keeps_set(state, change, false, path, v);
}

/// Law: where the changes are not a path and have no subtrie under `k`, the merged
/// state keeps the state's subtrie under `k` as it was (in a state where no node has
/// two subtries under one key).
pub proof fn law_untouched_subtrie_is_kept(state: StateView, change: StateView, k: Seq<char>)
    requires
        state.keys_unique(),
        !change.is_path,
        change.sub(k) is None,
    ensures
        state.merged(change, false).sub(k) == state.sub(k),
{
    let fs = state.merged_from_state(change, false);
    let fc = state.merged_from_change(change);
    let xs = fs + fc;
    lemma_somes_append(fs, fc);
    let js = key_pos(state.subtries, k);
    lemma_key_pos(state.subtries, k);
    lemma_key_pos(change.subtries, k);
    assert forall|i: int| 0 <= i < xs.len() && i != js && (#[trigger] xs[i]) is Some implies opt_key(xs[i]) != k by {
        if i < fs.len() {
            assert(xs[i] == fs[i]);
        } else {
            assert(xs[i] == fc[i - fs.len()]);
        }
    }
    if js >= 0 {
        assert(xs[js] == fs[js]);
    }
    lemma_sub_in_somes(xs, k, js);
}

/// A node with no path, no value and no subtrie.
pub open spec fn empty_view() -> StateView {
    StateView { is_path: false, value: None, subtries: Seq::empty() }
}

impl StateView {
    /// The trie after setting the node at the end of `path` (created where missing, as
    /// the last subtrie of its parent) to a path with value `obj`; without a value the
    /// node also loses its subtries.
    pub open spec fn added(self, path: Seq<Seq<char>>, obj: Option<Seq<char>>) -> StateView
        decreases path.len(),
    {
        if path.len() == 0 {
            StateView {
                is_path: true,
                value: obj,
                subtries: if obj is None {
                    Seq::empty()
                } else {
                    self.subtries
                },
            }
        } else {
            let j = key_pos(self.subtries, path[0]);
            if j >= 0 {
                StateView {
                    subtries: self.subtries.update(
                        j,
                        (path[0], self.subtries[j].1.added(path.drop_first(), obj)),
                    ),
                    ..self
                }
            } else {
                StateView {
                    subtries: self.subtries.push((path[0], empty_view().added(path.drop_first(), obj))),
                    ..self
                }
            }
        }
    }

    /// `self` sets the key `path` to `v`: the node it reaches along `path` is a path
    /// with the value `v`.
    pub open spec fn sets(self, path: Seq<Seq<char>>, v: Seq<char>) -> bool
        decreases path.len(),
    {
        if path.len() == 0 {
            self.is_path && self.value == Some(v)
        } else {
            match self.sub(path[0]) {
                Some(c) => c.sets(path.drop_first(), v),
                None => false,
            }
        }
    }
}

/// The trie after adding each (key, value) pair of `content` in order.
pub open spec fn added_all(t: StateView, content: Seq<(String, Option<String>)>) -> StateView
    decreases content.len(),
{
    if content.len() == 0 {
        t
    } else {
        added_all(t, content.drop_last()).added(
            state_segments(content.last().0@),
            opt_view(content.last().1),
        )
    }
}

/// Replacing entry `j` (under key `k`) keeps `j` the first position of `k` and every
/// other key where it was.
proof fn lemma_key_pos_update(s: Seq<(Seq<char>, StateView)>, j: int, e: (Seq<char>, StateView), q: Seq<char>)
    requires
        0 <= j < s.len(),
        s[j].0 == e.0,
    ensures
        key_pos(s.update(j, e), q) == key_pos(s, q),
{
    lemma_key_pos(s, q);
    let t = s.update(j, e);
    let p = key_pos(s, q);
    assert forall|i: int| 0 <= i < t.len() && (p < 0 || i < p) implies t[i].0 != q by {
        assert(t[i].0 == s[i].0);
    }
    if p >= 0 {
        assert(t[p].0 == s[p].0);
    }
    lemma_key_pos_at(t, q, p);
}

/// Law: the added value is what the key then reads.
pub proof fn law_get_after_add(t: StateView, path: Seq<Seq<char>>, obj: Option<Seq<char>>)
    ensures
        t.added(path, obj).lookup(path) == obj,
        obj matches Some(v) ==> t.added(path, obj).sets(path, v),
    decreases path.len(),
{
    if path.len() > 0 {
        let k = path[0];
        let j = key_pos(t.subtries, k);
        lemma_key_pos(t.subtries, k);
        if j >= 0 {
            let c = t.subtries[j].1;
            lemma_key_pos_update(t.subtries, j, (k, c.added(path.drop_first(), obj)), k);
            law_get_after_add(c, path.drop_first(), obj);
        } else {
            lemma_key_pos_push(t.subtries, (k, empty_view().added(path.drop_first(), obj)), k);
            law_get_after_add(empty_view(), path.drop_first(), obj);
        }
    }
}

/// Law: adding keeps a trie free of repeated keys.
pub proof fn law_add_keeps_keys_unique(t: StateView, path: Seq<Seq<char>>, obj: Option<Seq<char>>)
    requires
        t.keys_unique(),
    ensures
        t.added(path, obj).keys_unique(),
    decreases path.len(),
{
    let a = t.added(path, obj);
    if path.len() > 0 {
        let k = path[0];
        let j = key_pos(t.subtries, k);
        lemma_key_pos(t.subtries, k);
        if j >= 0 {
            law_add_keeps_keys_unique(t.subtries[j].1, path.drop_first(), obj);
            assert forall|i: int| 0 <= i < a.subtries.len() implies (#[trigger] a.subtries[i]).1.keys_unique() by {
                if i != j {
                    assert(a.subtries[i] == t.subtries[i]);
                }
            }
            assert forall|x: int, y: int|
                0 <= x < a.subtries.len() && 0 <= y < a.subtries.len() && x != y implies a.subtries[x].0
                != a.subtries[y].0 by {
                assert(a.subtries[x].0 == t.subtries[x].0);
                assert(a.subtries[y].0 == t.subtries[y].0);
            }
        } else {
            law_add_keeps_keys_unique(empty_view(), path.drop_first(), obj);
            let n = t.subtries.len() as int;
            assert forall|i: int| 0 <= i < a.subtries.len() implies (#[trigger] a.subtries[i]).1.keys_unique() by {
                if i < n {
                    assert(a.subtries[i] == t.subtries[i]);
                }
            }
            assert forall|x: int, y: int|
                0 <= x < a.subtries.len() && 0 <= y < a.subtries.len() && x != y implies a.subtries[x].0
                != a.subtries[y].0 by {
                if x < n {
                    assert(a.subtries[x] == t.subtries[x]);
                }
                if y < n {
                    assert(a.subtries[y] == t.subtries[y]);
                }
            }
        }
    }
}

/// Law: adding under `path` leaves every key that branches off `path` reading as before.
pub proof fn law_add_keeps_other_keys(
    t: StateView,
    path: Seq<Seq<char>>,
    obj: Option<Seq<char>>,
    q: Seq<Seq<char>>,
    i: int,
)
    requires
        0 <= i < path.len(),
        i < q.len(),
        q[i] != path[i],
        forall|m: int| 0 <= m < i ==> q[m] == path[m],
    ensures
        t.added(path, obj).lookup(q) == t.lookup(q),
    decreases i,
{
    let k = path[0];
    let j = key_pos(t.subtries, k);
    lemma_key_pos(t.subtries, k);
    let a = t.added(path, obj);
    if i > 0 {
        assert(q[0] == path[0]);
        let p1 = path.drop_first();
        let q1 = q.drop_first();
        assert forall|m: int| 0 <= m < i - 1 implies q1[m] == p1[m] by {
            assert(q[m + 1] == path[m + 1]);
        }
        if j >= 0 {
            let c = t.subtries[j].1;
            let e = (k, c.added(p1, obj));
            lemma_key_pos_update(t.subtries, j, e, k);
            law_add_keeps_other_keys(c, p1, obj, q1, i - 1);
        } else {
            let e = (k, empty_view().added(p1, obj));
            lemma_key_pos_push(t.subtries, e, k);
            assert(a.subtries[t.subtries.len() as int] == e);
            law_add_keeps_other_keys(empty_view(), p1, obj, q1, i - 1);
            assert(empty_view().lookup(q1) is None) by {
                if q1.len() > 0 {
                    assert(key_pos(empty_view().subtries, q1[0]) == -1);
                }
            }
        }
    } else {
        let p = key_pos(t.subtries, q[0]);
        lemma_key_pos(t.subtries, q[0]);
        if j >= 0 {
            let c = t.subtries[j].1;
            let e = (k, c.added(path.drop_first(), obj));
            lemma_key_pos_update(t.subtries, j, e, q[0]);
            if p >= 0 {
                assert(p != j);
                assert(a.subtries[p] == t.subtries[p]);
            }
        } else {
            let e = (k, empty_view().added(path.drop_first(), obj));
            lemma_key_pos_push(t.subtries, e, q[0]);
            if p >= 0 {
                assert(a.subtries[p] == t.subtries[p]);
            }
        }
    }
}

/// Law: removing keeps a trie free of repeated keys.
pub proof fn law_remove_keeps_keys_unique(t: StateView, path: Seq<Seq<char>>)
    requires
        t.keys_unique(),
    ensures
        t.removed(path).keys_unique(),
    decreases path.len(),
{
    let r = t.removed(path);
    if path.len() > 0 {
        let k = path[0];
        let j = key_pos(t.subtries, k);
        lemma_key_pos(t.subtries, k);
        if j >= 0 {
            let c = t.subtries[j].1.removed(path.drop_first());
            law_remove_keeps_keys_unique(t.subtries[j].1, path.drop_first());
            if c.is_empty() {
                let u = t.subtries.remove(j);
                assert forall|i: int| 0 <= i < u.len() implies u[i] == t.subtries[if i < j { i } else { i + 1 }] by {}
                assert forall|i: int| 0 <= i < u.len() implies (#[trigger] u[i]).1.keys_unique() by {
                    assert(u[i] == t.subtries[if i < j { i } else { i + 1 }]);
                }
                assert forall|x: int, y: int| 0 <= x < u.len() && 0 <= y < u.len() && x != y implies u[x].0 != u[y].0 by {
                    assert(u[x] == t.subtries[if x < j { x } else { x + 1 }]);
                    assert(u[y] == t.subtries[if y < j { y } else { y + 1 }]);
                }
            } else {
                let u = t.subtries.update(j, (k, c));
                assert forall|i: int| 0 <= i < u.len() implies (#[trigger] u[i]).1.keys_unique() by {
                    if i != j {
                        assert(u[i] == t.subtries[i]);
                    }
                }
                assert forall|x: int, y: int| 0 <= x < u.len() && 0 <= y < u.len() && x != y implies u[x].0 != u[y].0 by {
                    assert(u[x].0 == t.subtries[x].0);
                    assert(u[y].0 == t.subtries[y].0);
                }
            }
        }
    }
}

/// Law: a copy, with or without its values, keeps a trie free of repeated keys.
pub proof fn law_clone_keeps_keys_unique(t: StateView, null_values: bool)
    requires
        t.keys_unique(),
    ensures
        t.cloned(null_values).keys_unique(),
    decreases t,
{
    let c = t.cloned(null_values);
    assert forall|i: int| 0 <= i < c.subtries.len() implies (#[trigger] c.subtries[i]).1.keys_unique() by {
        law_clone_keeps_keys_unique(t.subtries[i].1, null_values);
    }
}

/// The `Some` entries of a list whose entries carry distinct keys and tries free of
/// repeated keys: each comes from an entry of the list, and they too carry distinct
/// keys and such tries.
proof fn lemma_somes_keys(xs: Seq<Option<(Seq<char>, StateView)>>)
    requires
        forall|i: int, j: int|
            0 <= i < xs.len() && 0 <= j < xs.len() && i != j && xs[i] is Some && xs[j] is Some
                ==> opt_key(xs[i]) != opt_key(xs[j]),
        forall|i: int| 0 <= i < xs.len() && (#[trigger] xs[i]) is Some ==> opt_tree(xs[i]).keys_unique(),
    ensures
        forall|m: int| 0 <= m < somes(xs).len() ==> exists|i: int| 0 <= i < xs.len() && xs[i] == Some(#[trigger] somes(xs)[m]),
        forall|a: int, b: int|
            0 <= a < somes(xs).len() && 0 <= b < somes(xs).len() && a != b ==> somes(xs)[a].0 != somes(xs)[b].0,
        forall|m: int| 0 <= m < somes(xs).len() ==> (#[trigger] somes(xs)[m]).1.keys_unique(),
    decreases xs.len(),
{
    if xs.len() > 0 {
        let front = xs.drop_last();
        let n = xs.len() - 1;
        assert forall|i: int| 0 <= i < front.len() implies #[trigger] front[i] == xs[i] by {}
        lemma_somes_keys(front);
        let sf = somes(front);
        match xs.last() {
            Some(e) => {
                let s2 = sf.push(e);
                assert(somes(xs) == s2);
                assert forall|m: int| 0 <= m < s2.len() implies exists|i: int| 0 <= i < xs.len() && xs[i] == Some(#[trigger] s2[m]) by {
                    if m < sf.len() {
                        let i = choose|i: int| 0 <= i < front.len() && front[i] == Some(sf[m]);
                        assert(xs[i] == Some(s2[m]));
                    } else {
                        assert(xs[n] == Some(s2[m]));
                    }
                }
                assert forall|a: int, b: int| 0 <= a < s2.len() && 0 <= b < s2.len() && a != b implies s2[a].0 != s2[b].0 by {
                    if a < sf.len() && b == sf.len() {
                        let i = choose|i: int| 0 <= i < front.len() && front[i] == Some(sf[a]);
                        assert(xs[i] == Some(sf[a]));
                        assert(opt_key(xs[i]) != opt_key(xs[n]));
                    } else if b < sf.len() && a == sf.len() {
                        let i = choose|i: int| 0 <= i < front.len() && front[i] == Some(sf[b]);
                        assert(xs[i] == Some(sf[b]));
                        assert(opt_key(xs[i]) != opt_key(xs[n]));
                    }
                }
                assert forall|m: int| 0 <= m < s2.len() implies (#[trigger] s2[m]).1.keys_unique() by {
                    if m == sf.len() {
                        assert(opt_tree(xs[n]).keys_unique());
                    }
                }
            },
            None => {
                assert(somes(xs) == sf);
                assert forall|m: int| 0 <= m < sf.len() implies exists|i: int| 0 <= i < xs.len() && xs[i] == Some(#[trigger] sf[m]) by {
                    let i = choose|i: int| 0 <= i < front.len() && front[i] == Some(sf[m]);
                    assert(xs[i] == Some(sf[m]));
                }
            },
        }
    }
}

/// The cleaned copy keeps a trie free of repeated keys.
proof fn lemma_cleaned_keeps_keys_unique(t: StateView)
    requires
        t.keys_unique(),
    ensures
        t.cleaned() matches Some(c) ==> c.keys_unique(),
    decreases t,
{
    let xs = t.child_cleaned();
    assert forall|i: int| 0 <= i < xs.len() && (#[trigger] xs[i]) is Some implies opt_tree(xs[i]).keys_unique() by {
        lemma_cleaned_keeps_keys_unique(t.subtries[i].1);
    }
    assert forall|i: int, j: int|
        0 <= i < xs.len() && 0 <= j < xs.len() && i != j && xs[i] is Some && xs[j] is Some implies opt_key(xs[i])
        != opt_key(xs[j]) by {
        assert(opt_key(xs[i]) == t.subtries[i].0);
        assert(opt_key(xs[j]) == t.subtries[j].0);
    }
    lemma_somes_keys(xs);
}

/// Law: merging keeps tries free of repeated keys.
pub proof fn law_merge_keeps_keys_unique(state: StateView, change: StateView, removing: bool)
    requires
        state.keys_unique(),
        change.keys_unique(),
    ensures
        state.merged(change, removing).keys_unique(),
    decreases state,
{
    let top = merge_top(state, change, removing);
    let fs = state.merged_from_state(change, top.2);
    let fc = state.merged_from_change(change);
    let xs = fs + fc;
    lemma_somes_append(fs, fc);
    assert forall|i: int| 0 <= i < xs.len() && (#[trigger] xs[i]) is Some implies opt_tree(xs[i]).keys_unique()
        && (i < fs.len() ==> opt_key(xs[i]) == state.subtries[i].0) && (i >= fs.len() ==> opt_key(xs[i])
        == change.subtries[i - fs.len()].0 && state.sub(opt_key(xs[i])) is None) by {
        if i < fs.len() {
            assert(xs[i] == fs[i]);
            let k = state.subtries[i].0;
            lemma_key_pos(change.subtries, k);
            match change.sub(k) {
                Some(cs) => {
                    assert(cs.keys_unique());
                    law_merge_keeps_keys_unique(state.subtries[i].1, cs, top.2);
                },
                None => {},
            }
        } else {
            let j = i - fs.len();
            assert(xs[i] == fc[j]);
            lemma_cleaned_keeps_keys_unique(change.subtries[j].1);
        }
    }
    assert forall|i: int, j: int|
        0 <= i < xs.len() && 0 <= j < xs.len() && i != j && xs[i] is Some && xs[j] is Some implies opt_key(xs[i])
        != opt_key(xs[j]) by {
        if i >= fs.len() && j < fs.len() {
            lemma_key_pos(state.subtries, opt_key(xs[i]));
        } else if j >= fs.len() && i < fs.len() {
            lemma_key_pos(state.subtries, opt_key(xs[j]));
        }
    }
    lemma_somes_keys(xs);
}

/// `q` is `path` or a key above it: `q` is a prefix of `path`.
pub open spec fn is_key_prefix(q: Seq<Seq<char>>, path: Seq<Seq<char>>) -> bool {
    q.len() <= path.len() && path.take(q.len() as int) == q
}

/// Removing entry `j` keeps every other key where it was, one place earlier past `j`.
proof fn lemma_key_pos_remove(s: Seq<(Seq<char>, StateView)>, j: int, q: Seq<char>)
    requires
        0 <= j < s.len(),
        s[j].0 != q,
    ensures
        sub_in(s.remove(j), q) == sub_in(s, q),
{
    lemma_key_pos(s, q);
    let t = s.remove(j);
    let p = key_pos(s, q);
    let pt = if p < 0 {
        -1
    } else if p < j {
        p
    } else {
        p - 1
    };
    assert forall|i: int| 0 <= i < t.len() && (pt < 0 || i < pt) implies t[i].0 != q by {
        if i < j {
            assert(t[i] == s[i]);
        } else {
            assert(t[i] == s[i + 1]);
        }
    }
    if pt >= 0 {
        if p < j {
            assert(t[pt] == s[p]);
        } else {
            assert(t[pt] == s[p]);
        }
    }
    lemma_key_pos_at(t, q, pt);
}

/// Law: removing the key `path` leaves every key that is not `path` or above it
/// (every other branch, and every key below `path`) reading as before.
pub proof fn law_remove_keeps_other_keys(t: StateView, path: Seq<Seq<char>>, q: Seq<Seq<char>>)
    requires
        t.keys_unique(),
        !is_key_prefix(q, path),
    ensures
        t.removed(path).lookup(q) == t.lookup(q),
    decreases path.len(),
{
    assert(q.len() > 0) by {
        if q.len() == 0 {
            assert(path.take(0) =~= q);
        }
    }
    if path.len() > 0 {
        let k = path[0];
        let j = key_pos(t.subtries, k);
        lemma_key_pos(t.subtries, k);
        if j >= 0 {
            let c = t.subtries[j].1;
            let rest = path.drop_first();
            let c2 = c.removed(rest);
            if q[0] == k {
                let q1 = q.drop_first();
                assert(!is_key_prefix(q1, rest)) by {
                    if is_key_prefix(q1, rest) {
                        assert forall|i: int| 0 <= i < q.len() implies path.take(q.len() as int)[i] == q[i] by {
                            if i > 0 {
                                assert(rest.take(q1.len() as int)[i - 1] == q1[i - 1]);
                            }
                        }
                        assert(path.take(q.len() as int) =~= q);
                    }
                }
                assert(c.keys_unique());
                law_remove_keeps_other_keys(c, rest, q1);
                if c2.is_empty() {
                    lemma_unique_key(t.subtries, j);
                    assert(q1.len() > 0) by {
                        if q1.len() == 0 {
                            assert(rest.take(0) =~= q1);
                        }
                    }
                } else {
                    lemma_key_pos_update(t.subtries, j, (k, c2), k);
                }
            } else {
                if c2.is_empty() {
                    lemma_key_pos_remove(t.subtries, j, q[0]);
                } else {
                    lemma_key_pos_update(t.subtries, j, (k, c2), q[0]);
                    let p = key_pos(t.subtries, q[0]);
                    lemma_key_pos(t.subtries, q[0]);
                    if p >= 0 {
                        assert(p != j);
                    }
                }
            }
        }
    }
}

/// Law: setting `path` to a value keeps every key below `path` reading as before
/// (only a null value clears them).
pub proof fn law_add_value_keeps_sub_keys(t: StateView, path: Seq<Seq<char>>, v: Seq<char>, q: Seq<Seq<char>>)
    requires
        path.len() < q.len(),
        q.take(path.len() as int) == path,
    ensures
        t.added(path, Some(v)).lookup(q) == t.lookup(q),
    decreases path.len(),
{
    if path.len() > 0 {
        let k = path[0];
        let rest = path.drop_first();
        let q1 = q.drop_first();
        assert(q[0] == q.take(path.len() as int)[0]);
        assert(q1.take(rest.len() as int) =~= rest) by {
            assert forall|i: int| 0 <= i < rest.len() implies q1.take(rest.len() as int)[i] == rest[i] by {
                assert(q.take(path.len() as int)[i + 1] == path[i + 1]);
            }
        }
        let j = key_pos(t.subtries, k);
        lemma_key_pos(t.subtries, k);
        if j >= 0 {
            let c = t.subtries[j].1;
            lemma_key_pos_update(t.subtries, j, (k, c.added(rest, Some(v))), k);
            law_add_value_keeps_sub_keys(c, rest, v, q1);
        } else {
            let e = (k, empty_view().added(rest, Some(v)));
            lemma_key_pos_push(t.subtries, e, k);
            assert(t.added(path, Some(v)).subtries[t.subtries.len() as int] == e);
            law_add_value_keeps_sub_keys(empty_view(), rest, v, q1);
            assert(empty_view().lookup(q1) is None) by {
                assert(key_pos(empty_view().subtries, q1[0]) == -1);
            }
        }
    }
}

/// The node reached along `ks` is a path whose value is `val`.
pub open spec fn ends_at_path(t: StateView, ks: Seq<Seq<char>>, val: Option<Seq<char>>) -> bool
    decreases ks.len(),
{
    if ks.len() == 0 {
        t.is_path && t.value == val
    } else {
        match t.sub(ks[0]) {
            Some(c) => ends_at_path(c, ks.drop_first(), val),
            None => false,
        }
    }
}

proof fn lemma_sets_ends_at_path(t: StateView, ks: Seq<Seq<char>>, v: Seq<char>)
    ensures
        t.sets(ks, v) == ends_at_path(t, ks, Some(v)),
    decreases ks.len(),
{
    if ks.len() > 0 {
        if let Some(c) = t.sub(ks[0]) {
            lemma_sets_ends_at_path(c, ks.drop_first(), v);
        }
    }
}

proof fn lemma_deletes_ends_at_path(t: StateView, ks: Seq<Seq<char>>)
    ensures
        t.deletes(ks) == ends_at_path(t, ks, None),
    decreases ks.len(),
{
    if ks.len() > 0 {
        if let Some(c) = t.sub(ks[0]) {
            lemma_deletes_ends_at_path(c, ks.drop_first());
        }
    }
}

proof fn lemma_concat_entries_contains(parts: Seq<Seq<(Seq<char>, Seq<char>)>>, j: int, x: (Seq<char>, Seq<char>))
    requires
        0 <= j < parts.len(),
        parts[j].contains(x),
    ensures
        concat_entries(parts).contains(x),
    decreases parts.len(),
{
    let front = parts.drop_last();
    let whole = concat_entries(parts);
    assert(whole == concat_entries(front) + parts.last());
    if j == parts.len() - 1 {
        let i = choose|i: int| 0 <= i < parts.last().len() && parts.last()[i] == x;
        assert(whole[concat_entries(front).len() + i] == x);
    } else {
        assert(front[j] == parts[j]);
        lemma_concat_entries_contains(front, j, x);
        let i = choose|i: int| 0 <= i < concat_entries(front).len() && concat_entries(front)[i] == x;
        assert(whole[i] == x);
    }
}

/// Every path node along the keys `ks` shows up in the listings: with a value among
/// the entries, and with its value or `null` among the change entries.
proof fn lemma_listed(t: StateView, ks: Seq<Seq<char>>, val: Option<Seq<char>>, prefix: Seq<char>, filter_secrets: bool)
    requires
        ends_at_path(t, ks, val),
        !filter_secrets || !ends_with_secret(prefix + concat_all(ks)),
    ensures
        t.change_entries(prefix, filter_secrets).contains((prefix + concat_all(ks), shown_value(val))),
        val matches Some(v) ==> t.entries(prefix, filter_secrets).contains((prefix + concat_all(ks), v)),
    decreases ks.len(),
{
    if ks.len() == 0 {
        assert(prefix + concat_all(ks) =~= prefix);
        let ce = t.change_entries(prefix, filter_secrets);
        assert(ce[0] == (prefix, shown_value(val)));
        if let Some(v) = val {
            let en = t.entries(prefix, filter_secrets);
            assert(en[0] == (prefix, v));
        }
    } else {
        let k = ks[0];
        let j = key_pos(t.subtries, k);
        lemma_key_pos(t.subtries, k);
        let c = t.subtries[j].1;
        let rest = ks.drop_first();
        let p2 = prefix + t.subtries[j].0;
        assert(p2 + concat_all(rest) =~= prefix + concat_all(ks));
        lemma_listed(c, rest, val, p2, filter_secrets);
        let x = (prefix + concat_all(ks), shown_value(val));
        let cparts = t.child_change_entries(prefix, filter_secrets);
        assert(cparts[j] == c.change_entries(p2, filter_secrets));
        lemma_concat_entries_contains(cparts, j, x);
        let ce = t.change_entries(prefix, filter_secrets);
        let cc = concat_entries(cparts);
        let ci = choose|i: int| 0 <= i < cc.len() && cc[i] == x;
        let own_c = ce.len() - cc.len();
        assert(ce[own_c + ci] == x);
        if let Some(v) = val {
            let y = (prefix + concat_all(ks), v);
            let eparts = t.child_entries(prefix, filter_secrets);
            assert(eparts[j] == c.entries(p2, filter_secrets));
            lemma_concat_entries_contains(eparts, j, y);
            let en = t.entries(prefix, filter_secrets);
            let ec = concat_entries(eparts);
            let ei = choose|i: int| 0 <= i < ec.len() && ec[i] == y;
            let own_e = en.len() - ec.len();
            assert(en[own_e + ei] == y);
        }
    }
}

/// Law: the listing of a trie holds every key it sets: when the key `p` reads the
/// value `v` (the node at `p` is a path with that value), `(p, v)` is among the
/// entries that `get_all` gives, unless it is a secret being filtered out.
pub proof fn law_listing_holds_every_set_key(t: StateView, p: Seq<char>, v: Seq<char>, filter_secrets: bool)
    requires
        t.sets(state_segments(p), v),
        !filter_secrets || !ends_with_secret(p),
    ensures
        t.entries(Seq::empty(), filter_secrets).contains((p, v)),
{
    lemma_state_segments_concat(p);
    lemma_sets_ends_at_path(t, state_segments(p), v);
    assert(Seq::<char>::empty() + concat_all(state_segments(p)) =~= p);
    lemma_listed(t, state_segments(p), Some(v), Seq::empty(), filter_secrets);
}

/// Law: the changes a client is told of hold every key the changes set, with its
/// value, and every key they delete, with `null` (secrets aside when filtered).
pub proof fn law_changes_hold_every_set_and_deleted_key(t: StateView, p: Seq<char>, v: Seq<char>, filter_secrets: bool)
    requires
        !filter_secrets || !ends_with_secret(p),
    ensures
        t.sets(state_segments(p), v) ==> t.change_entries(Seq::empty(), filter_secrets).contains((p, v)),
        t.deletes(state_segments(p)) ==> t.change_entries(Seq::empty(), filter_secrets).contains(
            (p, "null"@),
        ),
{
    lemma_state_segments_concat(p);
    lemma_sets_ends_at_path(t, state_segments(p), v);
    lemma_deletes_ends_at_path(t, state_segments(p));
    assert(Seq::<char>::empty() + concat_all(state_segments(p)) =~= p);
    if t.sets(state_segments(p), v) {
        lemma_listed(t, state_segments(p), Some(v), Seq::empty(), filter_secrets);
    }
    if t.deletes(state_segments(p)) {
        lemma_listed(t, state_segments(p), None, Seq::empty(), filter_secrets);
    }
}

impl StateView {
    /// Only paths hold values, here and below.
    pub open spec fn values_on_paths(self) -> bool
        decreases self,
    {
        &&& (self.value is Some ==> self.is_path)
        &&& forall|i: int| 0 <= i < self.subtries.len() ==> (#[trigger] self.subtries[i]).1.values_on_paths()
    }
}

/// Merging `change` into `state` leaves the key `q` alone: along `q`, the change only
/// sets values over nodes that held one (so nothing below them is cleared), and it
/// either stops before `q` or goes on down a key the state has; at `q` itself the
/// change is not a path.
pub open spec fn merge_misses(state: StateView, change: StateView, q: Seq<Seq<char>>) -> bool
    decreases q.len(),
{
    if q.len() == 0 {
        !change.is_path
    } else {
        &&& (change.is_path ==> state.value is Some)
        &&& match change.sub(q[0]) {
            None => true,
            Some(cs) => match state.sub(q[0]) {
                Some(ss) => merge_misses(ss, cs, q.drop_first()),
                None => false,
            },
        }
    }
}

/// Law: merging keeps, at every depth, the keys the change does not touch; in
/// particular setting a new value on a key that held one keeps every key below it
/// that the change does not mention (in tries with no repeated keys where only paths
/// hold values).
pub proof fn law_merge_keeps_untouched_keys(state: StateView, change: StateView, q: Seq<Seq<char>>)
    requires
        state.keys_unique(),
        change.keys_unique(),
        state.values_on_paths(),
        merge_misses(state, change, q),
    ensures
        state.merged(change, false).lookup(q) == state.lookup(q),
    decreases q.len(),
{
    if q.len() > 0 {
        let k = q[0];
        let q1 = q.drop_first();
        let top = merge_top(state, change, false);
        assert(!top.2);
        let fs = state.merged_from_state(change, top.2);
        let fc = state.merged_from_change(change);
        let xs = fs + fc;
        lemma_somes_append(fs, fc);
        let js = key_pos(state.subtries, k);
        let jc = key_pos(change.subtries, k);
        lemma_key_pos(state.subtries, k);
        lemma_key_pos(change.subtries, k);
        assert forall|i: int| 0 <= i < xs.len() && i != js && (#[trigger] xs[i]) is Some implies opt_key(xs[i]) != k by {
            if i < fs.len() {
                assert(xs[i] == fs[i]);
            } else {
                assert(xs[i] == fc[i - fs.len()]);
                if jc >= 0 {
                    assert(js >= 0);
                }
            }
        }
        if js >= 0 {
            assert(xs[js] == fs[js]);
        }
        lemma_sub_in_somes(xs, k, js);
        if js >= 0 && jc >= 0 {
            let ss = state.subtries[js].1;
            let cs = change.subtries[jc].1;
            assert(ss.keys_unique() && cs.keys_unique() && ss.values_on_paths());
            law_merge_keeps_untouched_keys(ss, cs, q1);
            let m = ss.merged(cs, false);
            if m.is_empty() {
                if q1.len() == 0 {
                    assert(!ss.is_path);
                } else {
                    assert(key_pos(m.subtries, q1[0]) == -1);
                }
            }
        }
    }
}

/// Law: removing the key `path` leaves every other key reading as before, the keys
/// above it included (in tries with no repeated keys where only paths hold values).
pub proof fn law_remove_clears_only_its_key(t: StateView, path: Seq<Seq<char>>, q: Seq<Seq<char>>)
    requires
        t.keys_unique(),
        t.values_on_paths(),
        q != path,
    ensures
        t.removed(path).lookup(q) == t.lookup(q),
    decreases path.len(),
{
    if !is_key_prefix(q, path) {
        law_remove_keeps_other_keys(t, path, q);
    } else if q.len() == 0 {
        assert(path.len() > 0) by {
            if path.len() == 0 {
                assert(q =~= path);
            }
        }
    } else {
        let k = path[0];
        assert(q[0] == path.take(q.len() as int)[0]);
        let j = key_pos(t.subtries, k);
        lemma_key_pos(t.subtries, k);
        if j >= 0 {
            let c = t.subtries[j].1;
            let rest = path.drop_first();
            let q1 = q.drop_first();
            let c2 = c.removed(rest);
            assert(q1.len() <= rest.len() && rest.take(q1.len() as int) =~= q1) by {
                assert forall|i: int| 0 <= i < q1.len() implies rest.take(q1.len() as int)[i] == q1[i] by {
                    assert(path.take(q.len() as int)[i + 1] == q[i + 1]);
                }
            }
            assert(q1 != rest) by {
                if q1 =~= rest {
                    assert(q =~= path) by {
                        assert forall|i: int| 0 <= i < q.len() implies q[i] == path[i] by {
                            if i > 0 {
                                assert(q1[i - 1] == rest[i - 1]);
                            }
                        }
                    }
                }
            }
            assert(rest.len() > 0) by {
                if rest.len() == 0 {
                    assert(q1 =~= rest);
                }
            }
            assert(c.keys_unique() && c.values_on_paths());
            law_remove_clears_only_its_key(c, rest, q1);
            assert(c2.value == c.value && c2.is_path == c.is_path);
            if c2.is_empty() {
                lemma_unique_key(t.subtries, j);
                if q1.len() > 0 {
                    assert(key_pos(c2.subtries, q1[0]) == -1);
                }
            } else {
                lemma_key_pos_update(t.subtries, j, (k, c2), k);
            }
        }
    }
}

/// Law: setting `path` to null clears every key below it.
pub proof fn law_add_null_clears_sub_keys(t: StateView, path: Seq<Seq<char>>, q: Seq<Seq<char>>)
    requires
        path.len() < q.len(),
        q.take(path.len() as int) == path,
    ensures
        t.added(path, None).lookup(q) is None,
    decreases path.len(),
{
    if path.len() == 0 {
        assert(key_pos(t.added(path, None).subtries, q[0]) == -1);
    } else {
        let k = path[0];
        let rest = path.drop_first();
        let q1 = q.drop_first();
        assert(q[0] == q.take(path.len() as int)[0]);
        assert(q1.take(rest.len() as int) =~= rest) by {
            assert forall|i: int| 0 <= i < rest.len() implies q1.take(rest.len() as int)[i] == rest[i] by {
                assert(q.take(path.len() as int)[i + 1] == path[i + 1]);
            }
        }
        let j = key_pos(t.subtries, k);
        lemma_key_pos(t.subtries, k);
        if j >= 0 {
            let c = t.subtries[j].1;
            lemma_key_pos_update(t.subtries, j, (k, c.added(rest, None)), k);
            law_add_null_clears_sub_keys(c, rest, q1);
        } else {
            let e = (k, empty_view().added(rest, None));
            lemma_key_pos_push(t.subtries, e, k);
            assert(t.added(path, None).subtries[t.subtries.len() as int] == e);
            law_add_null_clears_sub_keys(empty_view(), rest, q1);
        }
    }
}

proof fn lemma_concat_entries_origin(parts: Seq<Seq<(Seq<char>, Seq<char>)>>, x: (Seq<char>, Seq<char>))
    requires
        concat_entries(parts).contains(x),
    ensures
        exists|j: int| 0 <= j < parts.len() && (#[trigger] parts[j]).contains(x),
    decreases parts.len(),
{
    let front = parts.drop_last();
    let whole = concat_entries(parts);
    assert(whole == concat_entries(front) + parts.last());
    let i = choose|i: int| 0 <= i < whole.len() && whole[i] == x;
    if i < concat_entries(front).len() {
        assert(concat_entries(front)[i] == x);
        lemma_concat_entries_origin(front, x);
        let j = choose|j: int| 0 <= j < front.len() && (#[trigger] front[j]).contains(x);
        assert(parts[j] == front[j]);
    } else {
        assert(parts.last()[i - concat_entries(front).len()] == x);
        assert(parts[parts.len() - 1].contains(x));
    }
}

/// Every listed pair comes from a path node holding a value: its path is `prefix`
/// followed by the keys down to the node, and its text is the node's value.
proof fn lemma_entry_origin(t: StateView, prefix: Seq<char>, filter_secrets: bool, x: (Seq<char>, Seq<char>))
    requires
        t.keys_unique(),
        t.entries(prefix, filter_secrets).contains(x),
    ensures
        exists|ks: Seq<Seq<char>>| ends_at_path(t, ks, Some(x.1)) && prefix + concat_all(ks) == x.0,
    decreases t,
{
    let e0: Seq<Seq<char>> = Seq::empty();
    assert(prefix + concat_all(e0) =~= prefix);
    let en = t.entries(prefix, filter_secrets);
    let eparts = t.child_entries(prefix, filter_secrets);
    let ec = concat_entries(eparts);
    let i = choose|i: int| 0 <= i < en.len() && en[i] == x;
    if i < en.len() - ec.len() {
        assert(x == (prefix, t.value->Some_0));
        assert(ends_at_path(t, e0, Some(x.1)));
    } else {
        assert(ec[i - (en.len() - ec.len())] == x);
        lemma_concat_entries_origin(eparts, x);
        let j = choose|j: int| 0 <= j < eparts.len() && (#[trigger] eparts[j]).contains(x);
        let c = t.subtries[j].1;
        let key = t.subtries[j].0;
        assert(eparts[j] == c.entries(prefix + key, filter_secrets));
        assert(c.keys_unique());
        lemma_entry_origin(c, prefix + key, filter_secrets, x);
        let ks = choose|ks: Seq<Seq<char>>| ends_at_path(c, ks, Some(x.1)) && (prefix + key) + concat_all(ks) == x.0;
        let full = seq![key] + ks;
        assert(full.drop_first() == ks);
        assert(full[0] == key);
        lemma_unique_pos(t.subtries, j);
        assert(ends_at_path(t, full, Some(x.1)));
        assert(prefix + concat_all(full) =~= (prefix + key) + concat_all(ks));
    }
}

/// Every change entry comes from a path node: its path is `prefix` followed by the
/// keys down to the node, and its text is the node's value, or `null` when it has none.
proof fn lemma_change_entry_origin(t: StateView, prefix: Seq<char>, filter_secrets: bool, x: (Seq<char>, Seq<char>))
    requires
        t.keys_unique(),
        t.change_entries(prefix, filter_secrets).contains(x),
    ensures
        exists|ks: Seq<Seq<char>>, val: Option<Seq<char>>|
            ends_at_path(t, ks, val) && prefix + concat_all(ks) == x.0 && shown_value(val) == x.1,
    decreases t,
{
    let e0: Seq<Seq<char>> = Seq::empty();
    assert(prefix + concat_all(e0) =~= prefix);
    let ce = t.change_entries(prefix, filter_secrets);
    let cparts = t.child_change_entries(prefix, filter_secrets);
    let cc = concat_entries(cparts);
    let i = choose|i: int| 0 <= i < ce.len() && ce[i] == x;
    if i < ce.len() - cc.len() {
        assert(x == (prefix, shown_value(t.value)));
        assert(ends_at_path(t, e0, t.value));
    } else {
        assert(cc[i - (ce.len() - cc.len())] == x);
        lemma_concat_entries_origin(cparts, x);
        let j = choose|j: int| 0 <= j < cparts.len() && (#[trigger] cparts[j]).contains(x);
        let c = t.subtries[j].1;
        let key = t.subtries[j].0;
        assert(cparts[j] == c.change_entries(prefix + key, filter_secrets));
        assert(c.keys_unique());
        lemma_change_entry_origin(c, prefix + key, filter_secrets, x);
        let (ks, val) = choose|ks: Seq<Seq<char>>, val: Option<Seq<char>>|
            ends_at_path(c, ks, val) && (prefix + key) + concat_all(ks) == x.0 && shown_value(val) == x.1;
        let full = seq![key] + ks;
        assert(full.drop_first() == ks);
        assert(full[0] == key);
        lemma_unique_pos(t.subtries, j);
        assert(ends_at_path(t, full, val));
        assert(prefix + concat_all(full) =~= (prefix + key) + concat_all(ks));
    }
}

/// In a list with no repeated keys, entry `j` is where its key is found.
proof fn lemma_unique_pos(s: Seq<(Seq<char>, StateView)>, j: int)
    requires
        0 <= j < s.len(),
        forall|a: int, b: int| 0 <= a < s.len() && 0 <= b < s.len() && a != b ==> s[a].0 != s[b].0,
    ensures
        key_pos(s, s[j].0) == j,
{
    lemma_key_pos_at(s, s[j].0, j);
}

/// Law: the listing of a trie holds nothing but its keys: every pair `(p, v)` that
/// `get_all` gives is a key of the trie whose node is a path holding `v`, and every
/// pair of the changes a client is told of is a path node with its value, or `null`
/// when it has none (in tries with no repeated keys).
pub proof fn law_listing_holds_only_keys(t: StateView, filter_secrets: bool, x: (Seq<char>, Seq<char>))
    requires
        t.keys_unique(),
    ensures
        t.entries(Seq::empty(), filter_secrets).contains(x) ==> exists|ks: Seq<Seq<char>>|
            ends_at_path(t, ks, Some(x.1)) && concat_all(ks) == x.0,
        t.change_entries(Seq::empty(), filter_secrets).contains(x) ==> exists|ks: Seq<Seq<char>>, val: Option<Seq<char>>|
            ends_at_path(t, ks, val) && concat_all(ks) == x.0 && shown_value(val) == x.1,
{
    assert forall|ks: Seq<Seq<char>>| Seq::<char>::empty() + concat_all(ks) == concat_all(ks) by {
        assert(Seq::<char>::empty() + concat_all(ks) =~= concat_all(ks));
    }
    if t.entries(Seq::empty(), filter_secrets).contains(x) {
        lemma_entry_origin(t, Seq::empty(), filter_secrets, x);
    }
    if t.change_entries(Seq::empty(), filter_secrets).contains(x) {
        lemma_change_entry_origin(t, Seq::empty(), filter_secrets, x);
    }
}

impl StateView {
    /// `path` is a key of the trie: the node reached along it is a path.
    pub open spec fn has_key(self, path: Seq<Seq<char>>) -> bool
        decreases path.len(),
    {
        if path.len() == 0 {
            self.is_path
        } else {
            match self.sub(path[0]) {
                Some(c) => c.has_key(path.drop_first()),
                None => false,
            }
        }
    }
}

proof fn lemma_sum_update(s: Seq<int>, j: int, x: int)
    requires
        0 <= j < s.len(),
    ensures
        sum(s.update(j, x)) == sum(s) - s[j] + x,
    decreases s.len(),
{
    let u = s.update(j, x);
    if j == s.len() - 1 {
        assert(u.drop_last() =~= s.drop_last());
    } else {
        assert(u.drop_last() =~= s.drop_last().update(j, x));
        lemma_sum_update(s.drop_last(), j, x);
    }
}

proof fn lemma_sum_remove(s: Seq<int>, j: int)
    requires
        0 <= j < s.len(),
    ensures
        sum(s.remove(j)) == sum(s) - s[j],
    decreases s.len(),
{
    let r = s.remove(j);
    if j == s.len() - 1 {
        assert(r =~= s.drop_last());
    } else {
        assert(r.drop_last() =~= s.drop_last().remove(j));
        assert(r.last() == s.last());
        lemma_sum_remove(s.drop_last(), j);
    }
}

/// Law: removing the key `path` lowers the size by one when `path` was a key, and
/// leaves it unchanged otherwise: no other key is lost.
pub proof fn law_remove_size(t: StateView, path: Seq<Seq<char>>)
    ensures
        t.removed(path).count() == t.count() - (if t.has_key(path) {
            1int
        } else {
            0int
        }),
    decreases path.len(),
{
    if path.len() == 0 {
        assert(t.removed(path).child_counts() =~= t.child_counts());
    } else {
        let k = path[0];
        let j = key_pos(t.subtries, k);
        lemma_key_pos(t.subtries, k);
        if j >= 0 {
            let c = t.subtries[j].1;
            let rest = path.drop_first();
            let c2 = c.removed(rest);
            law_remove_size(c, rest);
            let cc = t.child_counts();
            assert(cc[j] == c.count());
            if c2.is_empty() {
                assert(c2.child_counts() =~= Seq::<int>::empty());
                assert(c2.count() == 0);
                assert(t.removed(path).child_counts() =~= cc.remove(j));
                lemma_sum_remove(cc, j);
            } else {
                assert(t.removed(path).child_counts() =~= cc.update(j, c2.count()));
                lemma_sum_update(cc, j, c2.count());
            }
        }
    }
}

/// Law: setting `path` to a value raises the size by one when `path` was not yet a
/// key, and leaves it unchanged otherwise: no other key is lost or made.
pub proof fn law_add_value_size(t: StateView, path: Seq<Seq<char>>, v: Seq<char>)
    ensures
        t.added(path, Some(v)).count() == t.count() + (if t.has_key(path) {
            0int
        } else {
            1int
        }),
    decreases path.len(),
{
    let a = t.added(path, Some(v));
    if path.len() == 0 {
        assert(a.child_counts() =~= t.child_counts());
    } else {
        let k = path[0];
        let rest = path.drop_first();
        let j = key_pos(t.subtries, k);
        lemma_key_pos(t.subtries, k);
        let cc = t.child_counts();
        if j >= 0 {
            let c = t.subtries[j].1;
            law_add_value_size(c, rest, v);
            assert(cc[j] == c.count());
            assert(a.child_counts() =~= cc.update(j, c.added(rest, Some(v)).count()));
            lemma_sum_update(cc, j, c.added(rest, Some(v)).count());
        } else {
            let e = empty_view().added(rest, Some(v));
            law_add_value_size(empty_view(), rest, v);
            assert(empty_view().child_counts() =~= Seq::<int>::empty());
            assert(!empty_view().has_key(rest)) by {
                if rest.len() > 0 {
                    assert(key_pos(empty_view().subtries, rest[0]) == -1);
                }
            }
            assert(a.child_counts() =~= cc.push(e.count()));
            assert(cc.push(e.count()).drop_last() =~= cc);
        }
    }
}

/// Law: a copy made with every value dropped holds no value anywhere.
pub proof fn law_nulled_copy_has_no_value(t: StateView, path: Seq<Seq<char>>)
    ensures
        t.cloned(true).lookup(path) is None,
    decreases path.len(),
{
    if path.len() > 0 {
        let k = path[0];
        let cs = t.cloned(true).subtries;
        lemma_key_pos(t.subtries, k);
        let j = key_pos(t.subtries, k);
        assert forall|i: int| 0 <= i < cs.len() implies cs[i].0 == t.subtries[i].0 by {}
        lemma_key_pos_at(cs, k, j);
        if j >= 0 {
            law_nulled_copy_has_no_value(t.subtries[j].1, path.drop_first());
        }
    }
}

/// Law: a copy that keeps the values reads like the original at every key, and has
/// the same keys.
pub proof fn law_copy_reads_the_same(t: StateView, path: Seq<Seq<char>>)
    ensures
        t.cloned(false).lookup(path) == t.lookup(path),
        t.cloned(false).has_key(path) == t.has_key(path),
    decreases path.len(),
{
    if path.len() > 0 {
        let k = path[0];
        let cs = t.cloned(false).subtries;
        lemma_key_pos(t.subtries, k);
        let j = key_pos(t.subtries, k);
        assert forall|i: int| 0 <= i < cs.len() implies cs[i].0 == t.subtries[i].0 by {}
        lemma_key_pos_at(cs, k, j);
        if j >= 0 {
            law_copy_reads_the_same(t.subtries[j].1, path.drop_first());
        }
    }
}

impl StateView {
    /// The node reached along `path`, if there is one.
    pub open spec fn node_at(self, path: Seq<Seq<char>>) -> Option<StateView>
        decreases path.len(),
    {
        if path.len() == 0 {
            Some(self)
        } else {
            match self.sub(path[0]) {
                Some(c) => c.node_at(path.drop_first()),
                None => None,
            }
        }
    }
}

/// `change` deletes `path` (a null value) and holds nothing below it, as a change
/// made by setting `path` to null does.
pub open spec fn clears_below(change: StateView, path: Seq<Seq<char>>) -> bool {
    change.node_at(path) matches Some(n) && n.is_path && n.value is None && n.subtries.len() == 0
}

/// `state` holds no key and no value at `path` (it may hold keys below it).
pub open spec fn holds_nothing_at(state: StateView, path: Seq<Seq<char>>) -> bool {
    state.node_at(path) matches Some(n) ==> !n.is_path && n.value is None
}

proof fn lemma_below_take(path: Seq<Seq<char>>, q: Seq<Seq<char>>)
    requires
        0 < path.len() < q.len(),
        q.take(path.len() as int) == path,
    ensures
        q[0] == path[0],
        path.drop_first().len() < q.drop_first().len(),
        q.drop_first().take(path.drop_first().len() as int) == path.drop_first(),
{
    assert(q[0] == q.take(path.len() as int)[0]);
    let rest = path.drop_first();
    let q1 = q.drop_first();
    assert(q1.take(rest.len() as int) =~= rest) by {
        assert forall|i: int| 0 <= i < rest.len() implies q1.take(rest.len() as int)[i] == rest[i] by {
            assert(q.take(path.len() as int)[i + 1] == path[i + 1]);
        }
    }
}

/// The cleaned copy of a change that clears what lies below `path` holds no value
/// below `path`.
proof fn lemma_cleaned_clears_below(c: StateView, path: Seq<Seq<char>>, q: Seq<Seq<char>>)
    requires
        c.keys_unique(),
        clears_below(c, path),
        path.len() < q.len(),
        q.take(path.len() as int) == path,
    ensures
        c.cleaned() matches Some(v) ==> v.lookup(q) is None,
    decreases path.len(),
{
    if path.len() == 0 {
        if let Some(v) = c.cleaned() {
            assert(v.subtries.len() == 0);
            assert(key_pos(v.subtries, q[0]) == -1);
        }
    } else {
        lemma_below_take(path, q);
        let k = path[0];
        let j = key_pos(c.subtries, k);
        lemma_key_pos(c.subtries, k);
        let xs = c.child_cleaned();
        assert forall|i: int| 0 <= i < xs.len() && i != j && (#[trigger] xs[i]) is Some implies opt_key(xs[i]) != k by {
            assert(opt_key(xs[i]) == c.subtries[i].0);
        }
        lemma_sub_in_somes(xs, k, j);
        let d = c.subtries[j].1;
        assert(d.keys_unique());
        lemma_cleaned_clears_below(d, path.drop_first(), q.drop_first());
    }
}

/// Merging a change that clears what lies below `path`, into a state that holds
/// nothing at `path`, leaves no value below `path`.
proof fn lemma_merge_clears_below(
    state: StateView,
    change: StateView,
    removing: bool,
    path: Seq<Seq<char>>,
    q: Seq<Seq<char>>,
)
    requires
        state.keys_unique(),
        change.keys_unique(),
        clears_below(change, path),
        holds_nothing_at(state, path),
        path.len() < q.len(),
        q.take(path.len() as int) == path,
    ensures
        state.merged(change, removing).lookup(q) is None,
    decreases path.len(),
{
    let top = merge_top(state, change, removing);
    let fs = state.merged_from_state(change, top.2);
    let fc = state.merged_from_change(change);
    let xs = fs + fc;
    lemma_somes_append(fs, fc);
    if path.len() == 0 {
        assert(top.2);
        assert forall|i: int| 0 <= i < xs.len() implies (#[trigger] xs[i]) is None by {
            assert(xs[i] == fs[i]);
            assert(key_pos(change.subtries, state.subtries[i].0) == -1);
        }
        lemma_sub_in_somes(xs, q[0], -1);
    } else {
        lemma_below_take(path, q);
        let k = path[0];
        let js = key_pos(state.subtries, k);
        let jc = key_pos(change.subtries, k);
        lemma_key_pos(state.subtries, k);
        lemma_key_pos(change.subtries, k);
        let cs = change.subtries[jc].1;
        assert(cs.keys_unique());
        if js >= 0 {
            assert forall|i: int| 0 <= i < xs.len() && i != js && (#[trigger] xs[i]) is Some implies opt_key(xs[i]) != k by {
                if i < fs.len() {
                    assert(xs[i] == fs[i]);
                } else {
                    assert(xs[i] == fc[i - fs.len()]);
                }
            }
            assert(xs[js] == fs[js]);
            lemma_sub_in_somes(xs, k, js);
            assert(state.subtries[js].1.keys_unique());
            lemma_merge_clears_below(state.subtries[js].1, cs, top.2, path.drop_first(), q.drop_first());
        } else {
            let j = fs.len() + jc;
            assert forall|i: int| 0 <= i < xs.len() && i != j && (#[trigger] xs[i]) is Some implies opt_key(xs[i]) != k by {
                if i < fs.len() {
                    assert(xs[i] == fs[i]);
                } else {
                    assert(xs[i] == fc[i - fs.len()]);
                }
            }
            assert(xs[j] == fc[jc]);
            lemma_sub_in_somes(xs, k, j);
            lemma_cleaned_clears_below(cs, path.drop_first(), q.drop_first());
        }
    }
}

/// Law: setting a null value on a key that the state does not hold (no key and no
/// value there) clears, once merged, every key below it: the changes must hold
/// nothing below that key, as setting it to null leaves them (in tries where no node
/// has two subtries under one key).
pub proof fn law_null_on_missing_key_clears_below(
    state: StateView,
    change: StateView,
    path: Seq<Seq<char>>,
    q: Seq<Seq<char>>,
)
    requires
        state.keys_unique(),
        change.keys_unique(),
        clears_below(change, path),
        holds_nothing_at(state, path),
        path.len() < q.len(),
        q.take(path.len() as int) == path,
    ensures
        state.merged(change, false).lookup(q) is None,
{
    lemma_merge_clears_below(state, change, false, path, q);
}

impl StateTrie {
    pub closed spec fn view_trie(self) -> StateView
        decreases self,
    {
        StateView {
            is_path: self.is_path,
            value: opt_view(self.value),
            subtries: Seq::new(
                self.subtries@.len(),
                |i: int|
                    if 0 <= i < self.subtries@.len() {
                        (self.subtries@[i].0@, self.subtries@[i].1.view_trie())
                    } else {
                        (Seq::empty(), StateView { is_path: false, value: None, subtries: Seq::empty() })
                    },
            ),
        }
    }

    /// The map given to [`StateTrie::new`].
    pub closed spec fn content(self) -> Map<String, String> {
        self.content@
    }
}

impl StateTrie {
    /// Every state trie is free of repeated keys.
    #[verifier::type_invariant]
    pub open spec fn keys_are_unique(self) -> bool {
        self@.keys_unique()
    }
}

impl View for StateTrie {
    type V = StateView;

    open spec fn view(&self) -> StateView {
        self.view_trie()
    }
}

impl Clone for StateTrie {
    /// A copy of the whole trie.
    fn clone(&self) -> (r: StateTrie)
        ensures
            r@ == self@,
            r.content() == self.content(),
    {
        self.copy()
    }
}

impl Default for StateTrie {
    /// The empty trie (see [`StateTrie::empty`]).
    fn default() -> (r: StateTrie)
        ensures
            r@ == (StateView { is_path: false, value: None, subtries: Seq::empty() }),
            r.content() == Map::<String, String>::empty(),
    {
        StateTrie::empty()
    }
}

/// The views of a list of subtries.
pub closed spec fn subtries_view(s: Seq<(String, StateTrie)>) -> Seq<(Seq<char>, StateView)> {
    Seq::new(s.len(), |i: int| (s[i].0@, s[i].1@))
}

proof fn lemma_subtries_view(t: StateTrie)
    ensures
        t@.subtries == subtries_view(t.subtries@),
        t@.is_path == t.is_path,
        t@.value == opt_view(t.value),
{
    assert(t@.subtries =~= subtries_view(t.subtries@));
}

proof fn lemma_subtries_view_push(s: Seq<(String, StateTrie)>, e: (String, StateTrie))
    ensures
        subtries_view(s.push(e)) == subtries_view(s).push((e.0@, e.1@)),
{
    assert(subtries_view(s.push(e)) =~= subtries_view(s).push((e.0@, e.1@)));
}

/// Whether two optional values are the same.
fn same_value(a: &Option<String>, b: &Option<String>) -> (r: bool)
    ensures
        r == (opt_view(*a) == opt_view(*b)),
{
    match (a, b) {
        (Some(x), Some(y)) => *x == *y,
        (None, None) => true,
        _ => false,
    }
}

/// Position of the first subtrie under `key`, if any.
fn find_key(subtries: &Vec<(String, StateTrie)>, key: &String) -> (r: Option<usize>)
    ensures
        match r {
            Some(j) => j < subtries@.len() && key_pos(subtries_view(subtries@), key@) == j,
            None => key_pos(subtries_view(subtries@), key@) == -1,
        },
{
    let ghost sv = subtries_view(subtries@);
    let mut i: usize = 0;
    while i < subtries.len()
        invariant
            i <= subtries@.len(),
            sv == subtries_view(subtries@),
            forall|j: int| 0 <= j < i ==> sv[j].0 != key@,
        decreases subtries@.len() - i,
    {
        if subtries[i].0 == *key {
            proof {
                lemma_key_pos_at(sv, key@, i as int);
            }
            return Some(i);
        }
        i = i + 1;
    }
    proof {
        lemma_key_pos_at(sv, key@, -1);
    }
    None
}

impl StateTrie {
    /// A trie holding only `content`: no path, no value, no subtrie.
    pub fn new(content: HashMap<String, String>) -> (r: StateTrie)
        ensures
            r@ == (StateView { is_path: false, value: None, subtries: Seq::empty() }),
            r.content() == content@,
    {
        let r = StateTrie { content, is_path: false, value: None, subtries: Vec::new() };
        assert(r@.subtries =~= Seq::<(Seq<char>, StateView)>::empty());
        r
    }

    /// The empty trie: no path, no value, no subtrie.
    pub fn empty() -> (r: StateTrie)
        ensures
            r@ == (StateView { is_path: false, value: None, subtries: Seq::empty() }),
            r.content() == Map::<String, String>::empty(),
    {
        StateTrie::new(HashMap::new())
    }

    /// Whether the node holds nothing: it is not a path and has no subtrie.
    pub fn is_empty(&self) -> (r: bool)
        ensures
            r == self@.is_empty(),
    {
        proof {
            lemma_subtries_view(*self);
        }
        !self.is_path && self.subtries.len() == 0
    }

    /// A copy of the trie (with an empty content); with `null_values` every value is
    /// dropped.
    pub fn clone_inner(&self, null_values: bool) -> (r: StateTrie)
        ensures
            r@ == self@.cloned(null_values),
        decreases self,
    {
        proof {
            use_type_invariant(self);
            law_clone_keeps_keys_unique(self@, null_values);
        }
        let content: HashMap<String, String> = HashMap::new();
        let value = if null_values {
            None
        } else {
            self.value.clone()
        };
        let mut subs: Vec<(String, StateTrie)> = Vec::new();
        let mut i: usize = 0;
        let ghost target = self@.cloned(null_values);
        proof {
            lemma_subtries_view(*self);
            assert(subtries_view(subs@) =~= target.subtries.take(0));
        }
        while i < self.subtries.len()
            invariant
                i <= self.subtries@.len(),
                target == self@.cloned(null_values),
                self@.subtries == subtries_view(self.subtries@),
                opt_view(value) == target.value,
                subtries_view(subs@) == target.subtries.take(i as int),
            decreases self.subtries@.len() - i,
        {
            let sub = self.subtries[i].1.clone_inner(null_values);
            let ghost pre = subs@;
            subs.push((self.subtries[i].0.clone(), sub));
            proof {
                lemma_subtries_view_push(pre, (self.subtries@[i as int].0, sub));
                assert(target.subtries.take(i + 1) == target.subtries.take(i as int).push(
                    target.subtries[i as int],
                ));
            }
            i = i + 1;
        }
        proof {
            assert(target.subtries.take(i as int) == target.subtries);
            lemma_subtries_view(StateTrie { content, is_path: self.is_path, value, subtries: subs });
        }
        StateTrie { content, is_path: self.is_path, value, subtries: subs }
    }

    /// The value at the end of `path[index..]`.
    pub fn get_inner(&self, path: &[String], index: usize) -> (r: Option<String>)
        requires
            index <= path@.len(),
        ensures
            opt_view(r) == self@.lookup(strings_view(path@).skip(index as int)),
        decreases path@.len() - index,
    {
        proof {
            lemma_subtries_view(*self);
        }
        let ghost rest = strings_view(path@).skip(index as int);
        if index == path.len() {
            self.value.clone()
        } else {
            proof {
                assert(rest[0] == path@[index as int]@);
                assert(rest.drop_first() == strings_view(path@).skip(index + 1));
            }
            match find_key(&self.subtries, &path[index]) {
                Some(j) => self.subtries[j].1.get_inner(path, index + 1),
                None => None,
            }
        }
    }

    /// The value at `key`.
    pub fn get(&self, key: String) -> (r: Option<String>)
        ensures
            opt_view(r) == self@.lookup(state_segments(key@)),
    {
        let key_split = split_state_key(key.as_str());
        proof {
            assert(strings_view(key_split@).skip(0) == strings_view(key_split@));
        }
        self.get_inner(key_split.as_slice(), 0)
    }

    /// The number of nodes that are paths.
    pub fn size(&self) -> (r: i64)
        requires
            self@.count() <= i64::MAX,
        ensures
            r == self@.count(),
        decreases self,
    {
        proof {
            lemma_subtries_view(*self);
        }
        let ghost cs = self@.child_counts();
        let ghost own: int = if self.is_path { 1 } else { 0 };
        proof {
            assert forall|i: int| 0 <= i < cs.len() implies cs[i] >= 0 by {
                lemma_count_nonneg(self@.subtries[i].1);
            }
            lemma_sum_nonneg(cs);
            assert(cs.take(0) =~= Seq::<int>::empty());
        }
        let mut size: i64 = if self.is_path { 1 } else { 0 };
        let mut i: usize = 0;
        while i < self.subtries.len()
            invariant
                i <= self.subtries@.len(),
                self@.subtries == subtries_view(self.subtries@),
                cs.len() == self.subtries@.len(),
                self@.count() == own + sum(cs),
                self@.count() <= i64::MAX,
                own >= 0,
                forall|k: int| 0 <= k < cs.len() ==> cs[k] >= 0,
                forall|k: int| 0 <= k <= cs.len() ==> sum(#[trigger] cs.take(k)) <= sum(cs),
                forall|k: int| 0 <= k < cs.len() ==> cs[k] == (#[trigger] self.subtries@[k]).1@.count(),
                size == own + sum(cs.take(i as int)),
            decreases self.subtries@.len() - i,
        {
            proof {
                assert(cs.take(i + 1).drop_last() == cs.take(i as int));
                assert(cs.take(i + 1).last() == cs[i as int]);
                lemma_sum_nonneg(cs.take(i as int));
            }
            let sub = self.subtries[i].1.size();
            size = size + sub;
            i = i + 1;
        }
        proof {
            assert(cs.take(i as int) == cs);
        }
        size
    }

    /// Clears the node at the end of `path[index..]` (see [`StateView::removed`]);
    /// returns whether this node is left empty.
    pub fn remove_inner(&mut self, path: &[String], index: usize) -> (r: bool)
        requires
            index <= path@.len(),
        ensures
            final(self)@ == old(self)@.removed(strings_view(path@).skip(index as int)),
            r == final(self)@.is_empty(),
        decreases path@.len() - index,
    {
        proof {
            use_type_invariant(&*self);
            lemma_subtries_view(*self);
        }
        let ghost rest = strings_view(path@).skip(index as int);
        let ghost pre = self.subtries@;
        if index == path.len() {
            self.value = None;
            self.is_path = false;
            proof {
                lemma_subtries_view(*self);
            }
        } else {
            proof {
                assert(rest[0] == path@[index as int]@);
                assert(rest.drop_first() == strings_view(path@).skip(index + 1));
            }
            proof {
                lemma_key_pos(subtries_view(pre), rest[0]);
            }
            match find_key(&self.subtries, &path[index]) {
                Some(j) => {
                    let mut subs: Vec<(String, StateTrie)> = Vec::new();
                    std::mem::swap(&mut subs, &mut self.subtries);
                    let (k, mut child) = subs.remove(j);
                    proof {
                        assert(subtries_view(pre)[j as int] == (k@, child@));
                        assert(k@ == rest[0]);
                    }
                    let gone = child.remove_inner(path, index + 1);
                    if !gone {
                        subs.insert(j, (k, child));
                        proof {
                            assert(subs@ == pre.update(j as int, (k, child)));
                            assert(subtries_view(subs@) =~= subtries_view(pre).update(
                                j as int,
                                (k@, child@),
                            ));
                        }
                    } else {
                        proof {
                            assert(subtries_view(subs@) =~= subtries_view(pre).remove(j as int));
                        }
                    }
                    proof {
                        let g = StateTrie {
                            content: self.content,
                            is_path: self.is_path,
                            value: self.value,
                            subtries: subs,
                        };
                        lemma_subtries_view(g);
                        assert(g@ == old(self)@.removed(rest));
                        law_remove_keeps_keys_unique(old(self)@, rest);
                    }
                    self.subtries = subs;
                    proof {
                        lemma_subtries_view(*self);
                    }
                },
                None => {},
            }
        }
        self.is_empty()
    }

    /// Clears the node at `key` (see [`StateView::removed`]).
    pub fn remove(&mut self, key: String)
        ensures
            final(self)@ == old(self)@.removed(state_segments(key@)),
            final(self)@.keys_unique(),
    {
        let key_split = split_state_key(key.as_str());
        proof {
            assert(strings_view(key_split@).skip(0) == strings_view(key_split@));
        }
        self.remove_inner(key_split.as_slice(), 0);
        proof {
            use_type_invariant(&*self);
        }
    }

    /// Appends to `results` the (path, value) pairs of the trie, each path starting
    /// with `prefix` (see [`StateView::entries`]).
    pub fn fetch_all(&self, results: &mut Vec<(String, String)>, prefix: String, filter_secrets: bool)
        ensures
            entries_view(final(results)@) == entries_view(old(results)@) + self@.entries(
                prefix@,
                filter_secrets,
            ),
        decreases self,
    {
        proof {
            lemma_subtries_view(*self);
        }
        let ghost start = entries_view(results@);
        let ghost parts = self@.child_entries(prefix@, filter_secrets);
        let ghost own = if self@.is_path && (!filter_secrets || !ends_with_secret(prefix@))
            && self@.value is Some {
            seq![(prefix@, self@.value->Some_0)]
        } else {
            Seq::<(Seq<char>, Seq<char>)>::empty()
        };
        let secret = ends_with_secret_exec(prefix.as_str());
        if self.is_path && (!filter_secrets || !secret) && self.value.is_some() {
            let ghost pre = results@;
            results.push((prefix.clone(), self.value.clone().unwrap()));
            proof {
                assert(entries_view(results@) =~= entries_view(pre).push((prefix@, self@.value->Some_0)));
            }
        }
        proof {
            assert(entries_view(results@) =~= start + own + concat_entries(parts.take(0)));
        }
        let mut i: usize = 0;
        while i < self.subtries.len()
            invariant
                i <= self.subtries@.len(),
                self@.subtries == subtries_view(self.subtries@),
                parts.len() == self.subtries@.len(),
                forall|k: int| 0 <= k < parts.len() ==> parts[k] == (#[trigger] self.subtries@[k]).1@.entries(prefix@ + self.subtries@[k].0@, filter_secrets),
                entries_view(results@) == start + own + concat_entries(parts.take(i as int)),
            decreases self.subtries@.len() - i,
        {
            let key = &self.subtries[i].0;
            let sub_prefix = prefix.clone().concat(key.as_str());
            self.subtries[i].1.fetch_all(results, sub_prefix, filter_secrets);
            proof {
                assert(parts.take(i + 1).drop_last() == parts.take(i as int));
                assert(parts.take(i + 1).last() == parts[i as int]);
            }
            i = i + 1;
        }
        proof {
            assert(parts.take(i as int) == parts);
        }
    }

    /// Appends to `results` the changes of the trie as a client is told of them, each
    /// path starting with `prefix` (see [`StateView::change_entries`]).
    pub fn fetch_changes(&self, results: &mut Vec<(String, String)>, prefix: String, filter_secrets: bool)
        ensures
            entries_view(final(results)@) == entries_view(old(results)@) + self@.change_entries(
                prefix@,
                filter_secrets,
            ),
        decreases self,
    {
        proof {
            lemma_subtries_view(*self);
        }
        let ghost start = entries_view(results@);
        let ghost parts = self@.child_change_entries(prefix@, filter_secrets);
        let ghost own = if self@.is_path && (!filter_secrets || !ends_with_secret(prefix@)) {
            seq![(prefix@, shown_value(self@.value))]
        } else {
            Seq::<(Seq<char>, Seq<char>)>::empty()
        };
        let secret = ends_with_secret_exec(prefix.as_str());
        if self.is_path && (!filter_secrets || !secret) {
            let shown = match &self.value {
                Some(v) => v.clone(),
                None => String::from_str("null"),
            };
            let ghost pre = results@;
            results.push((prefix.clone(), shown));
            proof {
                assert(shown@ == shown_value(self@.value));
                assert(entries_view(results@) =~= entries_view(pre).push((prefix@, shown_value(self@.value))));
            }
        }
        proof {
            assert(entries_view(results@) =~= start + own + concat_entries(parts.take(0)));
        }
        let mut i: usize = 0;
        while i < self.subtries.len()
            invariant
                i <= self.subtries@.len(),
                self@.subtries == subtries_view(self.subtries@),
                parts.len() == self.subtries@.len(),
                forall|k: int| 0 <= k < parts.len() ==> parts[k] == (#[trigger] self.subtries@[k]).1@.change_entries(prefix@ + self.subtries@[k].0@, filter_secrets),
                entries_view(results@) == start + own + concat_entries(parts.take(i as int)),
            decreases self.subtries@.len() - i,
        {
            let key = &self.subtries[i].0;
            let sub_prefix = prefix.clone().concat(key.as_str());
            self.subtries[i].1.fetch_changes(results, sub_prefix, filter_secrets);
            proof {
                assert(parts.take(i + 1).drop_last() == parts.take(i as int));
                assert(parts.take(i + 1).last() == parts[i as int]);
            }
            i = i + 1;
        }
        proof {
            assert(parts.take(i as int) == parts);
        }
    }

    /// The changes of the trie as a client is told of them (see
    /// [`StateView::change_entries`]).
    pub fn get_changes(&self, filter_secrets: bool) -> (r: Vec<(String, String)>)
        ensures
            entries_view(r@) == self@.change_entries(Seq::empty(), filter_secrets),
    {
        let mut results: Vec<(String, String)> = Vec::new();
        let prefix = String::new();
        self.fetch_changes(&mut results, prefix, filter_secrets);
        assert(entries_view(Seq::<(String, String)>::empty()) =~= Seq::<(Seq<char>, Seq<char>)>::empty());
        results
    }

    /// The (path, value) pairs of the trie (see [`StateView::entries`]).
    pub fn get_all(&self, filter_secrets: bool) -> (r: Vec<(String, String)>)
        ensures
            entries_view(r@) == self@.entries(Seq::empty(), filter_secrets),
    {
        let mut results: Vec<(String, String)> = Vec::new();
        let prefix = String::new();
        self.fetch_all(&mut results, prefix, filter_secrets);
        assert(entries_view(Seq::<(String, String)>::empty()) =~= Seq::<(Seq<char>, Seq<char>)>::empty());
        results
    }

    /// The cleaned copy of the trie (see [`StateView::cleaned`]).
    fn cleaned_copy(&self) -> (r: Option<StateTrie>)
        ensures
            match r {
                Some(t) => self@.cleaned() == Some(t@),
                None => self@.cleaned() is None,
            },
        decreases self,
    {
        proof {
            use_type_invariant(self);
            lemma_cleaned_keeps_keys_unique(self@);
            lemma_subtries_view(*self);
        }
        let is_path = self.is_path && self.value.is_some();
        let content: HashMap<String, String> = HashMap::new();
        let value = self.value.clone();
        let mut subs: Vec<(String, StateTrie)> = Vec::new();
        let ghost parts = self@.child_cleaned();
        proof {
            assert(subtries_view(subs@) =~= somes(parts.take(0)));
        }
        let mut i: usize = 0;
        while i < self.subtries.len()
            invariant
                i <= self.subtries@.len(),
                self@.subtries == subtries_view(self.subtries@),
                parts == self@.child_cleaned(),
                is_path == self@.cleaned_is_path(),
                value == self.value,
                subtries_view(subs@) == somes(parts.take(i as int)),
            decreases self.subtries@.len() - i,
        {
            proof {
                lemma_somes_take(parts, i as int);
            }
            match self.subtries[i].1.cleaned_copy() {
                Some(sub) => {
                    let ghost pre = subs@;
                    subs.push((self.subtries[i].0.clone(), sub));
                    proof {
                        lemma_subtries_view_push(pre, (self.subtries@[i as int].0, sub));
                    }
                },
                None => {},
            }
            i = i + 1;
        }
        proof {
            assert(parts.take(i as int) == parts);
        }
        if !is_path && self.subtries.len() == 0 {
            None
        } else {
            proof {
                lemma_subtries_view(StateTrie { content, is_path, value, subtries: subs });
            }
            Some(StateTrie { content, is_path, value, subtries: subs })
        }
    }

    /// Cleans the node: without a value it stops being a path.  Returns the cleaned
    /// copy of the trie (see [`StateView::cleaned`]).
    pub fn clean_clone(&mut self) -> (r: Option<StateTrie>)
        ensures
            final(self)@ == (StateView { is_path: old(self)@.cleaned_is_path(), ..old(self)@ }),
            match r {
                Some(t) => old(self)@.cleaned() == Some(t@),
                None => old(self)@.cleaned() is None,
            },
    {
        proof {
            use_type_invariant(&*self);
            lemma_subtries_view(*self);
        }
        let r = self.cleaned_copy();
        if self.value.is_none() {
            proof {
                let g = StateTrie {
                    content: self.content,
                    is_path: false,
                    value: self.value,
                    subtries: self.subtries,
                };
                lemma_subtries_view(g);
                assert(g@.subtries == self@.subtries);
            }
            self.is_path = false;
        }
        proof {
            lemma_subtries_view(*old(self));
            lemma_subtries_view(*self);
        }
        r
    }

    /// The merge of the changes `change_trie` into this state (see
    /// [`StateView::merged`]).
    pub fn merge_inner_cloned(&self, change_trie: &StateTrie, removing: bool) -> (r: StateTrie)
        ensures
            r@ == self@.merged(change_trie@, removing),
        decreases self,
    {
        proof {
            use_type_invariant(self);
            use_type_invariant(change_trie);
            law_merge_keeps_keys_unique(self@, change_trie@, removing);
            lemma_subtries_view(*self);
            lemma_subtries_view(*change_trie);
        }
        let ghost top = merge_top(self@, change_trie@, removing);
        let mut removing = removing;
        let mut is_path;
        let mut value;
        if change_trie.is_path {
            if self.is_path && same_value(&self.value, &change_trie.value) {
                value = self.value.clone();
                is_path = true;
            } else {
                value = change_trie.value.clone();
                is_path = value.is_some();
                removing = removing || self.value.is_none();
            }
        } else {
            value = if removing {
                None
            } else {
                self.value.clone()
            };
            is_path = self.is_path && !removing;
        }
        let content: HashMap<String, String> = HashMap::new();
        let mut subs: Vec<(String, StateTrie)> = Vec::new();
        let ghost from_state = self@.merged_from_state(change_trie@, top.2);
        let ghost from_change = self@.merged_from_change(change_trie@);
        proof {
            assert(subtries_view(subs@) =~= somes(from_state.take(0)));
        }
        let mut i: usize = 0;
        while i < self.subtries.len()
            invariant
                i <= self.subtries@.len(),
                self@.subtries == subtries_view(self.subtries@),
                change_trie@.subtries == subtries_view(change_trie.subtries@),
                from_state == self@.merged_from_state(change_trie@, top.2),
                removing == top.2,
                is_path == top.0,
                opt_view(value) == top.1,
                subtries_view(subs@) == somes(from_state.take(i as int)),
            decreases self.subtries@.len() - i,
        {
            proof {
                lemma_somes_take(from_state, i as int);
            }
            let key = &self.subtries[i].0;
            let ghost pre = subs@;
            match find_key(&change_trie.subtries, key) {
                Some(j) => {
                    let sub = self.subtries[i].1.merge_inner_cloned(&change_trie.subtries[j].1, removing);
                    if !sub.is_empty() {
                        subs.push((key.clone(), sub));
                        proof {
                            lemma_subtries_view_push(pre, (self.subtries@[i as int].0, sub));
                        }
                    }
                },
                None => {
                    if !removing {
                        let sub = self.subtries[i].1.copy();
                        subs.push((key.clone(), sub));
                        proof {
                            lemma_subtries_view_push(pre, (self.subtries@[i as int].0, sub));
                        }
                    }
                },
            }
            i = i + 1;
        }
        proof {
            assert(from_state.take(i as int) == from_state);
            assert(somes(from_state) + somes(from_change.take(0)) == somes(from_state));
        }
        let mut j: usize = 0;
        while j < change_trie.subtries.len()
            invariant
                j <= change_trie.subtries@.len(),
                self@.subtries == subtries_view(self.subtries@),
                change_trie@.subtries == subtries_view(change_trie.subtries@),
                from_change == self@.merged_from_change(change_trie@),
                is_path == top.0,
                opt_view(value) == top.1,
                subtries_view(subs@) == somes(from_state) + somes(from_change.take(j as int)),
            decreases change_trie.subtries@.len() - j,
        {
            proof {
                lemma_somes_take(from_change, j as int);
            }
            let key = &change_trie.subtries[j].0;
            let ghost pre = subs@;
            if find_key(&self.subtries, key).is_none() {
                match change_trie.subtries[j].1.cleaned_copy() {
                    Some(sub) => {
                        subs.push((key.clone(), sub));
                        proof {
                            lemma_subtries_view_push(pre, (change_trie.subtries@[j as int].0, sub));
                        }
                    },
                    None => {},
                }
            }
            j = j + 1;
        }
        proof {
            assert(from_change.take(j as int) == from_change);
            lemma_subtries_view(StateTrie { content, is_path, value, subtries: subs });
        }
        StateTrie { content, is_path, value, subtries: subs }
    }

    /// The merge of the changes `change_trie` into this state.
    pub fn merge_cloned(&self, change_trie: &StateTrie) -> (r: StateTrie)
        ensures
            r@ == self@.merged(change_trie@, false),
            r@.keys_unique(),
    {
        let r = self.merge_inner_cloned(change_trie, false);
        proof {
            use_type_invariant(&r);
        }
        r
    }

    /// Sets the node reached by the keys `path[index..]` (see [`StateView::added`]).
    fn add_inner(&mut self, path: &[String], index: usize, obj: Option<String>)
        requires
            index <= path@.len(),
        ensures
            final(self)@ == old(self)@.added(strings_view(path@).skip(index as int), opt_view(obj)),
            final(self).content() == old(self).content(),
        decreases path@.len() - index,
    {
        proof {
            use_type_invariant(&*self);
            lemma_subtries_view(*self);
        }
        let ghost rest = strings_view(path@).skip(index as int);
        let ghost pre = self.subtries@;
        proof {
            law_add_keeps_keys_unique(old(self)@, rest, opt_view(obj));
        }
        let mut subs: Vec<(String, StateTrie)> = Vec::new();
        std::mem::swap(&mut subs, &mut self.subtries);
        if index == path.len() {
            let none = obj.is_none();
            if none {
                subs = Vec::new();
            }
            proof {
                assert(rest.len() == 0);
                if none {
                    assert(subtries_view(subs@) =~= Seq::<(Seq<char>, StateView)>::empty());
                }
                let g = StateTrie { content: self.content, is_path: true, value: obj, subtries: subs };
                lemma_subtries_view(g);
                assert(g@ == old(self)@.added(rest, opt_view(obj)));
            }
            self.is_path = true;
            self.value = obj;
            self.subtries = subs;
            proof {
                lemma_subtries_view(*self);
            }
        } else {
            proof {
                assert(rest[0] == path@[index as int]@);
                assert(rest.drop_first() == strings_view(path@).skip(index + 1));
            }
            match find_key(&subs, &path[index]) {
                Some(j) => {
                    proof {
                        lemma_key_pos(subtries_view(pre), rest[0]);
                        assert(subtries_view(pre)[j as int] == (pre[j as int].0@, pre[j as int].1@));
                    }
                    let (k, mut sub) = subs.remove(j);
                    let ghost old_sub = sub@;
                    proof {
                        assert(pre[j as int] == (k, sub));
                        assert(k@ == rest[0]);
                    }
                    sub.add_inner(path, index + 1, obj);
                    subs.insert(j, (k, sub));
                    proof {
                        assert(subs@ == pre.update(j as int, (k, sub)));
                        assert(subtries_view(subs@) =~= subtries_view(pre).update(
                            j as int,
                            (rest[0], old_sub.added(rest.drop_first(), opt_view(obj))),
                        ));
                    }
                },
                None => {
                    let mut sub = StateTrie::empty();
                    sub.add_inner(path, index + 1, obj);
                    let key = path[index].clone();
                    subs.push((key, sub));
                    proof {
                        lemma_subtries_view_push(pre, (key, sub));
                        assert(sub@ == empty_view().added(rest.drop_first(), opt_view(obj)));
                    }
                },
            }
            proof {
                let g = StateTrie {
                    content: self.content,
                    is_path: self.is_path,
                    value: self.value,
                    subtries: subs,
                };
                lemma_subtries_view(g);
                assert(g@ == old(self)@.added(rest, opt_view(obj)));
            }
            self.subtries = subs;
            proof {
                lemma_subtries_view(*self);
            }
        }
    }

    /// Sets the key `path` to `obj` (see [`StateView::added`]): the missing keys along
    /// it are created, and the node at its end becomes a path with value `obj`
    /// (dropping its subtries when `obj` is `None`).
    pub fn add(&mut self, path: String, obj: Option<String>)
        ensures
            final(self)@ == old(self)@.added(state_segments(path@), opt_view(obj)),
            final(self).content() == old(self).content(),
            final(self)@.keys_unique(),
    {
        let split = split_state_key(path.as_str());
        proof {
            assert(strings_view(split@).skip(0) == strings_view(split@));
        }
        self.add_inner(split.as_slice(), 0, obj);
        proof {
            use_type_invariant(&*self);
        }
    }

    /// Calls [`StateTrie::add`] for every (path, value) pair of `content`, in order.
    pub fn add_all(&mut self, content: Vec<(String, Option<String>)>)
        ensures
            final(self)@ == added_all(old(self)@, content@),
            final(self).content() == old(self).content(),
            final(self)@.keys_unique(),
    {
        proof {
            use_type_invariant(&*self);
        }
        let mut i: usize = 0;
        while i < content.len()
            invariant
                i <= content@.len(),
                self@ == added_all(old(self)@, content@.take(i as int)),
                self.content() == old(self).content(),
                self@.keys_unique(),
            decreases content@.len() - i,
        {
            let (k, v) = (content[i].0.clone(), content[i].1.clone());
            self.add(k, v);
            proof {
                let c = content@.take(i + 1);
                assert(c.drop_last() == content@.take(i as int));
                assert(c.last() == content@[i as int]);
                assert(opt_view(v) == opt_view(content@[i as int].1));
            }
            i = i + 1;
        }
        proof {
            assert(content@.take(i as int) == content@);
        }
    }

    /// The (path, value) pairs of the trie whose path `filter` covers (see
    /// [`intersect`]).
    pub fn filter(&self, filter: PathTrie, filter_secrets: bool) -> (r: Vec<(String, String)>)
        ensures
            entries_view(r@) == covered_by(filter, self@.entries(Seq::empty(), filter_secrets)),
    {
        intersect(&filter, self, filter_secrets)
    }

    /// A copy of the whole trie, content included.
    pub fn copy(&self) -> (r: StateTrie)
        ensures
            r@ == self@,
            r.content() == self.content(),
        decreases self,
    {
        proof {
            use_type_invariant(self);
        }
        let content = self.content.clone();
        let value = self.value.clone();
        let mut subs: Vec<(String, StateTrie)> = Vec::new();
        let mut i: usize = 0;
        proof {
            lemma_subtries_view(*self);
            assert(subtries_view(subs@) =~= self@.subtries.take(0));
        }
        while i < self.subtries.len()
            invariant
                i <= self.subtries@.len(),
                self@.subtries == subtries_view(self.subtries@),
                value == self.value,
                content@ == self.content@,
                subtries_view(subs@) == self@.subtries.take(i as int),
            decreases self.subtries@.len() - i,
        {
            let sub = self.subtries[i].1.copy();
            let ghost pre = subs@;
            subs.push((self.subtries[i].0.clone(), sub));
            proof {
                lemma_subtries_view_push(pre, (self.subtries@[i as int].0, sub));
                assert(self@.subtries.take(i + 1) == self@.subtries.take(i as int).push(
                    self@.subtries[i as int],
                ));
            }
            i = i + 1;
        }
        proof {
            assert(self@.subtries.take(i as int) == self@.subtries);
            lemma_subtries_view(StateTrie { content, is_path: self.is_path, value, subtries: subs });
        }
        StateTrie { content, is_path: self.is_path, value, subtries: subs }
    }

    /// A copy of the trie with every value dropped.
    pub fn clone_nulled(&self) -> (r: StateTrie)
        ensures
            r@ == self@.cloned(true),
            r@.keys_unique(),
    {
        let r = self.clone_inner(true);
        proof {
            use_type_invariant(&r);
        }
        r
    }
}

} // verus!
