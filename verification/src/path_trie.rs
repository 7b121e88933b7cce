//! A trie of path patterns: patterns are registered with [`PathTrie::add`], and
//! [`PathTrie::covers`] tells whether a path is matched by what was registered.
//!
//! A pattern is cut into tokens at every `.` and `(` (see
//! [`path_tokens`](crate::path_syntax::path_tokens)).  Inside parentheses a `*` that
//! ends the bracket (the token `*)`) stands for any one token, while anywhere else
//! `*` is an ordinary character.
use vstd::prelude::*;
use crate::path_syntax::{lemma_path_tokens, path_tokens, split_path, strings_view};
use crate::state_trie::{entries_view, StateTrie};

verus! {

/// A node of the trie: whether a registered pattern ends here, and the children by
/// token.  No token occurs twice among the children of a node.
#[derive(Debug)]
pub struct PathTrieChildren {
    is_path: bool,
    children: Vec<(String, PathTrieChildren)>,
}

/// The trie of registered patterns.
#[derive(Debug)]
pub struct PathTrie {
    root: PathTrieChildren,
}

/// The token that stands for any one token inside parentheses.
pub open spec fn star_token() -> Seq<char> {
    seq!['*', ')']
}

// ----- lookup in a list of children -----

pub closed spec fn keys_distinct(cs: Seq<(String, PathTrieChildren)>) -> bool {
    forall|i: int, j: int| 0 <= i < cs.len() && 0 <= j < cs.len() && i != j ==> cs[i].0@ != cs[j].0@
}

pub closed spec fn seq_has_key(cs: Seq<(String, PathTrieChildren)>, k: Seq<char>) -> bool {
    exists|i: int| 0 <= i < cs.len() && (#[trigger] cs[i]).0@ == k
}

pub closed spec fn seq_key_index(cs: Seq<(String, PathTrieChildren)>, k: Seq<char>) -> int {
    choose|i: int| 0 <= i < cs.len() && (#[trigger] cs[i]).0@ == k
}

pub closed spec fn seq_child(cs: Seq<(String, PathTrieChildren)>, k: Seq<char>) -> PathTrieChildren {
    cs[seq_key_index(cs, k)].1
}

pub proof fn lemma_key_index(cs: Seq<(String, PathTrieChildren)>, i: int)
    requires
        keys_distinct(cs),
        0 <= i < cs.len(),
    ensures
        seq_has_key(cs, cs[i].0@),
        seq_key_index(cs, cs[i].0@) == i,
        seq_child(cs, cs[i].0@) == cs[i].1,
{
    assert(seq_has_key(cs, cs[i].0@));
    let j = seq_key_index(cs, cs[i].0@);
    assert(0 <= j < cs.len() && cs[j].0@ == cs[i].0@);
}

/// Replacing the child under one key leaves every other key as it was.
pub proof fn lemma_update_child(
    cs: Seq<(String, PathTrieChildren)>,
    j: int,
    key: String,
    c: PathTrieChildren,
)
    requires
        keys_distinct(cs),
        0 <= j < cs.len(),
        cs[j].0@ == key@,
    ensures
        keys_distinct(cs.update(j, (key, c))),
        seq_has_key(cs.update(j, (key, c)), key@),
        seq_child(cs.update(j, (key, c)), key@) == c,
        forall|k: Seq<char>|
            k != key@ ==> (seq_has_key(cs.update(j, (key, c)), k) == seq_has_key(cs, k)),
        forall|k: Seq<char>|
            k != key@ && seq_has_key(cs, k) ==> seq_child(cs.update(j, (key, c)), k) == seq_child(
                cs,
                k,
            ),
{
    let cs2 = cs.update(j, (key, c));
    lemma_key_index(cs2, j);
    assert forall|k: Seq<char>| k != key@ implies (seq_has_key(cs2, k) == seq_has_key(cs, k)) by {
        if seq_has_key(cs, k) {
            let i = seq_key_index(cs, k);
            assert(cs2[i] == cs[i]);
        }
        if seq_has_key(cs2, k) {
            let i = seq_key_index(cs2, k);
            assert(cs2[i] == cs[i]);
        }
    }
    assert forall|k: Seq<char>| k != key@ && seq_has_key(cs, k) implies seq_child(cs2, k) == seq_child(cs, k) by {
        let i = seq_key_index(cs, k);
        assert(cs2[i] == cs[i]);
        lemma_key_index(cs, i);
        lemma_key_index(cs2, i);
    }
}

/// Appending a child under a new key leaves every other key as it was.
pub proof fn lemma_push_child(cs: Seq<(String, PathTrieChildren)>, key: String, c: PathTrieChildren)
    requires
        keys_distinct(cs),
        !seq_has_key(cs, key@),
    ensures
        keys_distinct(cs.push((key, c))),
        seq_has_key(cs.push((key, c)), key@),
        seq_child(cs.push((key, c)), key@) == c,
        forall|k: Seq<char>| k != key@ ==> (seq_has_key(cs.push((key, c)), k) == seq_has_key(cs, k)),
        forall|k: Seq<char>|
            k != key@ && seq_has_key(cs, k) ==> seq_child(cs.push((key, c)), k) == seq_child(cs, k),
{
    let cs2 = cs.push((key, c));
    assert forall|i: int, j: int|
        0 <= i < cs2.len() && 0 <= j < cs2.len() && i != j implies cs2[i].0@ != cs2[j].0@ by {
        if i == cs.len() {
            assert(cs2[j] == cs[j]);
        } else if j == cs.len() {
            assert(cs2[i] == cs[i]);
        } else {
            assert(cs2[i] == cs[i] && cs2[j] == cs[j]);
        }
    }
    lemma_key_index(cs2, cs.len() as int);
    assert forall|k: Seq<char>| k != key@ implies (seq_has_key(cs2, k) == seq_has_key(cs, k)) by {
        if seq_has_key(cs, k) {
            let i = seq_key_index(cs, k);
            assert(cs2[i] == cs[i]);
        }
        if seq_has_key(cs2, k) {
            let i = seq_key_index(cs2, k);
            assert(cs2[i] == cs[i]);
        }
    }
    assert forall|k: Seq<char>| k != key@ && seq_has_key(cs, k) implies seq_child(cs2, k) == seq_child(cs, k) by {
        let i = seq_key_index(cs, k);
        assert(cs2[i] == cs[i]);
        lemma_key_index(cs, i);
        lemma_key_index(cs2, i);
    }
}

impl PathTrieChildren {
    /// No token occurs twice among the children of any node.
    pub closed spec fn wf(self) -> bool
        decreases self,
    {
        &&& keys_distinct(self.children@)
        &&& forall|i: int| 0 <= i < self.children@.len() ==> (#[trigger] self.children@[i]).1.wf()
    }

    /// Every node ends a pattern or has a child, and so do its descendants.
    pub closed spec fn alive(self) -> bool
        decreases self,
    {
        &&& (self.is_path || self.children@.len() > 0)
        &&& forall|i: int| 0 <= i < self.children@.len() ==> (#[trigger] self.children@[i]).1.alive()
    }

    /// All children of the node are alive.
    pub closed spec fn children_alive(self) -> bool {
        forall|i: int| 0 <= i < self.children@.len() ==> (#[trigger] self.children@[i]).1.alive()
    }

    pub closed spec fn has_key(self, k: Seq<char>) -> bool {
        seq_has_key(self.children@, k)
    }

    pub closed spec fn child(self, k: Seq<char>) -> PathTrieChildren {
        seq_child(self.children@, k)
    }

    /// The token path `p` leads from this node to a node where a pattern ends.
    pub closed spec fn has_path(self, p: Seq<Seq<char>>) -> bool
        decreases p.len(),
    {
        if p.len() == 0 {
            self.is_path
        } else {
            self.has_key(p[0]) && self.child(p[0]).has_path(p.drop_first())
        }
    }

    /// A node with no pattern and no child.
    fn new() -> (r: PathTrieChildren)
        ensures
            !r.is_path,
            r.children@.len() == 0,
            r.wf(),
            forall|p: Seq<Seq<char>>| !r.has_path(p),
    {
        let r = PathTrieChildren { is_path: false, children: Vec::new() };
        assert forall|p: Seq<Seq<char>>| !r.has_path(p) by {
            if p.len() > 0 {
                assert(!r.has_key(p[0]));
            }
        }
        r
    }
}

/// Position of the child with token `key`, if there is one.
fn find_child(children: &Vec<(String, PathTrieChildren)>, key: &String) -> (r: Option<usize>)
    requires
        keys_distinct(children@),
    ensures
        r is None <==> !seq_has_key(children@, key@),
        r matches Some(j) ==> j < children@.len() && children@[j as int].0@ == key@ && seq_key_index(
            children@,
            key@,
        ) == j,
{
    let mut i: usize = 0;
    while i < children.len()
        invariant
            i <= children@.len(),
            keys_distinct(children@),
            forall|j: int| 0 <= j < i ==> (#[trigger] children@[j]).0@ != key@,
        decreases children.len() - i,
    {
        if children[i].0 == *key {
            proof {
                lemma_key_index(children@, i as int);
            }
            return Some(i);
        }
        i = i + 1;
    }
    None
}

/// Registers the tokens `tokens[i..]` below `node`.
fn insert_tokens(node: PathTrieChildren, tokens: &Vec<String>, i: usize) -> (r: PathTrieChildren)
    requires
        node.wf(),
        node.children_alive(),
        i < tokens@.len(),
    ensures
        r.wf(),
        r.children_alive(),
        r.is_path == node.is_path,
        r.children@.len() > 0,
        forall|p: Seq<Seq<char>>|
            #[trigger] r.has_path(p) == (node.has_path(p) || p == strings_view(tokens@).skip(
                i as int,
            )),
    decreases tokens@.len() - i,
{
    let ghost target = strings_view(tokens@).skip(i as int);
    let ghost old_children = node.children@;
    let PathTrieChildren { is_path, mut children } = node;
    let key = &tokens[i];
    let found = find_child(&children, key);
    let (k, child) = match found {
        Some(j) => children.remove(j),
        None => (key.clone(), PathTrieChildren::new()),
    };
    proof {
        if let Some(j) = found {
            assert(child == old_children[j as int].1);
            assert(child.wf());
            assert(child.children_alive());
        }
    }
    let n = tokens.len();
    let new_child = if i + 1 == n {
        let PathTrieChildren { is_path: _, children: grandchildren } = child;
        PathTrieChildren { is_path: true, children: grandchildren }
    } else {
        insert_tokens(child, tokens, i + 1)
    };
    proof {
        assert(target[0] == tokens@[i as int]@);
        assert(target.drop_first() == strings_view(tokens@).skip(i + 1));
        assert forall|q: Seq<Seq<char>>| #[trigger]
            new_child.has_path(q) == (child.has_path(q) || q == target.drop_first()) by {
            if i + 1 == tokens@.len() {
                assert(target.drop_first().len() == 0);
                assert(new_child.children@ == child.children@);
                if q.len() > 0 {
                    assert(new_child.has_key(q[0]) == child.has_key(q[0]));
                    assert(new_child.child(q[0]) == child.child(q[0]));
                    assert(new_child.has_path(q) == child.has_path(q));
                    assert(q != target.drop_first());
                } else {
                    assert(q =~= target.drop_first());
                }
            } else {
                assert(new_child.has_path(q) == (child.has_path(q) || q == strings_view(tokens@).skip(i + 1)));
            }
        }
        assert(new_child.alive());
    }
    let ghost pre = children@;
    match found {
        Some(j) => {
            children.insert(j, (k, new_child));
            proof {
                assert(pre.insert(j as int, (k, new_child)) == old_children.update(
                    j as int,
                    (k, new_child),
                ));
                lemma_update_child(old_children, j as int, k, new_child);
            }
        },
        None => {
            children.push((k, new_child));
            proof {
                lemma_push_child(old_children, k, new_child);
            }
        },
    }
    let r = PathTrieChildren { is_path, children };
    proof {
        assert forall|m: int| 0 <= m < r.children@.len() implies (#[trigger] r.children@[m]).1.wf()
            && r.children@[m].1.alive() by {
            match found {
                Some(j) => {
                    if m != j {
                        assert(r.children@[m] == old_children[m]);
                    }
                },
                None => {
                    if m < old_children.len() {
                        assert(r.children@[m] == old_children[m]);
                    }
                },
            }
        }
        assert forall|p: Seq<Seq<char>>| #[trigger]
            r.has_path(p) == (node.has_path(p) || p == target) by {
            if p.len() > 0 {
                if p[0] == k@ {
                    assert(target[0] == k@);
                    assert(r.has_key(k@) && r.child(k@) == new_child);
                    assert(r.has_path(p) == new_child.has_path(p.drop_first()));
                    assert(new_child.has_path(p.drop_first()) == (child.has_path(p.drop_first())
                        || p.drop_first() == target.drop_first()));
                    assert(node.has_path(p) == (node.has_key(k@) && node.child(k@).has_path(p.drop_first())));
                    match found {
                        Some(j) => {
                            lemma_key_index(old_children, j as int);
                            assert(node.has_key(k@) && node.child(k@) == child);
                        },
                        None => {
                            assert(!node.has_key(k@));
                            assert(!child.has_path(p.drop_first()));
                        },
                    }
                    if p == target {
                        assert(p.drop_first() == target.drop_first());
                    } else {
                        assert(p.drop_first() != target.drop_first()) by {
                            if p.drop_first() == target.drop_first() {
                                assert(p.len() == target.len());
                                assert forall|m: int| 0 <= m < p.len() implies p[m] == target[m] by {
                                    if m > 0 {
                                        assert(p[m] == p.drop_first()[m - 1]);
                                        assert(target[m] == target.drop_first()[m - 1]);
                                    }
                                }
                                assert(p =~= target);
                            }
                        }
                    }
                } else {
                    assert(p != target);
                    assert(r.has_key(p[0]) == node.has_key(p[0]));
                    if node.has_key(p[0]) {
                        assert(r.child(p[0]) == node.child(p[0]));
                    }
                }
            } else {
                assert(target.len() > 0);
            }
        }
    }
    r
}


/// The token `k` is among the children `a[n..]`.
pub closed spec fn key_done(a: Seq<(String, PathTrieChildren)>, n: int, k: Seq<char>) -> bool {
    seq_has_key(a, k) && seq_key_index(a, k) >= n
}

/// `x` holds exactly the patterns of the child `k` of `a` and of the child `k` of `b`
/// (where there is one).
pub closed spec fn merged_child(
    x: PathTrieChildren,
    a: Seq<(String, PathTrieChildren)>,
    b: Seq<(String, PathTrieChildren)>,
    k: Seq<char>,
) -> bool {
    &&& x.wf()
    &&& (seq_child(a, k).alive() && (seq_has_key(b, k) ==> seq_child(b, k).alive())) ==> x.alive()
    &&& forall|p: Seq<Seq<char>>| #[trigger]
        x.has_path(p) == (seq_child(a, k).has_path(p) || (seq_has_key(b, k) && seq_child(
            b,
            k,
        ).has_path(p)))
}

proof fn lemma_merge_step(
    pre_out: Seq<(String, PathTrieChildren)>,
    a: Seq<(String, PathTrieChildren)>,
    b: Seq<(String, PathTrieChildren)>,
    n: int,
    k: String,
    c: PathTrieChildren,
    alive_in: bool,
)
    requires
        keys_distinct(a),
        keys_distinct(pre_out),
        0 <= n < a.len(),
        a[n].0 == k,
        forall|x: Seq<char>| #[trigger] seq_has_key(pre_out, x) == key_done(a, n + 1, x),
        forall|x: Seq<char>| #[trigger]
            seq_has_key(pre_out, x) ==> merged_child(seq_child(pre_out, x), a, b, x),
        merged_child(c, a, b, k@),
        forall|i: int| 0 <= i < pre_out.len() ==> (#[trigger] pre_out[i]).1.wf(),
        alive_in ==> forall|i: int| 0 <= i < pre_out.len() ==> (#[trigger] pre_out[i]).1.alive(),
        alive_in ==> c.alive(),
    ensures
        keys_distinct(pre_out.push((k, c))),
        forall|x: Seq<char>| #[trigger] seq_has_key(pre_out.push((k, c)), x) == key_done(a, n, x),
        forall|x: Seq<char>| #[trigger]
            seq_has_key(pre_out.push((k, c)), x) ==> merged_child(
                seq_child(pre_out.push((k, c)), x),
                a,
                b,
                x,
            ),
        forall|i: int|
            0 <= i < pre_out.push((k, c)).len() ==> (#[trigger] pre_out.push((k, c))[i]).1.wf(),
        alive_in ==> forall|i: int|
            0 <= i < pre_out.push((k, c)).len() ==> (#[trigger] pre_out.push((k, c))[i]).1.alive(),
{
    lemma_key_index(a, n);
    assert(!seq_has_key(pre_out, k@));
    lemma_push_child(pre_out, k, c);
    let o = pre_out.push((k, c));
    assert forall|x: Seq<char>| #[trigger] seq_has_key(o, x) == key_done(a, n, x) by {
        if x != k@ {
            assert(seq_has_key(o, x) == seq_has_key(pre_out, x));
            assert(seq_has_key(pre_out, x) == key_done(a, n + 1, x));
            if seq_has_key(a, x) {
                let i = seq_key_index(a, x);
                assert(a[i].0@ == x);
                assert(i != n);
            }
        } else {
            assert(seq_has_key(o, x));
            assert(seq_key_index(a, k@) == n);
        }
    }
    assert forall|x: Seq<char>| #[trigger] seq_has_key(o, x) implies merged_child(
        seq_child(o, x),
        a,
        b,
        x,
    ) by {
        if x != k@ {
            assert(seq_has_key(pre_out, x));
            assert(merged_child(seq_child(pre_out, x), a, b, x));
            assert(seq_child(o, x) == seq_child(pre_out, x));
        } else {
            assert(seq_child(o, x) == c);
        }
    }
    assert forall|i: int| 0 <= i < o.len() implies (#[trigger] o[i]).1.wf() && (alive_in ==> o[i].1.alive()) by {
        if i < pre_out.len() {
            assert(o[i] == pre_out[i]);
        }
    }
}

/// Merges two nodes: the result holds the patterns of both.
fn internal_merge(p1: PathTrieChildren, p2: PathTrieChildren) -> (r: PathTrieChildren)
    requires
        p1.wf(),
        p2.wf(),
    ensures
        r.wf(),
        r.is_path == (p1.is_path || p2.is_path),
        r.children@.len() == 0 <==> (p1.children@.len() == 0 && p2.children@.len() == 0),
        p1.children_alive() && p2.children_alive() ==> r.children_alive(),
        forall|p: Seq<Seq<char>>| #[trigger] r.has_path(p) == (p1.has_path(p) || p2.has_path(p)),
    decreases p1,
{
    let ghost a = p1.children@;
    let ghost b = p2.children@;
    let ghost alive_in = p1.children_alive() && p2.children_alive();
    let PathTrieChildren { is_path: a_path, children: mut a_children } = p1;
    let PathTrieChildren { is_path: b_path, children: mut b_children } = p2;
    let mut out: Vec<(String, PathTrieChildren)> = Vec::new();
    assert(a_children@ == a.take(a.len() as int));
    while a_children.len() > 0
        invariant
            a == p1.children@,
            b == p2.children@,
            p1.wf(),
            p2.wf(),
            alive_in == (p1.children_alive() && p2.children_alive()),
            a_children@.len() <= a.len(),
            a_children@ == a.take(a_children@.len() as int),
            keys_distinct(out@),
            keys_distinct(b_children@),
            out@.len() == a.len() - a_children@.len(),
            forall|k: Seq<char>| #[trigger]
                seq_has_key(out@, k) == key_done(a, a_children@.len() as int, k),
            forall|k: Seq<char>| #[trigger]
                seq_has_key(b_children@, k) == (seq_has_key(b, k) && !key_done(
                    a,
                    a_children@.len() as int,
                    k,
                )),
            forall|k: Seq<char>| #[trigger]
                seq_has_key(b_children@, k) ==> seq_child(b_children@, k) == seq_child(b, k),
            forall|k: Seq<char>| #[trigger]
                seq_has_key(out@, k) ==> merged_child(seq_child(out@, k), a, b, k),
            forall|i: int| 0 <= i < out@.len() ==> (#[trigger] out@[i]).1.wf(),
            alive_in ==> forall|i: int| 0 <= i < out@.len() ==> (#[trigger] out@[i]).1.alive(),
            forall|i: int| 0 <= i < b_children@.len() ==> (#[trigger] b_children@[i]).1.wf(),
            alive_in ==> forall|i: int|
                0 <= i < b_children@.len() ==> (#[trigger] b_children@[i]).1.alive(),
        decreases a_children@.len(),
    {
        let ghost n = a_children@.len() - 1;
        let ghost pre_out = out@;
        let ghost pre_b = b_children@;
        let (k, v) = a_children.pop().unwrap();
        proof {
            assert(a[n] == (k, v));
            lemma_key_index(a, n);
            assert(v.wf());
            assert(decreases_to!(p1 => v)) by {
                assert(decreases_to!(p1 => p1.children));
                assert(decreases_to!(p1.children => p1.children[n]));
            }
        }
        let found = find_child(&b_children, &k);
        match found {
            Some(j) => {
                let (k2, w) = b_children.remove(j);
                proof {
                    lemma_key_index(pre_b, j as int);
                    assert(w == seq_child(b, k@));
                    assert(w.wf());
                    assert(alive_in ==> w.alive());
                }
                let m = internal_merge(v, w);
                proof {
                    assert(seq_child(a, k@) == v);
                    assert(m.alive() <== v.alive() && w.alive());
                    assert(merged_child(m, a, b, k@));
                    lemma_merge_step(pre_out, a, b, n, k, m, alive_in);
                }
                out.push((k, m));
                proof {
                    // the remaining children of `b` lose exactly `k`
                    let bc = b_children@;
                    assert(bc == pre_b.remove(j as int));
                    assert forall|x: Seq<char>| #[trigger]
                        seq_has_key(bc, x) == (seq_has_key(pre_b, x) && x != k@) by {
                        if seq_has_key(bc, x) {
                            let i = seq_key_index(bc, x);
                            if i < j {
                                assert(bc[i] == pre_b[i]);
                            } else {
                                assert(bc[i] == pre_b[i + 1]);
                            }
                        }
                        if seq_has_key(pre_b, x) && x != k@ {
                            let i = seq_key_index(pre_b, x);
                            if i < j {
                                assert(bc[i] == pre_b[i]);
                            } else {
                                assert(i != j);
                                assert(bc[i - 1] == pre_b[i]);
                            }
                        }
                    }
                    assert(keys_distinct(bc)) by {
                        assert forall|i1: int, i2: int|
                            0 <= i1 < bc.len() && 0 <= i2 < bc.len() && i1 != i2 implies bc[i1].0@
                            != bc[i2].0@ by {
                            let o1 = if i1 < j { i1 } else { i1 + 1 };
                            let o2 = if i2 < j { i2 } else { i2 + 1 };
                            assert(bc[i1] == pre_b[o1]);
                            assert(bc[i2] == pre_b[o2]);
                        }
                    }
                    assert forall|x: Seq<char>| #[trigger]
                        seq_has_key(bc, x) implies seq_child(bc, x) == seq_child(pre_b, x) by {
                        let i = seq_key_index(bc, x);
                        let o = if i < j { i } else { i + 1 };
                        assert(bc[i] == pre_b[o]);
                        lemma_key_index(bc, i);
                        lemma_key_index(pre_b, o);
                    }
                    assert forall|i: int| 0 <= i < bc.len() implies (#[trigger] bc[i]).1.wf() && (
                    alive_in ==> bc[i].1.alive()) by {
                        let o = if i < j { i } else { i + 1 };
                        assert(bc[i] == pre_b[o]);
                    }
                    assert forall|x: Seq<char>| #[trigger]
                        seq_has_key(bc, x) == (seq_has_key(b, x) && !key_done(a, n, x)) by {
                        if seq_has_key(a, x) {
                            lemma_key_index(a, seq_key_index(a, x));
                        }
                    }
                }
            },
            None => {
                proof {
                    assert(seq_child(a, k@) == v);
                    assert(!seq_has_key(b, k@));
                    assert(merged_child(v, a, b, k@));
                    assert(alive_in ==> v.alive());
                    lemma_merge_step(pre_out, a, b, n, k, v, alive_in);
                    assert forall|x: Seq<char>| #[trigger]
                        seq_has_key(pre_b, x) == (seq_has_key(b, x) && !key_done(a, n, x)) by {
                        if seq_has_key(a, x) {
                            lemma_key_index(a, seq_key_index(a, x));
                        }
                    }
                }
                out.push((k, v));
            },
        }
    }
    let ghost mid = out@;
    let ghost rest = b_children@;
    assert(b_children@.take(b_children@.len() as int) == b_children@);
    assert forall|x: Seq<char>| #[trigger] seq_has_key(mid, x) == seq_has_key(a, x) by {
        if seq_has_key(a, x) {
            lemma_key_index(a, seq_key_index(a, x));
        }
    }
    while b_children.len() > 0
        invariant
            keys_distinct(out@),
            keys_distinct(b_children@),
            forall|x: Seq<char>| !(seq_has_key(out@, x) && seq_has_key(b_children@, x)),
            forall|x: Seq<char>| #[trigger]
                seq_has_key(out@, x) == (seq_has_key(mid, x) || (seq_has_key(rest, x) && !seq_has_key(
                    b_children@,
                    x,
                ))),
            forall|x: Seq<char>| #[trigger]
                seq_has_key(mid, x) ==> seq_child(out@, x) == seq_child(mid, x),
            forall|x: Seq<char>| #[trigger]
                seq_has_key(rest, x) && !seq_has_key(b_children@, x) ==> seq_child(out@, x)
                    == seq_child(rest, x),
            forall|x: Seq<char>| #[trigger]
                seq_has_key(b_children@, x) ==> seq_child(b_children@, x) == seq_child(rest, x),
            b_children@ == rest.take(b_children@.len() as int),
            keys_distinct(rest),
            keys_distinct(a),
            forall|x: Seq<char>| #[trigger] seq_has_key(mid, x) == seq_has_key(a, x),
            forall|x: Seq<char>| #[trigger]
                seq_has_key(mid, x) ==> merged_child(seq_child(mid, x), a, b, x),
            forall|x: Seq<char>| #[trigger] seq_has_key(rest, x) == (seq_has_key(b, x) && !seq_has_key(a, x)),
            forall|x: Seq<char>| #[trigger]
                seq_has_key(rest, x) ==> seq_child(rest, x) == seq_child(b, x),
            b_children@.len() <= rest.len(),
            out@.len() >= mid.len(),
            forall|i: int| 0 <= i < out@.len() ==> (#[trigger] out@[i]).1.wf(),
            alive_in ==> forall|i: int| 0 <= i < out@.len() ==> (#[trigger] out@[i]).1.alive(),
            forall|i: int| 0 <= i < rest.len() ==> (#[trigger] rest[i]).1.wf(),
            alive_in ==> forall|i: int| 0 <= i < rest.len() ==> (#[trigger] rest[i]).1.alive(),
        decreases b_children@.len(),
    {
        let ghost pre_out = out@;
        let ghost pre_b = b_children@;
        let ghost n = b_children@.len() - 1;
        let e = b_children.pop().unwrap();
        let ghost ek = e.0@;
        proof {
            assert(rest[n] == e);
            lemma_key_index(rest, n);
            lemma_key_index(pre_b, n);
            assert(seq_has_key(pre_b, e.0@));
            assert(!seq_has_key(pre_out, e.0@));
            lemma_push_child(pre_out, e.0, e.1);
        }
        out.push(e);
        proof {
            let bc = b_children@;
            assert forall|x: Seq<char>| #[trigger]
                seq_has_key(bc, x) == (seq_has_key(pre_b, x) && x != e.0@) by {
                if seq_has_key(bc, x) {
                    let i = seq_key_index(bc, x);
                    assert(bc[i] == pre_b[i]);
                }
                if seq_has_key(pre_b, x) && x != e.0@ {
                    let i = seq_key_index(pre_b, x);
                    assert(i != n);
                    assert(bc[i] == pre_b[i]);
                }
            }
            assert forall|x: Seq<char>| #[trigger]
                seq_has_key(out@, x) == (seq_has_key(mid, x) || (seq_has_key(rest, x)
                    && !seq_has_key(bc, x))) by {
                if x == ek {
                    assert(seq_has_key(out@, x));
                    assert(!seq_has_key(mid, x));
                    assert(seq_has_key(rest, x));
                } else {
                    assert(seq_has_key(out@, x) == seq_has_key(pre_out, x));
                }
            }
            assert forall|x: Seq<char>| #[trigger]
                seq_has_key(bc, x) implies seq_child(bc, x) == seq_child(rest, x) by {
                let i = seq_key_index(bc, x);
                assert(bc[i] == pre_b[i]);
                lemma_key_index(pre_b, i);
            }
            assert forall|i: int| 0 <= i < out@.len() implies (#[trigger] out@[i]).1.wf() && (
            alive_in ==> out@[i].1.alive()) by {
                if i < pre_out.len() {
                    assert(out@[i] == pre_out[i]);
                }
            }
        }
    }
    let r = PathTrieChildren { is_path: a_path || b_path, children: out };
    proof {
        assert(b_children@.len() == 0);
        assert forall|p: Seq<Seq<char>>| #[trigger]
            r.has_path(p) == (p1.has_path(p) || p2.has_path(p)) by {
            if p.len() > 0 {
                let x = p[0];
                if seq_has_key(a, x) {
                    lemma_key_index(a, seq_key_index(a, x));
                    assert(seq_has_key(mid, x));
                    assert(merged_child(seq_child(mid, x), a, b, x));
                    assert(seq_has_key(out@, x));
                    assert(seq_child(out@, x) == seq_child(mid, x));
                    assert(seq_child(r.children@, x).has_path(p.drop_first()) == (seq_child(a, x).has_path(p.drop_first()) || (seq_has_key(b, x) && seq_child(b, x).has_path(p.drop_first()))));
                } else if seq_has_key(b, x) {
                    assert(seq_has_key(rest, x));
                }
            }
        }
        if p1.children@.len() > 0 {
            lemma_key_index(a, 0);
            assert(seq_has_key(mid, a[0].0@));
            assert(seq_has_key(out@, a[0].0@));
            assert(r.children@.len() > 0);
        }
        if p2.children@.len() > 0 {
            lemma_key_index(b, 0);
            if seq_has_key(a, b[0].0@) {
                lemma_key_index(a, seq_key_index(a, b[0].0@));
                assert(seq_has_key(mid, b[0].0@));
            } else {
                assert(seq_has_key(rest, b[0].0@));
            }
            assert(seq_has_key(out@, b[0].0@));
            assert(r.children@.len() > 0);
        }
        if r.children@.len() > 0 {
            let x = r.children@[0].0@;
            assert(seq_has_key(r.children@, x));
            if !seq_has_key(a, x) {
                assert(seq_has_key(rest, x));
                assert(seq_has_key(b, x));
            }
        }
    }
    r
}

/// Merges two tries: the result holds the patterns of both.
pub fn merge(p1: PathTrie, p2: PathTrie) -> (r: PathTrie)
    ensures
        r.well_formed(),
        r.patterns() == p1.patterns().union(p2.patterns()),
{
    proof {
        use_type_invariant(&p1);
        use_type_invariant(&p2);
    }
    let PathTrie { root: root1 } = p1;
    let PathTrie { root: root2 } = p2;
    let root = internal_merge(root1, root2);
    let r = PathTrie { root };
    assert(r.patterns() =~= p1.patterns().union(p2.patterns()));
    r
}


// ----- matching -----
//
// `covers` visits the trie breadth first, as a FIFO queue of (node, remainder) pairs
// would: every node of one level carries the same remainder of the path, so the
// queue is a sequence of levels, and level `k` is matched against token `k`.

/// What one node of a level contributes when it is matched against `key` while the
/// path goes on after `key`: `None` when the child under `key` ends a pattern (the
/// path is covered), else the nodes it passes to the next level (its `*)` child,
/// then its child under `key`).
pub closed spec fn node_step(node: PathTrieChildren, key: Seq<char>) -> Option<Seq<PathTrieChildren>> {
    if node.has_key(key) && node.child(key).is_path {
        None
    } else {
        let star = if node.has_key(star_token()) {
            seq![node.child(star_token())]
        } else {
            Seq::empty()
        };
        let next = if node.has_key(key) {
            seq![node.child(key)]
        } else {
            Seq::empty()
        };
        Some(star + next)
    }
}

/// Matching a whole level against `key` (not the last token): `None` when the path
/// is found covered, else the next level.
pub closed spec fn delim_level(level: Seq<PathTrieChildren>, key: Seq<char>) -> Option<
    Seq<PathTrieChildren>,
>
    decreases level.len(),
{
    if level.len() == 0 {
        Some(Seq::empty())
    } else {
        match node_step(level[0], key) {
            None => None,
            Some(m) => match delim_level(level.drop_first(), key) {
                None => None,
                Some(rest) => Some(m + rest),
            },
        }
    }
}

/// Matching the level against the last token `rem`: the path is covered when some node
/// of the level has a child under `rem` that ends a pattern, or a `*)` child that ends
/// a pattern, or ends a pattern itself.  An empty last token is never covered.
pub closed spec fn last_level(level: Seq<PathTrieChildren>, rem: Seq<char>) -> bool
    decreases level.len(),
{
    if level.len() == 0 || rem.len() == 0 {
        false
    } else {
        let node = level[0];
        if node.has_key(rem) && node.child(rem).is_path {
            true
        } else if node.has_key(star_token()) && node.child(star_token()).is_path {
            true
        } else if node.is_path {
            true
        } else {
            last_level(level.drop_first(), rem)
        }
    }
}

/// Matching the tokens `q[k..]`, starting from `level`.
pub closed spec fn search(level: Seq<PathTrieChildren>, q: Seq<Seq<char>>, k: int) -> bool
    decreases q.len() - k,
{
    if k < 0 || k >= q.len() {
        false
    } else if k + 1 == q.len() {
        last_level(level, q[k])
    } else {
        match delim_level(level, q[k]) {
            None => true,
            Some(next) => search(next, q, k + 1),
        }
    }
}

pub closed spec fn level_view(level: Seq<&PathTrieChildren>) -> Seq<PathTrieChildren> {
    level.map_values(|r: &PathTrieChildren| *r)
}

proof fn lemma_child_wf(node: PathTrieChildren, k: Seq<char>)
    requires
        node.wf(),
        node.has_key(k),
    ensures
        node.child(k).wf(),
{
    let i = seq_key_index(node.children@, k);
    assert(node.children@[i].1.wf());
}


// ----- equality -----

/// Two nodes are the same tree: they agree on ending a pattern, every child of
/// either has a child under the same token in the other, and the children of `a`
/// are the same trees as their counterparts in `b`.
pub closed spec fn same_tree(a: PathTrieChildren, b: PathTrieChildren) -> bool
    decreases a,
{
    &&& a.is_path == b.is_path
    &&& forall|i: int|
        0 <= i < a.children@.len() ==> has_twin(#[trigger] a.children@[i], b.children@)
    &&& forall|j: int|
        0 <= j < b.children@.len() ==> seq_has_key(a.children@, (#[trigger] b.children@[j]).0@)
}

/// Some child in `bs` has the token of `e` and is the same tree as it.
pub closed spec fn has_twin(e: (String, PathTrieChildren), bs: Seq<(String, PathTrieChildren)>) -> bool
    decreases e,
{
    exists|j: int| 0 <= j < bs.len() && bs[j].0@ == e.0@ && same_tree(e.1, #[trigger] bs[j].1)
}

impl PathTrieChildren {
    /// A copy of the node and everything below it.
    fn copy(&self) -> (r: PathTrieChildren)
        ensures
            same_tree(r, *self),
            self.wf() ==> r.wf(),
            self.alive() ==> r.alive(),
            self.children_alive() ==> r.children_alive(),
        decreases self,
    {
        let mut children: Vec<(String, PathTrieChildren)> = Vec::new();
        let mut i: usize = 0;
        while i < self.children.len()
            invariant
                i <= self.children@.len(),
                children@.len() == i,
                forall|j: int|
                    0 <= j < i ==> {
                        &&& (#[trigger] children@[j]).0@ == self.children@[j].0@
                        &&& same_tree(children@[j].1, self.children@[j].1)
                        &&& (self.children@[j].1.wf() ==> children@[j].1.wf())
                        &&& (self.children@[j].1.alive() ==> children@[j].1.alive())
                    },
            decreases self.children@.len() - i,
        {
            let c = self.children[i].1.copy();
            children.push((self.children[i].0.clone(), c));
            i = i + 1;
        }
        let r = PathTrieChildren { is_path: self.is_path, children };
        proof {
            let rc = r.children@;
            let sc = self.children@;
            assert forall|j: int| 0 <= j < rc.len() implies has_twin(#[trigger] rc[j], sc) by {
                assert(sc[j].0@ == rc[j].0@ && same_tree(rc[j].1, sc[j].1));
            }
            assert forall|j: int| 0 <= j < sc.len() implies seq_has_key(rc, (#[trigger] sc[j]).0@) by {
                assert(rc[j].0@ == sc[j].0@);
            }
            if self.wf() {
                assert forall|a: int, b: int| 0 <= a < rc.len() && 0 <= b < rc.len() && a != b implies rc[a].0@
                    != rc[b].0@ by {
                    assert(rc[a].0@ == sc[a].0@ && rc[b].0@ == sc[b].0@);
                }
                assert forall|j: int| 0 <= j < rc.len() implies (#[trigger] rc[j]).1.wf() by {
                    assert(sc[j].1.wf());
                }
            }
            if self.children_alive() {
                assert forall|j: int| 0 <= j < rc.len() implies (#[trigger] rc[j]).1.alive() by {
                    assert(sc[j].1.alive());
                }
            }
        }
        r
    }
}

/// Whether `a` and `b` are the same tree.
fn same_node(a: &PathTrieChildren, b: &PathTrieChildren) -> (r: bool)
    ensures
        r == same_tree(*a, *b),
    decreases a,
{
    if a.is_path != b.is_path {
        return false;
    }
    let mut i: usize = 0;
    while i < a.children.len()
        invariant
            i <= a.children@.len(),
            a.is_path == b.is_path,
            forall|i2: int| 0 <= i2 < i ==> has_twin(#[trigger] a.children@[i2], b.children@),
        decreases a.children@.len() - i,
    {
        let mut j: usize = 0;
        let mut found = false;
        while j < b.children.len() && !found
            invariant
                i < a.children@.len(),
                j <= b.children@.len(),
                found ==> has_twin(a.children@[i as int], b.children@),
                !found ==> forall|j2: int|
                    0 <= j2 < j ==> !(b.children@[j2].0@ == a.children@[i as int].0@ && same_tree(
                        a.children@[i as int].1,
                        #[trigger] b.children@[j2].1,
                    )),
            decreases b.children@.len() - j,
        {
            if b.children[j].0 == a.children[i].0 && same_node(&a.children[i].1, &b.children[j].1) {
                found = true;
            }
            j = j + 1;
        }
        if !found {
            assert(!has_twin(a.children@[i as int], b.children@));
            return false;
        }
        i = i + 1;
    }
    let mut j: usize = 0;
    while j < b.children.len()
        invariant
            j <= b.children@.len(),
            a.is_path == b.is_path,
            forall|i2: int|
                0 <= i2 < a.children@.len() ==> has_twin(#[trigger] a.children@[i2], b.children@),
            forall|j2: int|
                0 <= j2 < j ==> seq_has_key(a.children@, (#[trigger] b.children@[j2]).0@),
        decreases b.children@.len() - j,
    {
        let mut i: usize = 0;
        let mut found = false;
        while i < a.children.len() && !found
            invariant
                j < b.children@.len(),
                i <= a.children@.len(),
                found ==> seq_has_key(a.children@, b.children@[j as int].0@),
                !found ==> forall|i2: int|
                    0 <= i2 < i ==> (#[trigger] a.children@[i2]).0@ != b.children@[j as int].0@,
            decreases a.children@.len() - i,
        {
            if a.children[i].0 == b.children[j].0 {
                found = true;
            }
            i = i + 1;
        }
        if !found {
            assert(!seq_has_key(a.children@, b.children@[j as int].0@));
            assert(!same_tree(*a, *b));
            return false;
        }
        j = j + 1;
    }
    true
}


/// A live node leads to at least one pattern.
proof fn alive_witness(n: PathTrieChildren) -> (p: Seq<Seq<char>>)
    requires
        n.wf(),
        n.alive(),
    ensures
        n.has_path(p),
    decreases n,
{
    if n.is_path {
        Seq::empty()
    } else {
        let e = n.children@[0];
        lemma_key_index(n.children@, 0);
        assert(e.1.wf() && e.1.alive());
        let q = alive_witness(e.1);
        let p = seq![e.0@] + q;
        assert(p.drop_first() == q);
        p
    }
}

proof fn lemma_same_tree_paths(a: PathTrieChildren, b: PathTrieChildren, p: Seq<Seq<char>>)
    requires
        a.wf(),
        b.wf(),
        same_tree(a, b),
    ensures
        a.has_path(p) == b.has_path(p),
    decreases p.len(),
{
    if p.len() > 0 {
        let k = p[0];
        if a.has_key(k) {
            let i = seq_key_index(a.children@, k);
            lemma_key_index(a.children@, i);
            assert(has_twin(a.children@[i], b.children@));
            let j = choose|j: int|
                0 <= j < b.children@.len() && b.children@[j].0@ == a.children@[i].0@ && same_tree(
                    a.children@[i].1,
                    #[trigger] b.children@[j].1,
                );
            lemma_key_index(b.children@, j);
            assert(a.children@[i].1.wf() && b.children@[j].1.wf());
            lemma_same_tree_paths(a.children@[i].1, b.children@[j].1, p.drop_first());
        } else if b.has_key(k) {
            let j = seq_key_index(b.children@, k);
            assert(seq_has_key(a.children@, b.children@[j].0@));
        }
    }
}

proof fn lemma_same_paths_tree(a: PathTrieChildren, b: PathTrieChildren)
    requires
        a.wf(),
        b.wf(),
        a.children_alive(),
        b.children_alive(),
        forall|p: Seq<Seq<char>>| a.has_path(p) == b.has_path(p),
    ensures
        same_tree(a, b),
    decreases a,
{
    assert(a.has_path(Seq::empty()) == b.has_path(Seq::empty()));
    assert forall|i: int| 0 <= i < a.children@.len() implies has_twin(
        #[trigger] a.children@[i],
        b.children@,
    ) by {
        let e = a.children@[i];
        let k = e.0@;
        lemma_key_index(a.children@, i);
        assert(e.1.wf() && e.1.alive());
        let q = alive_witness(e.1);
        let p = seq![k] + q;
        assert(p.drop_first() == q);
        assert(a.has_path(p));
        assert(b.has_path(p));
        let j = seq_key_index(b.children@, k);
        lemma_key_index(b.children@, j);
        let d = b.children@[j].1;
        assert(d.wf() && d.alive());
        assert forall|q2: Seq<Seq<char>>| e.1.has_path(q2) == d.has_path(q2) by {
            let p2 = seq![k] + q2;
            assert(p2.drop_first() == q2);
            assert(a.has_path(p2) == b.has_path(p2));
        }
        lemma_same_paths_tree(e.1, d);
        assert(b.children@[j].0@ == e.0@ && same_tree(e.1, b.children@[j].1));
    }
    assert forall|j: int| 0 <= j < b.children@.len() implies seq_has_key(
        a.children@,
        (#[trigger] b.children@[j]).0@,
    ) by {
        let e = b.children@[j];
        lemma_key_index(b.children@, j);
        assert(e.1.wf() && e.1.alive());
        let q = alive_witness(e.1);
        let p = seq![e.0@] + q;
        assert(p.drop_first() == q);
        assert(b.has_path(p));
        assert(a.has_path(p));
    }
}

/// Law: two well-formed tries are `==` exactly when they hold the same patterns.
pub proof fn law_eq_iff_same_patterns(t1: PathTrie, t2: PathTrie)
    requires
        t1.well_formed(),
        t2.well_formed(),
    ensures
        t1.same_as(t2) <==> t1.patterns() == t2.patterns(),
{
    if t1.same_as(t2) {
        assert forall|p: Seq<Seq<char>>| t1.patterns().contains(p) == t2.patterns().contains(p) by {
            lemma_same_tree_paths(t1.root, t2.root, p);
        }
        assert(t1.patterns() =~= t2.patterns());
    }
    if t1.patterns() == t2.patterns() {
        assert forall|p: Seq<Seq<char>>| t1.root.has_path(p) == t2.root.has_path(p) by {
            assert(t1.patterns().contains(p) == t2.patterns().contains(p));
        }
        lemma_same_paths_tree(t1.root, t2.root);
    }
}


proof fn lemma_delim_level_member(level: Seq<PathTrieChildren>, key: Seq<char>, i: int)
    requires
        0 <= i < level.len(),
    ensures
        node_step(level[i], key) is None ==> delim_level(level, key) is None,
        node_step(level[i], key) matches Some(m) ==> (delim_level(level, key) matches Some(next)
            ==> forall|x: PathTrieChildren| m.contains(x) ==> next.contains(x)),
    decreases level.len(),
{
    if i > 0 {
        lemma_delim_level_member(level.drop_first(), key, i - 1);
        assert(level.drop_first()[i - 1] == level[i]);
        if let Some(m) = node_step(level[i], key) {
            if let Some(next) = delim_level(level, key) {
                let m0 = node_step(level[0], key)->Some_0;
                let rest = delim_level(level.drop_first(), key)->Some_0;
                assert(next == m0 + rest);
                assert forall|x: PathTrieChildren| m.contains(x) implies next.contains(x) by {
                    let w = choose|w: int| 0 <= w < rest.len() && rest[w] == x;
                    assert(next[m0.len() + w] == x);
                }
            }
        }
    } else {
        if let Some(m) = node_step(level[0], key) {
            if let Some(next) = delim_level(level, key) {
                let rest = delim_level(level.drop_first(), key)->Some_0;
                assert(next == m + rest);
                assert forall|x: PathTrieChildren| m.contains(x) implies next.contains(x) by {
                    let w = choose|w: int| 0 <= w < m.len() && m[w] == x;
                    assert(next[w] == x);
                }
            }
        }
    }
}

/// Following the tokens of a registered pattern through the levels of the search:
/// when node `n` of `level` leads to a pattern made of the tokens `q[j..=last]` and
/// the path goes on after `q[last]`, the path is covered.
proof fn lemma_search_along(
    level: Seq<PathTrieChildren>,
    q: Seq<Seq<char>>,
    j: int,
    n: PathTrieChildren,
    last: int,
)
    requires
        level.contains(n),
        n.wf(),
        0 <= j <= last,
        last + 1 < q.len(),
        n.has_path(q.subrange(j, last + 1)),
    ensures
        search(level, q, j),
    decreases last - j,
{
    let key = q[j];
    let sub = q.subrange(j, last + 1);
    assert(sub[0] == key);
    assert(n.has_key(key));
    let c = n.child(key);
    lemma_child_wf(n, key);
    let i = choose|i: int| 0 <= i < level.len() && level[i] == n;
    lemma_delim_level_member(level, key, i);
    if let Some(next) = delim_level(level, key) {
        let m = node_step(n, key)->Some_0;
        assert(!c.is_path);
        assert(m.contains(c)) by {
            assert(m[m.len() - 1] == c);
        }
        assert(next.contains(c));
        assert(sub.drop_first() == q.subrange(j + 1, last + 1));
        assert(c.has_path(sub.drop_first()));
        if j == last {
            assert(sub.drop_first() =~= Seq::<Seq<char>>::empty());
            assert(c.is_path);
            assert(false);
        } else {
            lemma_search_along(next, q, j + 1, c, last);
        }
        assert(search(level, q, j) == search(next, q, j + 1));
    } else {
        assert(search(level, q, j));
    }
}

proof fn lemma_search_empty_level(q: Seq<Seq<char>>, k: int)
    ensures
        !search(Seq::empty(), q, k),
    decreases q.len() - k,
{
    if 0 <= k < q.len() && k + 1 < q.len() {
        assert(delim_level(Seq::empty(), q[k]) == Some(Seq::<PathTrieChildren>::empty()));
        lemma_search_empty_level(q, k + 1);
    }
}

/// Law: a path that extends a registered pattern by at least one more segment is
/// covered (for instance `ScoreBoard.Period` covers `ScoreBoard.Period.Jam` and
/// `ScoreBoard.Period(1)`).
pub proof fn law_extension_of_pattern_is_covered(t: PathTrie, entry: Seq<char>, k: int)
    requires
        t.well_formed(),
        0 <= k,
        k + 1 < path_tokens(entry).len(),
        t.patterns().contains(path_tokens(entry).take(k + 1)),
    ensures
        t.spec_covers(entry),
{
    let q = path_tokens(entry);
    assert(q.take(k + 1) == q.subrange(0, k + 1));
    assert(seq![t.root][0] == t.root);
    lemma_search_along(seq![t.root], q, 0, t.root, k);
}

/// Law: a trie with no pattern covers no path.
pub proof fn law_empty_covers_nothing(t: PathTrie, entry: Seq<char>)
    requires
        t.well_formed(),
        t.patterns() == Set::<Seq<Seq<char>>>::empty(),
    ensures
        !t.spec_covers(entry),
{
    let q = path_tokens(entry);
    lemma_path_tokens(entry);
    let root = t.root;
    assert(!root.is_path) by {
        assert(!t.patterns().contains(Seq::empty()));
    }
    assert(root.children@.len() == 0) by {
        if root.children@.len() > 0 {
            let e = root.children@[0];
            lemma_key_index(root.children@, 0);
            let w = alive_witness(e.1);
            let p = seq![e.0@] + w;
            assert(p.drop_first() == w);
            assert(t.patterns().contains(p));
        }
    }
    let level = seq![root];
    assert(level.drop_first() =~= Seq::<PathTrieChildren>::empty());
    assert(!root.has_key(q[0]));
    assert(!root.has_key(star_token()));
    if q.len() > 1 {
        assert(node_step(root, q[0]) == Some(Seq::<PathTrieChildren>::empty() + Seq::<PathTrieChildren>::empty()));
        assert(Seq::<PathTrieChildren>::empty() + Seq::<PathTrieChildren>::empty() =~= Seq::<PathTrieChildren>::empty());
        assert(delim_level(level.drop_first(), q[0]) == Some(Seq::<PathTrieChildren>::empty()));
        assert(delim_level(level, q[0]) == Some(Seq::<PathTrieChildren>::empty()));
        lemma_search_empty_level(q, 1);
        assert(!search(level, q, 0));
    } else {
        assert(!last_level(level.drop_first(), q[0]));
        assert(!last_level(level, q[0]));
    }
}


/// The last level covers `rem` when one of its nodes has a child under `rem` that ends
/// a pattern.
proof fn lemma_last_level_member(level: Seq<PathTrieChildren>, rem: Seq<char>, i: int)
    requires
        0 <= i < level.len(),
        rem.len() > 0,
        level[i].has_key(rem),
        level[i].child(rem).is_path,
    ensures
        last_level(level, rem),
    decreases level.len(),
{
    if i > 0 {
        assert(level.drop_first()[i - 1] == level[i]);
        lemma_last_level_member(level.drop_first(), rem, i - 1);
    }
}

/// Following a registered pattern `q[k..]` from a node `n` of the level: the path `q`
/// is covered, when its last token is not empty.
proof fn lemma_search_pattern(level: Seq<PathTrieChildren>, n: PathTrieChildren, q: Seq<Seq<char>>, k: int)
    requires
        0 <= k < q.len(),
        q[q.len() - 1].len() > 0,
        level.contains(n),
        n.wf(),
        n.has_path(q.subrange(k, q.len() as int)),
    ensures
        search(level, q, k),
    decreases q.len() - k,
{
    let s = q.subrange(k, q.len() as int);
    let key = q[k];
    assert(s[0] == key);
    assert(n.has_key(key));
    let c = n.child(key);
    lemma_child_wf(n, key);
    assert(s.drop_first() == q.subrange(k + 1, q.len() as int));
    let i = choose|i: int| 0 <= i < level.len() && level[i] == n;
    if k + 1 == q.len() {
        assert(c.has_path(s.drop_first()));
        assert(s.drop_first() =~= Seq::<Seq<char>>::empty());
        assert(c.is_path);
        lemma_last_level_member(level, key, i);
    } else {
        lemma_delim_level_member(level, key, i);
        if let Some(next) = delim_level(level, key) {
            let m = node_step(n, key)->Some_0;
            assert(node_step(n, key) is Some);
            assert(m[m.len() - 1] == c);
            assert(m.contains(c));
            assert(next.contains(c));
            lemma_search_pattern(next, c, q, k + 1);
        }
    }
}

/// Law: a registered pattern covers the path written as that very pattern, whatever
/// else is registered, when its last segment is not empty.
pub proof fn law_registered_pattern_is_covered(t: PathTrie, entry: Seq<char>)
    requires
        t.well_formed(),
        t.patterns().contains(path_tokens(entry)),
        path_tokens(entry).last().len() > 0,
    ensures
        t.spec_covers(entry),
{
    let q = path_tokens(entry);
    lemma_path_tokens(entry);
    assert(q.subrange(0, q.len() as int) == q);
    assert(seq![t.root][0] == t.root);
    lemma_search_pattern(seq![t.root], t.root, q, 0);
}

/// Every pattern below `a` is also below `b`.
closed spec fn below(a: PathTrieChildren, b: PathTrieChildren) -> bool {
    forall|p: Seq<Seq<char>>| #[trigger] a.has_path(p) ==> b.has_path(p)
}

/// Each node of `l` has, in `l2`, a node that holds every pattern below it.
closed spec fn level_below(l: Seq<PathTrieChildren>, l2: Seq<PathTrieChildren>) -> bool {
    forall|i: int|
        0 <= i < l.len() ==> {
            &&& (#[trigger] l[i]).wf()
            &&& l[i].children_alive()
            &&& exists|j: int| 0 <= j < l2.len() && (#[trigger] l2[j]).wf() && below(l[i], l2[j])
        }
}

proof fn lemma_below_child(a: PathTrieChildren, b: PathTrieChildren, k: Seq<char>)
    requires
        a.wf(),
        a.children_alive(),
        b.wf(),
        below(a, b),
        a.has_key(k),
    ensures
        b.has_key(k),
        a.child(k).wf(),
        a.child(k).children_alive(),
        b.child(k).wf(),
        below(a.child(k), b.child(k)),
{
    let c = a.child(k);
    lemma_child_wf(a, k);
    let i = seq_key_index(a.children@, k);
    assert(a.children@[i].1.alive());
    let w = alive_witness(c);
    let full = seq![k] + w;
    assert(full.drop_first() == w);
    assert(full[0] == k);
    assert(a.has_path(full));
    assert(b.has_path(full));
    lemma_child_wf(b, k);
    assert forall|p: Seq<Seq<char>>| #[trigger] c.has_path(p) implies b.child(k).has_path(p) by {
        let f = seq![k] + p;
        assert(f.drop_first() == p);
        assert(f[0] == k);
        assert(a.has_path(f));
        assert(b.has_path(f));
    }
}

/// `z` is among the nodes that `x` passes to the next level for `key`.
closed spec fn steps_to(x: PathTrieChildren, key: Seq<char>, z: PathTrieChildren) -> bool {
    match node_step(x, key) {
        Some(m) => m.contains(z),
        None => false,
    }
}

/// Where a level does not decide, each node of the next level comes from a node of
/// this one; where it decides, some node decides it.
proof fn lemma_delim_origin(l: Seq<PathTrieChildren>, key: Seq<char>)
    ensures
        delim_level(l, key) matches Some(n) ==> forall|z: PathTrieChildren| n.contains(z) ==> exists|i: int|
            0 <= i < l.len() && #[trigger] steps_to(l[i], key, z),
        delim_level(l, key) is None ==> exists|i: int| 0 <= i < l.len() && (#[trigger] node_step(l[i], key)) is None,
    decreases l.len(),
{
    if l.len() > 0 {
        let rest = l.drop_first();
        lemma_delim_origin(rest, key);
        assert forall|i: int| 0 <= i < rest.len() implies rest[i] == l[i + 1] by {}
        match node_step(l[0], key) {
            None => {},
            Some(m0) => {
                match delim_level(rest, key) {
                    None => {
                        let i = choose|i: int| 0 <= i < rest.len() && (#[trigger] node_step(rest[i], key)) is None;
                        assert(node_step(l[i + 1], key) is None);
                    },
                    Some(r) => {
                        let n = m0 + r;
                        assert forall|z: PathTrieChildren| n.contains(z) implies exists|i: int|
                            0 <= i < l.len() && #[trigger] steps_to(l[i], key, z) by {
                            let w = choose|w: int| 0 <= w < n.len() && n[w] == z;
                            if w < m0.len() {
                                assert(m0[w] == z);
                                assert(m0.contains(z));
                                assert(node_step(l[0], key) == Some(m0));
                                assert(steps_to(l[0], key, z));
                            } else {
                                assert(r[w - m0.len()] == z);
                                assert(r.contains(z));
                                let i = choose|i: int| 0 <= i < rest.len() && #[trigger] steps_to(rest[i], key, z);
                                assert(node_step(l[i + 1], key) == node_step(rest[i], key));
                                assert(steps_to(l[i + 1], key, z));
                            }
                        }
                    },
                }
            },
        }
    }
}

proof fn lemma_delim_below(l: Seq<PathTrieChildren>, l2: Seq<PathTrieChildren>, key: Seq<char>)
    requires
        level_below(l, l2),
    ensures
        delim_level(l, key) is None ==> delim_level(l2, key) is None,
        delim_level(l, key) matches Some(n) ==> (delim_level(l2, key) matches Some(n2) ==> level_below(n, n2)),
{
    lemma_delim_origin(l, key);
    if delim_level(l, key) is None {
        let i = choose|i: int| 0 <= i < l.len() && (#[trigger] node_step(l[i], key)) is None;
        let x = l[i];
        let j = choose|j: int| 0 <= j < l2.len() && (#[trigger] l2[j]).wf() && below(x, l2[j]);
        let y = l2[j];
        lemma_below_child(x, y, key);
        assert(x.child(key).has_path(Seq::empty()));
        assert(y.child(key).has_path(Seq::empty()));
        assert(node_step(y, key) is None);
        lemma_delim_level_member(l2, key, j);
    }
    if let Some(n) = delim_level(l, key) {
        if let Some(n2) = delim_level(l2, key) {
            assert forall|a: int| 0 <= a < n.len() implies {
                &&& (#[trigger] n[a]).wf()
                &&& n[a].children_alive()
                &&& exists|b: int| 0 <= b < n2.len() && (#[trigger] n2[b]).wf() && below(n[a], n2[b])
            } by {
                let z = n[a];
                assert(n.contains(z));
                let i = choose|i: int| 0 <= i < l.len() && #[trigger] steps_to(l[i], key, z);
                let x = l[i];
                let m = node_step(x, key)->Some_0;
                let j = choose|j: int| 0 <= j < l2.len() && (#[trigger] l2[j]).wf() && below(x, l2[j]);
                let y = l2[j];
                lemma_delim_level_member(l2, key, j);
                let t = if x.has_key(star_token()) && z == x.child(star_token()) {
                    star_token()
                } else {
                    key
                };
                assert(x.has_key(t) && z == x.child(t)) by {
                    let w = choose|w: int| 0 <= w < m.len() && m[w] == z;
                    if x.has_key(star_token()) && w == 0 {
                    } else {
                    }
                }
                lemma_below_child(x, y, t);
                let z2 = y.child(t);
                let m2 = node_step(y, key)->Some_0;
                if t == key {
                    assert(x.child(key).is_path ==> y.child(key).is_path) by {
                        if x.child(key).is_path {
                            assert(x.child(key).has_path(Seq::empty()));
                        }
                    }
                    assert(!x.child(key).is_path);
                    if y.child(key).is_path {
                        assert(node_step(y, key) is None);
                        assert(false);
                    }
                    assert(m2[m2.len() - 1] == z2);
                } else {
                    if node_step(y, key) is None {
                        assert(false);
                    }
                    assert(m2[0] == z2);
                }
                assert(m2.contains(z2));
                assert(n2.contains(z2));
                let b = choose|b: int| 0 <= b < n2.len() && n2[b] == z2;
                assert(n2[b].wf() && below(z, n2[b]));
            }
        }
    }
}

/// A node that, at the last token `rem`, answers that the path is covered.
closed spec fn last_hit(n: PathTrieChildren, rem: Seq<char>) -> bool {
    ||| n.has_key(rem) && n.child(rem).is_path
    ||| n.has_key(star_token()) && n.child(star_token()).is_path
    ||| n.is_path
}

proof fn lemma_last_level_hit(level: Seq<PathTrieChildren>, rem: Seq<char>)
    ensures
        last_level(level, rem) <==> rem.len() > 0 && exists|i: int| 0 <= i < level.len() && last_hit(#[trigger] level[i], rem),
    decreases level.len(),
{
    if level.len() > 0 && rem.len() > 0 {
        let rest = level.drop_first();
        lemma_last_level_hit(rest, rem);
        if exists|i: int| 0 <= i < level.len() && last_hit(#[trigger] level[i], rem) {
            let i = choose|i: int| 0 <= i < level.len() && last_hit(#[trigger] level[i], rem);
            if !last_hit(level[0], rem) {
                assert(rest[i - 1] == level[i]);
            }
        }
        if exists|i: int| 0 <= i < rest.len() && last_hit(#[trigger] rest[i], rem) {
            let i = choose|i: int| 0 <= i < rest.len() && last_hit(#[trigger] rest[i], rem);
            assert(level[i + 1] == rest[i]);
        }
    }
}

proof fn lemma_search_below(l: Seq<PathTrieChildren>, l2: Seq<PathTrieChildren>, q: Seq<Seq<char>>, k: int)
    requires
        level_below(l, l2),
        search(l, q, k),
    ensures
        search(l2, q, k),
    decreases q.len() - k,
{
    if k + 1 == q.len() {
        lemma_last_level_hit(l, q[k]);
        lemma_last_level_hit(l2, q[k]);
        let rem = q[k];
        let i = choose|i: int| 0 <= i < l.len() && last_hit(#[trigger] l[i], rem);
        let x = l[i];
        let j = choose|j: int| 0 <= j < l2.len() && (#[trigger] l2[j]).wf() && below(x, l2[j]);
        let y = l2[j];
        if x.has_key(rem) && x.child(rem).is_path {
            lemma_below_child(x, y, rem);
            assert(x.child(rem).has_path(Seq::empty()));
        } else if x.has_key(star_token()) && x.child(star_token()).is_path {
            lemma_below_child(x, y, star_token());
            assert(x.child(star_token()).has_path(Seq::empty()));
        } else {
            assert(x.has_path(Seq::empty()));
        }
        assert(last_hit(y, rem));
    } else {
        lemma_delim_below(l, l2, q[k]);
        if let Some(n) = delim_level(l, q[k]) {
            if let Some(n2) = delim_level(l2, q[k]) {
                lemma_search_below(n, n2, q, k + 1);
            }
        }
    }
}

/// Law: registering more patterns never un-covers a path: a trie whose patterns
/// include those of `t` covers whatever `t` covers.
pub proof fn law_more_patterns_cover_more(t: PathTrie, t2: PathTrie, entry: Seq<char>)
    requires
        t.well_formed(),
        t2.well_formed(),
        t.patterns().subset_of(t2.patterns()),
        t.spec_covers(entry),
    ensures
        t2.spec_covers(entry),
{
    assert forall|p: Seq<Seq<char>>| #[trigger] t.root.has_path(p) implies t2.root.has_path(p) by {
        assert(t.patterns().contains(p));
    }
    let l = seq![t.root];
    let l2 = seq![t2.root];
    assert forall|i: int| 0 <= i < l.len() implies {
        &&& (#[trigger] l[i]).wf()
        &&& l[i].children_alive()
        &&& exists|j: int| 0 <= j < l2.len() && (#[trigger] l2[j]).wf() && below(l[i], l2[j])
    } by {
        assert(l[i] == t.root);
        assert(l2[0] == t2.root);
    }
    lemma_search_below(l, l2, path_tokens(entry), 0);
}

/// The pairs of `s` whose path `t` covers, in order.
pub open spec fn covered_by(t: PathTrie, s: Seq<(Seq<char>, Seq<char>)>) -> Seq<(Seq<char>, Seq<char>)>
    decreases s.len(),
{
    if s.len() == 0 {
        s
    } else if t.spec_covers(s.last().0) {
        covered_by(t, s.drop_last()).push(s.last())
    } else {
        covered_by(t, s.drop_last())
    }
}

/// The (path, value) pairs of `state_trie` (see
/// [`StateView::entries`](crate::state_trie::StateView::entries)) whose path
/// `path_trie` covers, in order.
pub fn intersect(path_trie: &PathTrie, state_trie: &StateTrie, filter_secrets: bool) -> (r: Vec<
    (String, String),
>)
    ensures
        entries_view(r@) == covered_by(*path_trie, state_trie@.entries(Seq::empty(), filter_secrets)),
{
    proof {
        use_type_invariant(path_trie);
    }
    let all_entries = state_trie.get_all(filter_secrets);
    let ghost all = entries_view(all_entries@);
    let mut result: Vec<(String, String)> = Vec::new();
    let mut i: usize = 0;
    proof {
        assert(all.take(0) =~= Seq::<(Seq<char>, Seq<char>)>::empty());
        assert(entries_view(result@) =~= Seq::<(Seq<char>, Seq<char>)>::empty());
    }
    while i < all_entries.len()
        invariant
            i <= all_entries@.len(),
            all == entries_view(all_entries@),
            path_trie.well_formed(),
            entries_view(result@) == covered_by(*path_trie, all.take(i as int)),
        decreases all_entries@.len() - i,
    {
        proof {
            assert(all.take(i + 1).drop_last() == all.take(i as int));
            assert(all.take(i + 1).last() == all[i as int]);
        }
        let ghost pre = result@;
        proof {
            assert(all[i as int] == (all_entries@[i as int].0@, all_entries@[i as int].1@));
        }
        let c = path_trie.covers(all_entries[i].0.as_str());
        proof {
            assert(c == path_trie.spec_covers(all_entries@[i as int].0@));
            assert(c == path_trie.spec_covers(all[i as int].0));
        }
        if c {
            result.push((all_entries[i].0.clone(), all_entries[i].1.clone()));
            proof {
                assert(entries_view(result@) =~= entries_view(pre).push(all[i as int]));
            }
        }
        i = i + 1;
    }
    proof {
        assert(all.take(i as int) == all);
    }
    result
}

impl Default for PathTrie {
    /// A trie with no pattern.
    fn default() -> (r: PathTrie)
        ensures
            r.well_formed(),
            r.patterns() == Set::<Seq<Seq<char>>>::empty(),
    {
        PathTrie::empty()
    }
}

impl Clone for PathTrie {
    /// A copy of the trie: the same tree, holding the same patterns.
    fn clone(&self) -> (r: PathTrie)
        ensures
            r.same_as(*self),
            r.patterns() == self.patterns(),
    {
        proof {
            use_type_invariant(self);
        }
        let r = PathTrie { root: self.root.copy() };
        proof {
            assert forall|p: Seq<Seq<char>>| r.patterns().contains(p) == self.patterns().contains(p) by {
                lemma_same_tree_paths(r.root, self.root, p);
            }
            assert(r.patterns() =~= self.patterns());
        }
        r
    }
}

impl PartialEq for PathTrie {
    fn eq(&self, other: &Self) -> (r: bool) {
        same_node(&self.root, &other.root)
    }
}

impl vstd::std_specs::cmp::PartialEqSpecImpl for PathTrie {
    open spec fn obeys_eq_spec() -> bool {
        true
    }

    open spec fn eq_spec(&self, other: &PathTrie) -> bool {
        self.same_as(*other)
    }
}

impl PathTrie {
    /// The two tries have the same shape (see [`same_tree`]); `==` decides it.
    pub closed spec fn same_as(&self, other: PathTrie) -> bool {
        same_tree(self.root, other.root)
    }

    /// The trie's invariant: no token occurs twice among the children of a node, and
    /// every node below the root ends a pattern or has a child.  Every trie keeps it.
    #[verifier::type_invariant]
    pub closed spec fn well_formed(&self) -> bool {
        self.root.wf() && self.root.children_alive()
    }

    /// The registered patterns, each as its sequence of tokens.
    pub closed spec fn patterns(&self) -> Set<Seq<Seq<char>>> {
        Set::new(|p: Seq<Seq<char>>| self.root.has_path(p))
    }

    /// A trie with no pattern.
    pub fn empty() -> (r: PathTrie)
        ensures
            r.well_formed(),
            r.patterns() == Set::<Seq<Seq<char>>>::empty(),
    {
        let r = PathTrie { root: PathTrieChildren::new() };
        assert(r.patterns() =~= Set::<Seq<Seq<char>>>::empty());
        r
    }

    /// Whether `entry` is covered by the registered patterns (see [`search`]).
    pub closed spec fn spec_covers(&self, entry: Seq<char>) -> bool {
        search(seq![self.root], path_tokens(entry), 0)
    }

    /// Whether `entry` is covered by the registered patterns.
    pub fn covers(&self, entry: &str) -> (r: bool)
        ensures
            r == self.spec_covers(entry@),
    {
        proof {
            use_type_invariant(self);
        }
        let q = split_path(entry);
        let ghost qv = strings_view(q@);
        proof {
            lemma_path_tokens(entry@);
            reveal_strlit("*)");
        }
        let star = String::from_str("*)");
        assert(star@ == star_token());
        let n = q.len();
        let mut level: Vec<&PathTrieChildren> = Vec::new();
        level.push(&self.root);
        assert(level_view(level@) =~= seq![self.root]);
        let mut k: usize = 0;
        while k + 1 < n
            invariant
                n == q@.len(),
                n >= 1,
                qv == strings_view(q@),
                qv == path_tokens(entry@),
                star@ == star_token(),
                k + 1 <= n,
                search(level_view(level@), qv, k as int) == search(seq![self.root], qv, 0),
                forall|i: int| 0 <= i < level@.len() ==> (#[trigger] level@[i]).wf(),
            decreases n - k,
        {
            let key = &q[k];
            let ghost lv = level_view(level@);
            let mut next: Vec<&PathTrieChildren> = Vec::new();
            let mut j: usize = 0;
            assert(lv.skip(0) == lv);
            assert(level_view(next@) =~= Seq::<PathTrieChildren>::empty());
            while j < level.len()
                invariant
                    j <= level@.len(),
                    lv == level_view(level@),
                    n == q@.len(),
                    k + 1 < n,
                    qv == path_tokens(entry@),
                    qv == strings_view(q@),
                    search(lv, qv, k as int) == search(seq![self.root], qv, 0),
                    key@ == qv[k as int],
                    star@ == star_token(),
                    forall|i: int| 0 <= i < level@.len() ==> (#[trigger] level@[i]).wf(),
                    forall|i: int| 0 <= i < next@.len() ==> (#[trigger] next@[i]).wf(),
                    delim_level(lv, key@) == match delim_level(lv.skip(j as int), key@) {
                        None => None::<Seq<PathTrieChildren>>,
                        Some(rest) => Some(level_view(next@) + rest),
                    },
                decreases level@.len() - j,
            {
                let node = level[j];
                proof {
                    assert(lv.skip(j as int)[0] == *node);
                    assert(lv.skip(j as int).drop_first() == lv.skip(j + 1));
                }
                let ghost pre_next = level_view(next@);
                let star_found = find_child(&node.children, &star);
                if let Some(si) = star_found {
                    let c = &node.children[si].1;
                    proof {
                        lemma_key_index(node.children@, si as int);
                        lemma_child_wf(*node, star_token());
                    }
                    next.push(c);
                }
                let key_found = find_child(&node.children, key);
                if let Some(ci) = key_found {
                    let c = &node.children[ci].1;
                    proof {
                        lemma_key_index(node.children@, ci as int);
                        lemma_child_wf(*node, key@);
                    }
                    if c.is_path {
                        proof {
                            assert(node.child(key@) == *c);
                            assert(node_step(*node, key@) is None);
                            assert(delim_level(lv.skip(j as int), key@) is None);
                            assert(qv.len() == n);
                            assert(search(lv, qv, k as int));
                        }
                        return true;
                    }
                    next.push(c);
                }
                proof {
                    let m = node_step(*node, key@)->Some_0;
                    assert(level_view(next@) =~= pre_next + m);
                }
                j = j + 1;
            }
            proof {
                assert(lv.skip(lv.len() as int) =~= Seq::<PathTrieChildren>::empty());
                assert(level_view(next@) + Seq::<PathTrieChildren>::empty() == level_view(next@));
            }
            level = next;
            k = k + 1;
        }
        // the last token
        let rem = &q[k];
        let ghost lv = level_view(level@);
        let mut j: usize = 0;
        assert(lv.skip(0) == lv);
        while j < level.len()
            invariant
                j <= level@.len(),
                k + 1 == n,
                n == q@.len(),
                rem@ == qv[k as int],
                qv == strings_view(q@),
                qv == path_tokens(entry@),
                lv == level_view(level@),
                star@ == star_token(),
                forall|i: int| 0 <= i < level@.len() ==> (#[trigger] level@[i]).wf(),
                last_level(lv, rem@) == last_level(lv.skip(j as int), rem@),
                search(lv, qv, k as int) == search(seq![self.root], qv, 0),
            decreases level@.len() - j,
        {
            let node = level[j];
            proof {
                assert(lv.skip(j as int)[0] == *node);
                assert(lv.skip(j as int).drop_first() == lv.skip(j + 1));
            }
            if rem.as_str().is_empty() {
                assert(rem@.len() == 0);
                return false;
            }
            let key_found = find_child(&node.children, rem);
            if let Some(ci) = key_found {
                proof {
                    lemma_key_index(node.children@, ci as int);
                }
                if node.children[ci].1.is_path {
                    return true;
                }
            }
            let star_found = find_child(&node.children, &star);
            if let Some(si) = star_found {
                proof {
                    lemma_key_index(node.children@, si as int);
                }
                assert(node.child(star_token()) == node.children@[si as int].1);
                if node.children[si].1.is_path {
                    return true;
                }
            }
            if node.is_path {
                return true;
            }
            j = j + 1;
        }
        assert(lv.skip(lv.len() as int) =~= Seq::<PathTrieChildren>::empty());
        false
    }

    /// Registers `entry`: its tokens become a pattern of the trie.
    pub fn add(&mut self, entry: &str)
        ensures
            final(self).well_formed(),
            final(self).patterns() == old(self).patterns().insert(path_tokens(entry@)),
    {
        proof {
            use_type_invariant(&*self);
        }
        let tokens = split_path(entry);
        proof {
            lemma_path_tokens(entry@);
            assert(strings_view(tokens@).skip(0) == strings_view(tokens@));
        }
        let mut root = PathTrieChildren::new();
        std::mem::swap(&mut root, &mut self.root);
        let new_root = insert_tokens(root, &tokens, 0);
        self.root = new_root;
        assert(self.patterns() =~= old(self).patterns().insert(path_tokens(entry@)));
    }

    /// Registers every entry of `entries`, in order.
    pub fn add_all(&mut self, entries: &[String])
        ensures
            final(self).well_formed(),
            final(self).patterns() == old(self).patterns().union(
                Set::new(|p: Seq<Seq<char>>| exists|i: int| 0 <= i < entries@.len() && p == path_tokens(#[trigger] entries@[i]@)),
            ),
    {
        proof {
            use_type_invariant(&*self);
        }
        let mut i: usize = 0;
        while i < entries.len()
            invariant
                i <= entries@.len(),
                self.well_formed(),
                self.patterns() == old(self).patterns().union(
                    Set::new(|p: Seq<Seq<char>>| exists|j: int| 0 <= j < i && p == path_tokens(#[trigger] entries@[j]@)),
                ),
            decreases entries@.len() - i,
        {
            let ghost before = self.patterns();
            self.add(entries[i].as_str());
            assert(self.patterns() =~= old(self).patterns().union(
                Set::new(|p: Seq<Seq<char>>| exists|j: int| 0 <= j < i + 1 && p == path_tokens(#[trigger] entries@[j]@)),
            ));
            i = i + 1;
        }
        assert(self.patterns() =~= old(self).patterns().union(
            Set::new(|p: Seq<Seq<char>>| exists|i: int| 0 <= i < entries@.len() && p == path_tokens(#[trigger] entries@[i]@)),
        ));
    }
}

} // verus!
