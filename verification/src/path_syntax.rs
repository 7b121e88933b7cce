//! The syntax of state paths.
//!
//! A path such as `ScoreBoard.Period(1).Jam` is made of segments separated by the
//! delimiters `.` and `(`.  Two ways of cutting a path are used by the library:
//! pattern tokens, where every delimiter is consumed (`ScoreBoard`, `Period`, `1)`,
//! `Jam`), and state keys, where each piece but the first starts with the delimiter
//! that precedes it (`ScoreBoard`, `.Period`, `(1)`, `.Jam`).
use vstd::prelude::*;

verus! {

broadcast use vstd::string::group_string_axioms;

/// The characters at which a path is cut.
pub open spec fn is_delimiter(c: char) -> bool {
    c == '.' || c == '('
}

/// Index of the first delimiter of `s`, or `s.len()` when it has none.
pub open spec fn delimiter_index(s: Seq<char>) -> int
    decreases s.len(),
{
    if s.len() == 0 {
        0
    } else if is_delimiter(s[0]) {
        0
    } else {
        1 + delimiter_index(s.drop_first())
    }
}

/// `s` holds no delimiter.
pub open spec fn no_delimiter(s: Seq<char>) -> bool {
    forall|i: int| 0 <= i < s.len() ==> !is_delimiter(#[trigger] s[i])
}

pub proof fn lemma_delimiter_index(s: Seq<char>)
    ensures
        0 <= delimiter_index(s) <= s.len(),
        forall|i: int| 0 <= i < delimiter_index(s) ==> !is_delimiter(#[trigger] s[i]),
        delimiter_index(s) < s.len() ==> is_delimiter(s[delimiter_index(s)]),
    decreases s.len(),
{
    if s.len() > 0 && !is_delimiter(s[0]) {
        lemma_delimiter_index(s.drop_first());
        assert forall|i: int| 0 <= i < delimiter_index(s) implies !is_delimiter(#[trigger] s[i]) by {
            if i > 0 {
                assert(s[i] == s.drop_first()[i - 1]);
            }
        }
    }
}

/// The first delimiter of `s` sits at `j` when none comes before `j` and `s[j]` is one
/// (or `j` is the end of `s`).
pub proof fn lemma_delimiter_index_at(s: Seq<char>, j: int)
    requires
        0 <= j <= s.len(),
        forall|i: int| 0 <= i < j ==> !is_delimiter(#[trigger] s[i]),
        j < s.len() ==> is_delimiter(s[j]),
    ensures
        delimiter_index(s) == j,
{
    lemma_delimiter_index(s);
    let d = delimiter_index(s);
    if d < j {
        assert(!is_delimiter(s[d]));
    } else if d > j {
        assert(!is_delimiter(s[j]));
    }
}

/// Pattern tokens: `s` cut at every delimiter, the delimiters dropped.
/// There is always at least one token, and the last one follows the last delimiter.
pub open spec fn path_tokens(s: Seq<char>) -> Seq<Seq<char>>
    decreases s.len(),
{
    let d = delimiter_index(s);
    if 0 <= d < s.len() {
        seq![s.take(d)] + path_tokens(s.skip(d + 1))
    } else {
        seq![s]
    }
}

/// State keys: `s` cut just before every delimiter that is not its first character.
pub open spec fn state_segments(s: Seq<char>) -> Seq<Seq<char>>
    decreases s.len(),
{
    if s.len() == 0 {
        seq![s]
    } else {
        let d = 1 + delimiter_index(s.drop_first());
        if 1 <= d < s.len() {
            seq![s.take(d)] + state_segments(s.skip(d))
        } else {
            seq![s]
        }
    }
}

/// Concatenation of a sequence of strings.
pub open spec fn concat_all(parts: Seq<Seq<char>>) -> Seq<char>
    decreases parts.len(),
{
    if parts.len() == 0 {
        Seq::empty()
    } else {
        parts[0] + concat_all(parts.drop_first())
    }
}

/// Pattern tokens never hold a delimiter, and there is one more token than there are
/// delimiters in the path.
pub proof fn lemma_path_tokens(s: Seq<char>)
    ensures
        path_tokens(s).len() >= 1,
        forall|i: int| 0 <= i < path_tokens(s).len() ==> no_delimiter(#[trigger] path_tokens(s)[i]),
        no_delimiter(s) ==> path_tokens(s) == seq![s],
    decreases s.len(),
{
    lemma_delimiter_index(s);
    let d = delimiter_index(s);
    if d < s.len() {
        lemma_path_tokens(s.skip(d + 1));
        let rest = path_tokens(s.skip(d + 1));
        assert forall|i: int| 0 <= i < path_tokens(s).len() implies no_delimiter(
            #[trigger] path_tokens(s)[i],
        ) by {
            if i > 0 {
                assert(path_tokens(s)[i] == rest[i - 1]);
            }
        }
        assert(no_delimiter(s) ==> !is_delimiter(s[d]));
    }
}

/// Joining the state keys of a path gives the path back.
pub proof fn lemma_state_segments_concat(s: Seq<char>)
    ensures
        concat_all(state_segments(s)) == s,
        state_segments(s).len() >= 1,
    decreases s.len(),
{
    if s.len() > 0 {
        lemma_delimiter_index(s.drop_first());
        let d = 1 + delimiter_index(s.drop_first());
        if d < s.len() {
            lemma_state_segments_concat(s.skip(d));
            let parts = state_segments(s);
            assert(parts.drop_first() == state_segments(s.skip(d)));
            assert(s.take(d) + s.skip(d) == s);
        } else {
            assert(concat_all(seq![s]) == s + concat_all(seq![s].drop_first()));
            assert(seq![s].drop_first() == Seq::<Seq<char>>::empty());
        }
    } else {
        assert(concat_all(seq![s]) == s + concat_all(seq![s].drop_first()));
        assert(seq![s].drop_first() == Seq::<Seq<char>>::empty());
    }
}

/// Copies the characters of `s` into a vector.
pub fn chars_of(s: &str) -> (v: Vec<char>)
    ensures
        v@ == s@,
{
    let mut v: Vec<char> = Vec::new();
    for c in it: s.chars()
        invariant
            it.seq() == s@,
            v@ == it.seq().take(it.index() as int),
    {
        v.push(c);
    }
    v
}

/// Whether `c` is a delimiter.
pub fn delimiter(c: char) -> (r: bool)
    ensures
        r == is_delimiter(c),
{
    c == '.' || c == '('
}

/// The view of a vector of strings.
pub open spec fn strings_view(v: Seq<String>) -> Seq<Seq<char>> {
    v.map_values(|t: String| t@)
}

/// Cuts a pattern into its tokens (see [`path_tokens`]).
pub fn split_path(entry: &str) -> (tokens: Vec<String>)
    ensures
        strings_view(tokens@) == path_tokens(entry@),
{
    let chars = chars_of(entry);
    let n = chars.len();
    let mut tokens: Vec<String> = Vec::new();
    let mut start: usize = 0;
    let mut i: usize = 0;
    assert(entry@.skip(0) == entry@);
    assert(strings_view(tokens@) =~= Seq::<Seq<char>>::empty());
    assert(entry@.subrange(0, 0) =~= Seq::<char>::empty());
    while i < n
        invariant
            n == chars@.len(),
            chars@ == entry@,
            start <= i <= n,
            no_delimiter(entry@.subrange(start as int, i as int)),
            strings_view(tokens@) + path_tokens(entry@.skip(start as int)) == path_tokens(entry@),
        decreases n - i,
    {
        if delimiter(chars[i]) {
            let ghost rest = entry@.skip(start as int);
            proof {
                assert forall|k: int| 0 <= k < i - start implies !is_delimiter(#[trigger] rest[k]) by {
                    assert(rest[k] == entry@.subrange(start as int, i as int)[k]);
                }
                lemma_delimiter_index_at(rest, i - start);
                assert(rest.take(i - start) == entry@.subrange(start as int, i as int));
                assert(rest.skip(i - start + 1) == entry@.skip(i + 1));
            }
            let token = entry.substring_char(start, i).to_owned();
            let ghost old_tokens = tokens@;
            tokens.push(token);
            proof {
                assert(strings_view(tokens@) == strings_view(old_tokens).push(token@));
                assert(strings_view(tokens@) + path_tokens(entry@.skip(i + 1)) == path_tokens(
                    entry@,
                ));
            }
            start = i + 1;
            assert(entry@.subrange(start as int, start as int) =~= Seq::<char>::empty());
        } else {
            assert(entry@.subrange(start as int, i + 1) == entry@.subrange(start as int, i as int).push(
                chars@[i as int],
            ));
        }
        i = i + 1;
    }
    let ghost rest = entry@.skip(start as int);
    proof {
        assert(rest == entry@.subrange(start as int, n as int));
        lemma_delimiter_index_at(rest, rest.len() as int);
    }
    let last = entry.substring_char(start, n).to_owned();
    let ghost old_tokens = tokens@;
    tokens.push(last);
    proof {
        assert(strings_view(tokens@) == strings_view(old_tokens).push(last@));
    }
    tokens
}

/// Cuts a state path into its keys (see [`state_segments`]).
pub fn split_state_key(key: &str) -> (segments: Vec<String>)
    ensures
        strings_view(segments@) == state_segments(key@),
{
    let chars = chars_of(key);
    let n = chars.len();
    let mut segments: Vec<String> = Vec::new();
    if n == 0 {
        segments.push(key.to_owned());
        proof {
            assert(strings_view(segments@) =~= seq![key@]);
        }
        return segments;
    }
    let mut start: usize = 0;
    let mut i: usize = 1;
    assert(key@.skip(0) == key@);
    assert(strings_view(segments@) =~= Seq::<Seq<char>>::empty());
    assert(key@.subrange(1, 1) =~= Seq::<char>::empty());
    while i < n
        invariant
            n == chars@.len(),
            chars@ == key@,
            start < i <= n,
            no_delimiter(key@.subrange(start + 1, i as int)),
            strings_view(segments@) + state_segments(key@.skip(start as int)) == state_segments(
                key@,
            ),
        decreases n - i,
    {
        if delimiter(chars[i]) {
            let ghost rest = key@.skip(start as int);
            proof {
                let tail = rest.drop_first();
                assert forall|k: int| 0 <= k < i - start - 1 implies !is_delimiter(
                    #[trigger] tail[k],
                ) by {
                    assert(tail[k] == key@.subrange(start + 1, i as int)[k]);
                }
                assert(tail[i - start - 1] == chars@[i as int]);
                lemma_delimiter_index_at(tail, i - start - 1);
                assert(rest.take(i - start) == key@.subrange(start as int, i as int));
                assert(rest.skip(i - start) == key@.skip(i as int));
            }
            let segment = key.substring_char(start, i).to_owned();
            let ghost old_segments = segments@;
            segments.push(segment);
            proof {
                assert(strings_view(segments@) == strings_view(old_segments).push(segment@));
            }
            start = i;
            assert(key@.subrange(start + 1, start + 1) =~= Seq::<char>::empty());
        } else {
            assert(key@.subrange(start + 1, i + 1) == key@.subrange(start + 1, i as int).push(
                chars@[i as int],
            ));
        }
        i = i + 1;
    }
    let ghost rest = key@.skip(start as int);
    proof {
        let tail = rest.drop_first();
        assert forall|k: int| 0 <= k < tail.len() implies !is_delimiter(#[trigger] tail[k]) by {
            assert(tail[k] == key@.subrange(start + 1, n as int)[k]);
        }
        lemma_delimiter_index_at(tail, tail.len() as int);
        assert(rest == key@.subrange(start as int, n as int));
    }
    let last = key.substring_char(start, n).to_owned();
    let ghost old_segments = segments@;
    segments.push(last);
    proof {
        assert(strings_view(segments@) == strings_view(old_segments).push(last@));
    }
    segments
}

} // verus!
