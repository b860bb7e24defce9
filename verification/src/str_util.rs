//! Patterns that select names.

use vstd::prelude::*;
use crate::backend::same_bytes;
use crate::sorted_map::SortedMap;
use crate::sorted_map::enumerates;
use crate::sorted_map::index_of;
use crate::sorted_map::keys_of;
use crate::sorted_map::lemma_entry_at;
use crate::sorted_map::lemma_selection_enumerates;
use crate::sorted_map::name_key;

verus! {

/// The byte `*`, which stands for any run of bytes in a glob.
pub const STAR: u8 = 42u8;

/// The byte `?`, which stands for any one character in a glob.
pub const QUESTION: u8 = 63u8;

/// A byte that continues a character begun by an earlier byte of a UTF-8
/// text.
pub open spec fn is_continuation(b: u8) -> bool {
    128 <= b < 192
}

/// `needle` occurs in `text` from position `at` on.
pub open spec fn occurs_at(needle: Seq<u8>, text: Seq<u8>, at: int) -> bool {
    &&& 0 <= at
    &&& at + needle.len() <= text.len()
    &&& forall|i: int| 0 <= i < needle.len() ==> needle[i] == text[at + i]
}

/// `needle` occurs somewhere in `text`.
pub open spec fn is_substring(needle: Seq<u8>, text: Seq<u8>) -> bool {
    exists|at: int| occurs_at(needle, text, at)
}

/// The first position from `j` on at which no continuation byte stands:
/// where the character that is under way at `j` ends.
pub open spec fn char_end(text: Seq<u8>, j: int) -> int
    decreases text.len() - j,
{
    if 0 <= j < text.len() && is_continuation(text[j]) {
        char_end(text, j + 1)
    } else {
        j
    }
}

/// The glob `glob[i..]` matches `text[j..]` as a whole: `*` matches any
/// run of bytes, `?` matches one whole character, and every other byte
/// matches itself.
pub open spec fn glob_matches_from(glob: Seq<u8>, text: Seq<u8>, i: int, j: int) -> bool
    decreases glob.len() - i, text.len() - j,
{
    if i < 0 || j < 0 || j > text.len() {
        false
    } else if i >= glob.len() {
        j == text.len()
    } else if glob[i] == STAR {
        glob_matches_from(glob, text, i + 1, j) || (j < text.len() && glob_matches_from(
            glob,
            text,
            i,
            j + 1,
        ))
    } else if glob[i] == QUESTION {
        j < text.len() && !is_continuation(text[j]) && glob_matches_from(
            glob,
            text,
            i + 1,
            char_end(text, j + 1),
        )
    } else {
        j < text.len() && text[j] == glob[i] && glob_matches_from(glob, text, i + 1, j + 1)
    }
}

/// The glob matches the whole text.
pub open spec fn glob_matches(glob: Seq<u8>, text: Seq<u8>) -> bool {
    glob_matches_from(glob, text, 0, 0)
}

proof fn lemma_char_end_bounds(text: Seq<u8>, j: int)
    requires
        0 <= j <= text.len(),
    ensures
        j <= char_end(text, j) <= text.len(),
    decreases text.len() - j,
{
    if j < text.len() && is_continuation(text[j]) {
        lemma_char_end_bounds(text, j + 1);
    }
}

/// Whether `needle` occurs in `text`.
pub fn contains_bytes(needle: &[u8], text: &[u8]) -> (r: bool)
    ensures
        r == is_substring(needle@, text@),
{
    if needle.len() > text.len() {
        return false;
    }
    let last: usize = text.len() - needle.len();
    let mut at: usize = 0;
    while at <= last
        invariant
            last == text.len() - needle.len(),
            at <= last + 1,
            forall|a: int| 0 <= a < at ==> !occurs_at(needle@, text@, a),
        decreases last + 1 - at,
    {
        let mut i: usize = 0;
        while i < needle.len() && needle[i] == text[at + i]
            invariant
                at <= last,
                last == text.len() - needle.len(),
                i <= needle.len(),
                forall|k: int| 0 <= k < i ==> needle@[k] == text@[at + k],
            decreases needle.len() - i,
        {
            i += 1;
        }
        if i == needle.len() {
            proof {
                assert(occurs_at(needle@, text@, at as int));
            }
            return true;
        }
        at += 1;
    }
    false
}

/// Whether the glob matches the whole text.
pub fn glob_match(glob: &[u8], text: &[u8]) -> (r: bool)
    ensures
        r == glob_matches(glob@, text@),
{
    let n: usize = text.len();
    // ends[j] is where the character under way at j ends.
    let mut ends: Vec<usize> = Vec::new();
    let mut j: usize = 0;
    while j < n
        invariant
            n == text.len(),
            j <= n,
            ends.len() == j,
            forall|k: int| 0 <= k < j ==> #[trigger] ends[k] == k,
        decreases n - j,
    {
        ends.push(j);
        j += 1;
    }
    ends.push(n);
    let mut j: usize = n;
    while j > 0
        invariant
            n == text.len(),
            j <= n,
            ends.len() == n + 1,
            forall|k: int| 0 <= k < j ==> #[trigger] ends[k] == k,
            forall|k: int| j <= k <= n ==> #[trigger] ends[k] == char_end(text@, k),
        decreases j,
    {
        j -= 1;
        if text[j] >= 128 && text[j] < 192 {
            let e = ends[j + 1];
            ends.set(j, e);
        }
    }
    // row[j] says whether glob[i..] matches text[j..].
    let mut row: Vec<bool> = Vec::new();
    let mut j: usize = 0;
    while j < n
        invariant
            n == text.len(),
            j <= n,
            row.len() == j,
            forall|k: int| 0 <= k < j ==> #[trigger] row[k] == glob_matches_from(
                glob@,
                text@,
                glob.len() as int,
                k,
            ),
        decreases n - j,
    {
        row.push(false);
        j += 1;
    }
    row.push(true);
    let mut i: usize = glob.len();
    while i > 0
        invariant
            n == text.len(),
            i <= glob.len(),
            row.len() == n + 1,
            ends.len() == n + 1,
            forall|k: int| 0 <= k <= n ==> #[trigger] ends[k] == char_end(text@, k),
            forall|k: int| 0 <= k <= n ==> #[trigger] row[k] == glob_matches_from(
                glob@,
                text@,
                i as int,
                k,
            ),
        decreases i,
    {
        i -= 1;
        let c = glob[i];
        let ghost prev = row@;
        let prev_last = row[n];
        if c == STAR {
            // From the end of the text backwards: each entry needs the old
            // entry at its place and the new one after it.
            let mut j: usize = n;
            while j > 0
                invariant
                    n == text.len(),
                    i < glob.len(),
                    glob[i as int] == STAR,
                    j <= n,
                    row.len() == n + 1,
                    prev.len() == n + 1,
                    forall|k: int| 0 <= k <= n ==> #[trigger] prev[k] == glob_matches_from(
                        glob@,
                        text@,
                        i + 1,
                        k,
                    ),
                    forall|k: int| 0 <= k < j ==> #[trigger] row[k] == prev[k],
                    forall|k: int| j <= k <= n ==> #[trigger] row[k] == glob_matches_from(
                        glob@,
                        text@,
                        i as int,
                        k,
                    ),
                decreases j,
            {
                j -= 1;
                let v = row[j] || row[j + 1];
                row.set(j, v);
            }
        } else if c == QUESTION {
            row.set(n, false);
            let mut j: usize = 0;
            while j < n
                invariant
                    n == text.len(),
                    i < glob.len(),
                    glob[i as int] == QUESTION,
                    j <= n,
                    row[n as int] == false,
                    prev_last == prev[n as int],
                    row.len() == n + 1,
                    prev.len() == n + 1,
                    ends.len() == n + 1,
                    forall|k: int| 0 <= k <= n ==> #[trigger] ends[k] == char_end(text@, k),
                    forall|k: int| 0 <= k <= n ==> #[trigger] prev[k] == glob_matches_from(
                        glob@,
                        text@,
                        i + 1,
                        k,
                    ),
                    forall|k: int| j <= k < n ==> #[trigger] row[k] == prev[k],
                    forall|k: int| 0 <= k < j ==> #[trigger] row[k] == glob_matches_from(
                        glob@,
                        text@,
                        i as int,
                        k,
                    ),
                decreases n - j,
            {
                let v = if !(text[j] >= 128 && text[j] < 192) {
                    let e = ends[j + 1];
                    proof {
                        lemma_char_end_bounds(text@, j + 1);
                    }
                    if e == n {
                        prev_last
                    } else {
                        row[e]
                    }
                } else {
                    false
                };
                row.set(j, v);
                j += 1;
            }
        } else {
            row.set(n, false);
            let mut j: usize = 0;
            while j < n
                invariant
                    n == text.len(),
                    i < glob.len(),
                    glob[i as int] == c,
                    c != STAR,
                    c != QUESTION,
                    j <= n,
                    row[n as int] == false,
                    prev_last == prev[n as int],
                    row.len() == n + 1,
                    prev.len() == n + 1,
                    forall|k: int| 0 <= k <= n ==> #[trigger] prev[k] == glob_matches_from(
                        glob@,
                        text@,
                        i + 1,
                        k,
                    ),
                    forall|k: int| j <= k < n ==> #[trigger] row[k] == prev[k],
                    forall|k: int| 0 <= k < j ==> #[trigger] row[k] == glob_matches_from(
                        glob@,
                        text@,
                        i as int,
                        k,
                    ),
                decreases n - j,
            {
                let next = if j + 1 == n {
                    prev_last
                } else {
                    row[j + 1]
                };
                let v = text[j] == c && next;
                row.set(j, v);
                j += 1;
            }
        }
    }
    row[0]
}

/// A pattern that selects names.
#[derive(Clone, Debug, PartialEq, Eq)]
pub enum StringPattern {
    /// Selects the name that equals the string.
    Exact(String),
    /// Selects the names that hold the string somewhere.
    Substring(String),
    /// Selects the names that the glob matches as a whole; in it `*`
    /// stands for any run of bytes and `?` for any one character.
    Glob(String),
}

impl StringPattern {
    /// The pattern selects the name whose bytes are `text`.
    pub open spec fn matches_key(&self, text: Seq<u8>) -> bool {
        match *self {
            StringPattern::Exact(s) => text == name_key(s@),
            StringPattern::Substring(s) => is_substring(name_key(s@), text),
            StringPattern::Glob(s) => glob_matches(name_key(s@), text),
        }
    }

    /// The pattern that selects every name.
    pub fn everything() -> (r: Self)
        ensures
            forall|text: Seq<u8>| r.matches_key(text),
    {
        let r = StringPattern::Substring(String::new());
        proof {
            assert forall|text: Seq<u8>| r.matches_key(text) by {
                assert(name_key(Seq::<char>::empty()) =~= Seq::<u8>::empty())
                    by {
                    reveal_with_fuel(vstd::utf8::encode_utf8, 2);
                }
                assert(occurs_at(Seq::<u8>::empty(), text, 0));
            }
        }
        r
    }

    /// The pattern that selects the name `name` and no other.
    pub fn exact(name: &str) -> (r: Self)
        ensures
            forall|text: Seq<u8>| r.matches_key(text) == (text == name_key(name@)),
    {
        StringPattern::Exact(name.to_owned())
    }

    /// The pattern that selects the names in which `part` occurs.
    pub fn substring(part: &str) -> (r: Self)
        ensures
            forall|text: Seq<u8>|
                r.matches_key(text) == is_substring(name_key(part@), text),
    {
        StringPattern::Substring(part.to_owned())
    }

    /// The pattern that selects the names that `glob` matches as a whole.
    pub fn glob(glob: &str) -> (r: Self)
        ensures
            forall|text: Seq<u8>|
                r.matches_key(text) == glob_matches(name_key(glob@), text),
    {
        StringPattern::Glob(glob.to_owned())
    }

    /// Whether the pattern selects the name with the bytes `text`.
    pub fn matches_bytes(&self, text: &[u8]) -> (r: bool)
        ensures
            r == self.matches_key(text@),
    {
        match self {
            StringPattern::Exact(s) => same_bytes(text, s.as_str().as_bytes()),
            StringPattern::Substring(s) => contains_bytes(s.as_str().as_bytes(), text),
            StringPattern::Glob(s) => glob_match(s.as_str().as_bytes(), text),
        }
    }

    /// Whether the pattern selects `name`.
    pub fn matches(&self, name: &str) -> (r: bool)
        ensures
            r == self.matches_key(name_key(name@)),
    {
        self.matches_bytes(name.as_bytes())
    }
}

/// The keys of a list of named items, in the order of the list.
pub open spec fn names_of<'a, T>(r: Seq<(&'a str, T)>) -> Seq<Seq<u8>> {
    Seq::new(r.len(), |j: int| name_key(r[j].0@))
}

impl StringPattern {
    /// The entries of `map` whose names the pattern selects, in the order
    /// of their names.
    pub fn filter_sorted_map<'a, V>(&self, map: &'a SortedMap<String, V>) -> (r: Vec<
        (&'a str, &'a V),
    >)
        requires
            map.wf(),
        ensures
            enumerates(
                names_of(r@),
                Set::new(|k: Seq<u8>| map@.contains_key(k) && self.matches_key(k)),
            ),
            forall|j: int| 0 <= j < r.len() ==> *(#[trigger] r[j]).1 == map@[names_of(r@)[j]],
    {
        let ghost s = map.entries();
        let ghost keys = Set::new(|k: Seq<u8>| map@.contains_key(k) && self.matches_key(k));
        let mut out: Vec<(&'a str, &'a V)> = Vec::new();
        let ghost mut picked: Seq<int> = Seq::empty();
        let mut i: usize = 0;
        while i < map.len()
            invariant
                s == map.entries(),
                map.wf(),
                i <= s.len(),
                picked.len() == out.len(),
                forall|j: int| 0 <= j < picked.len() ==> 0 <= #[trigger] picked[j] < i,
                forall|a: int, b: int|
                    0 <= a < b < picked.len() ==> #[trigger] picked[a] < #[trigger] picked[b],
                forall|j: int|
                    0 <= j < picked.len() ==> (#[trigger] out[j]).0@ == s[picked[j]].0@ && *out[j].1
                        == s[picked[j]].1,
                forall|j: int|
                    0 <= j < picked.len() ==> self.matches_key(
                        #[trigger] keys_of(s)[picked[j]],
                    ),
                forall|p: int|
                    0 <= p < i && self.matches_key(#[trigger] keys_of(s)[p])
                        ==> exists|j: int| 0 <= j < picked.len() && #[trigger] picked[j] == p,
            decreases s.len() - i,
        {
            let name = map.key_at(i).as_str();
            if self.matches(name) {
                let ghost before = picked;
                out.push((name, map.value_at(i)));
                proof {
                    picked = picked.push(i as int);
                    assert forall|p: int|
                        0 <= p < i + 1 && self.matches_key(
                            #[trigger] keys_of(s)[p],
                        ) implies exists|j: int| 0 <= j < picked.len() && #[trigger] picked[j]
                        == p by {
                        if p < i {
                            let j = choose|j: int| 0 <= j < before.len() && #[trigger] before[j] == p;
                            assert(picked[j] == p);
                        } else {
                            assert(picked[before.len() as int] == p);
                        }
                    }
                }
            }
            i += 1;
        }
        proof {
            let names = names_of(out@);
            assert forall|j: int| 0 <= j < picked.len() implies #[trigger] names[j]
                == keys_of(s)[picked[j]] && keys.contains(names[j]) && *out[j].1
                == map@[names[j]] by {
                lemma_entry_at(s, picked[j]);
            }
            assert forall|k: Seq<u8>| keys.contains(k) implies exists|j: int|
                0 <= j < names.len() && #[trigger] names[j] == k by {
                let p = index_of(s, k);
                let j = choose|j: int| 0 <= j < picked.len() && #[trigger] picked[j] == p;
                assert(names[j] == k);
            }
            lemma_selection_enumerates(s, picked, names, keys);
        }
        out
    }
}

} // verus!
