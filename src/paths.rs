//! The path transforms that placeholders apply to an input.

use vstd::prelude::*;

use crate::text::{chars_of, string_of_range};

verus! {

broadcast use vstd::string::group_string_axioms;

/// The index of the last `c` in `s`, or -1 where there is none.
pub open spec fn last_index(s: Seq<char>, c: char) -> int
    decreases s.len(),
{
    if s.len() == 0 {
        -1
    } else if s.last() == c {
        s.len() - 1
    } else {
        last_index(s.drop_last(), c)
    }
}

/// The input with everything up to its last `/` removed.
pub open spec fn basename_of(s: Seq<char>) -> Seq<char> {
    s.skip(last_index(s, '/') + 1)
}

/// The input with its final path component removed: what comes before its
/// last `/`; empty where it has none.
pub open spec fn dirname_of(s: Seq<char>) -> Seq<char> {
    let k = last_index(s, '/');
    if k < 0 {
        Seq::empty()
    } else {
        s.take(k)
    }
}

/// The input with its final `.` and all after it removed, where that `.`
/// comes after the last `/`; the input unchanged otherwise.
pub open spec fn without_extension(s: Seq<char>) -> Seq<char> {
    let d = last_index(s, '.');
    if d > last_index(s, '/') {
        s.take(d)
    } else {
        s
    }
}

/// The input with a trailing `pat` removed; unchanged where it does not end
/// with `pat`.
pub open spec fn without_suffix(s: Seq<char>, pat: Seq<char>) -> Seq<char> {
    if pat.len() <= s.len() && s.skip(s.len() - pat.len()) == pat {
        s.take(s.len() - pat.len())
    } else {
        s
    }
}

proof fn lemma_last_index(s: Seq<char>, c: char)
    ensures
        -1 <= last_index(s, c) < s.len(),
        last_index(s, c) >= 0 ==> s[last_index(s, c)] == c,
        forall|i: int| last_index(s, c) < i < s.len() ==> s[i] != c,
    decreases s.len(),
{
    if s.len() > 0 && s.last() != c {
        lemma_last_index(s.drop_last(), c);
        assert forall|i: int| last_index(s, c) < i < s.len() implies s[i] != c by {
            if i < s.len() - 1 {
                assert(s[i] == s.drop_last()[i]);
            }
        }
    }
}

proof fn lemma_last_index_at(s: Seq<char>, c: char, k: int)
    requires
        -1 <= k < s.len(),
        k >= 0 ==> s[k] == c,
        forall|i: int| k < i < s.len() ==> s[i] != c,
    ensures
        last_index(s, c) == k,
    decreases s.len(),
{
    if s.len() > 0 && k < s.len() - 1 {
        lemma_last_index_at(s.drop_last(), c, k);
    }
}

/// The position of the last `c` in `v`, if any.
pub fn find_last(v: &Vec<char>, c: char) -> (r: Option<usize>)
    ensures
        match r {
            Some(k) => k as int == last_index(v@, c),
            None => last_index(v@, c) == -1,
        },
{
    let mut i = v.len();
    while i > 0
        invariant
            i <= v.len(),
            forall|j: int| i <= j < v.len() ==> v@[j] != c,
        decreases i,
    {
        if v[i - 1] == c {
            proof {
                lemma_last_index_at(v@, c, i - 1);
            }
            return Some(i - 1);
        }
        i -= 1;
    }
    proof {
        lemma_last_index_at(v@, c, -1);
    }
    None
}

/// The input with everything up to its last `/` removed.
pub fn basename(input: &str) -> (r: String)
    ensures
        r@ == basename_of(input@),
{
    let v = chars_of(input);
    proof {
        lemma_last_index(v@, '/');
    }
    let start = match find_last(&v, '/') {
        Some(k) => k + 1,
        None => 0,
    };
    assert(v@.subrange(start as int, v@.len() as int) =~= basename_of(input@));
    string_of_range(&v, start, v.len())
}

/// The input with its final path component removed; empty where it has no `/`.
pub fn dirname(input: &str) -> (r: String)
    ensures
        r@ == dirname_of(input@),
{
    let v = chars_of(input);
    proof {
        lemma_last_index(v@, '/');
    }
    match find_last(&v, '/') {
        Some(k) => {
            assert(v@.subrange(0, k as int) =~= dirname_of(input@));
            string_of_range(&v, 0, k)
        },
        None => String::new(),
    }
}

/// The input with its final `.` and all after it removed, where that `.`
/// comes after the last `/`.
pub fn remove_extension(input: &str) -> (r: String)
    ensures
        r@ == without_extension(input@),
{
    let v = chars_of(input);
    proof {
        lemma_last_index(v@, '/');
        lemma_last_index(v@, '.');
    }
    let slash = find_last(&v, '/');
    match find_last(&v, '.') {
        Some(d) => {
            let after_slash = match slash {
                Some(k) => d > k,
                None => true,
            };
            if after_slash {
                assert(v@.subrange(0, d as int) =~= without_extension(input@));
                string_of_range(&v, 0, d)
            } else {
                input.to_owned()
            }
        },
        None => input.to_owned(),
    }
}

/// The input with a trailing `pat` removed, where it ends with `pat`.
pub fn remove_pattern(input: &str, pat: &str) -> (r: String)
    ensures
        r@ == without_suffix(input@, pat@),
{
    let v = chars_of(input);
    let p = chars_of(pat);
    if p.len() > v.len() {
        return input.to_owned();
    }
    let start = v.len() - p.len();
    if crate::text::matches_at(&v, start, pat) {
        assert(v@.subrange(start as int, start + pat@.len()) =~= input@.skip(start as int));
        assert(v@.subrange(0, start as int) =~= input@.take(start as int));
        string_of_range(&v, 0, start)
    } else {
        assert(v@.subrange(start as int, start + pat@.len()) =~= input@.skip(start as int));
        input.to_owned()
    }
}

} // verus!
