//! Splits a command line into arguments the way a shell would for simple
//! quoting: single and double quotes group, a backslash escapes.

use vstd::prelude::*;

use crate::text::{chars_of, push_char};

verus! {

broadcast use vstd::string::group_string_axioms;

/// Where the splitter stands after some prefix of a command line.
pub struct SplitState {
    /// The arguments finished so far.
    pub words: Seq<Seq<char>>,
    /// The argument being read.
    pub word: Seq<char>,
    /// Whether an argument has been started, even an empty one (`''`).
    pub started: bool,
    /// Inside single quotes.
    pub single: bool,
    /// Inside double quotes.
    pub double: bool,
    /// The previous character was an escaping backslash.
    pub escaped: bool,
}

/// The splitter's state after reading `s`.
pub open spec fn split_state(s: Seq<char>) -> SplitState
    decreases s.len(),
{
    if s.len() == 0 {
        SplitState { words: Seq::empty(), word: Seq::empty(), started: false, single: false, double: false, escaped: false }
    } else {
        let st = split_state(s.drop_last());
        let c = s.last();
        if st.escaped {
            SplitState { word: st.word.push(c), started: true, escaped: false, ..st }
        } else if c == '\\' && !st.single {
            SplitState { started: true, escaped: true, ..st }
        } else if c == '\'' && !st.double {
            SplitState { started: true, single: !st.single, ..st }
        } else if c == '"' && !st.single {
            SplitState { started: true, double: !st.double, ..st }
        } else if c == ' ' && !st.single && !st.double {
            if st.started {
                SplitState { words: st.words.push(st.word), word: Seq::empty(), started: false, ..st }
            } else {
                st
            }
        } else {
            SplitState { word: st.word.push(c), started: true, ..st }
        }
    }
}

/// The arguments of the command line `s`.
pub open spec fn split_words(s: Seq<char>) -> Seq<Seq<char>> {
    let st = split_state(s);
    if st.started {
        st.words.push(st.word)
    } else {
        st.words
    }
}

/// Splits `command` into arguments at unquoted spaces, removing the quotes
/// and escaping backslashes.
pub fn split_arguments(command: &str) -> (r: Vec<String>)
    ensures
        r.deep_view() == split_words(command@),
{
    let v = chars_of(command);
    let mut words: Vec<String> = Vec::new();
    let mut word = String::new();
    let mut started = false;
    let mut single = false;
    let mut double = false;
    let mut escaped = false;
    let mut i: usize = 0;
    while i < v.len()
        invariant
            v@ == command@,
            i <= v.len(),
            ({
                let st = split_state(v@.take(i as int));
                &&& words.deep_view() == st.words
                &&& word@ == st.word
                &&& started == st.started
                &&& single == st.single
                &&& double == st.double
                &&& escaped == st.escaped
            }),
        decreases v.len() - i,
    {
        assert(v@.take(i + 1).drop_last() =~= v@.take(i as int));
        let c = v[i];
        if escaped {
            push_char(&mut word, c);
            started = true;
            escaped = false;
        } else if c == '\\' && !single {
            started = true;
            escaped = true;
        } else if c == '\'' && !double {
            started = true;
            single = !single;
        } else if c == '"' && !single {
            started = true;
            double = !double;
        } else if c == ' ' && !single && !double {
            if started {
                let ghost before = words.deep_view();
                let ghost w = word@;
                words.push(word);
                assert(words.deep_view() =~= before.push(w));
                word = String::new();
                started = false;
            }
        } else {
            push_char(&mut word, c);
            started = true;
        }
        i += 1;
    }
    assert(v@.take(i as int) =~= command@);
    if started {
        let ghost before = words.deep_view();
        let ghost w = word@;
        words.push(word);
        assert(words.deep_view() =~= before.push(w));
    }
    words
}

} // verus!
