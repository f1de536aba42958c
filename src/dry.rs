//! The dry run: the command line each job would run, one per line.

use vstd::prelude::*;

use crate::arguments::{PIPE_IS_ENABLED, SHELL_QUOTE};
use crate::command::{append_argument, appended_input, byte_chars, render, ParallelCommand};
use crate::text::{chars_of, decimal, push_char, usize_digits};
use crate::tokenizer::{tokens_view, Token, TokenView};

verus! {

broadcast use vstd::string::group_string_axioms;

/// Whether the dry run escapes `c` with a backslash when shell quoting.
pub open spec fn shell_special(c: char) -> bool {
    c == '$' || c == ' ' || c == '\\' || c == '>' || c == '<' || c == '^' || c == '&' || c == '#'
        || c == '!' || c == '*' || c == '\'' || c == '"' || c == '`' || c == '~' || c == '{'
        || c == '}' || c == '[' || c == ']' || c == '(' || c == ')' || c == ';' || c == '|'
        || c == '?'
}

/// `s` with a backslash before each character that [`shell_special`] names.
pub open spec fn shell_escaped(s: Seq<char>) -> Seq<char>
    decreases s.len(),
{
    if s.len() == 0 {
        Seq::empty()
    } else if shell_special(s.last()) {
        shell_escaped(s.drop_last()) + seq!['\\', s.last()]
    } else {
        shell_escaped(s.drop_last()).push(s.last())
    }
}

/// Whether `s` holds a character that shell quoting escapes.
pub open spec fn needs_escaping(s: Seq<char>) -> bool {
    exists|i: int| 0 <= i < s.len() && shell_special(#[trigger] s[i])
}

/// Escapes the characters of `command` that a shell treats specially; `None`
/// where there are none, and the command stands as it is.
pub fn shell_quote(command: &str) -> (r: Option<String>)
    ensures
        match r {
            Some(q) => needs_escaping(command@) && q@ == shell_escaped(command@),
            None => !needs_escaping(command@),
        },
{
    let v = chars_of(command);
    let mut needed = false;
    let mut out = String::new();
    let mut i: usize = 0;
    while i < v.len()
        invariant
            v@ == command@,
            i <= v.len(),
            out@ == shell_escaped(v@.take(i as int)),
            needed == exists|j: int| 0 <= j < i && shell_special(#[trigger] v@[j]),
        decreases v.len() - i,
    {
        assert(v@.take(i + 1).drop_last() =~= v@.take(i as int));
        let c = v[i];
        if c == '$' || c == ' ' || c == '\\' || c == '>' || c == '<' || c == '^' || c == '&'
            || c == '#' || c == '!' || c == '*' || c == '\'' || c == '"' || c == '`' || c == '~'
            || c == '{' || c == '}' || c == '[' || c == ']' || c == '(' || c == ')' || c == ';'
            || c == '|' || c == '?' {
            needed = true;
            push_char(&mut out, '\\');
        }
        push_char(&mut out, c);
        i += 1;
    }
    assert(v@.take(i as int) =~= command@);
    if needed {
        Some(out)
    } else {
        None
    }
}

/// The slot text of a dry run: `{SLOT_ID}`.
pub open spec fn slot_marker() -> Seq<char> {
    seq!['{', 'S', 'L', 'O', 'T', '_', 'I', 'D', '}']
}

/// The command line of job `job` for `input`, before any quoting.
pub open spec fn dry_command(flags: u16, job: nat, input: Seq<char>, tokens: Seq<TokenView>) -> Seq<char> {
    let pipe = flags & PIPE_IS_ENABLED != 0;
    render(tokens, input, decimal(job), slot_marker(), pipe) + if pipe {
        Seq::empty()
    } else {
        appended_input(tokens, input)
    }
}

/// The line a dry run prints for job `job` and `input`: the command line,
/// escaped when shell quoting is on, and a newline.
pub open spec fn dry_line(flags: u16, job: nat, input: Seq<char>, tokens: Seq<TokenView>) -> Seq<char> {
    let c = dry_command(flags, job, input, tokens);
    (if flags & SHELL_QUOTE != 0 && needs_escaping(c) {
        shell_escaped(c)
    } else {
        c
    }).push('\n')
}

/// The line that the dry run prints for the job numbered `job_id` of
/// `total` with `input`: the command it would run, with `{SLOT_ID}` for the
/// slot.
pub fn dry_run_line(flags: u16, job_id: usize, total: usize, input: &str, arguments: &[Token]) -> (r: String)
    ensures
        r@ == dry_line(flags, job_id as nat, input@, tokens_view(arguments@)),
{
    let digits = usize_digits(job_id);
    let total_digits = usize_digits(total);
    let slot = "{SLOT_ID}";
    proof {
        reveal_strlit("{SLOT_ID}");
    }
    assert(slot@ =~= slot_marker());
    let command = ParallelCommand {
        slot_no: slot,
        job_no: digits.as_slice(),
        job_total: total_digits.as_slice(),
        input,
        flags,
        command_template: arguments,
    };
    assert(byte_chars(digits@) == decimal(job_id as nat));
    let mut line = String::new();
    command.build_arguments(&mut line);
    if flags & PIPE_IS_ENABLED == 0 {
        append_argument(&mut line, arguments, input);
    } else {
        assert(line@ + Seq::<char>::empty() =~= line@);
    }
    assert(line@ =~= dry_command(flags, job_id as nat, input@, tokens_view(arguments@)));
    let mut out = if flags & SHELL_QUOTE != 0 {
        match shell_quote(line.as_str()) {
            Some(quoted) => quoted,
            None => line,
        }
    } else {
        line
    };
    push_char(&mut out, '\n');
    out
}

} // verus!
