//! Builds the concrete command line for one input from the template tokens.

use vstd::prelude::*;

use crate::arguments::PIPE_IS_ENABLED;
use crate::text::{push_char, push_text};
use crate::tokenizer::{transform, transformed, tokens_view, Token, TokenView};

verus! {

broadcast use vstd::string::group_string_axioms;

#[verifier::external_type_specification]
#[verifier::external_body]
pub struct ExIoError(std::io::Error);

/// Why a command could not be started.
pub enum CommandErr {
    IO(std::io::Error),
}

/// The characters that the bytes `b` stand for, one per byte.
pub open spec fn byte_chars(b: Seq<u8>) -> Seq<char> {
    b.map_values(|x: u8| x as char)
}

/// Whether any token of `tokens` takes its text from the job: the input, a
/// path transform of it, the job number or the slot.
pub open spec fn has_placeholder(tokens: Seq<TokenView>) -> bool {
    exists|i: int| 0 <= i < tokens.len() && !(tokens[i] is Argument)
}

/// The text that `t` stands for in a command for `input`, job `job` and
/// slot `slot`. With `pipe`, the input goes to the command's standard input
/// instead, and transforms of it stand for nothing.
pub open spec fn piece(t: TokenView, input: Seq<char>, job: Seq<char>, slot: Seq<char>, pipe: bool) -> Seq<char> {
    match t {
        TokenView::Argument(s) => s,
        TokenView::Job => job,
        TokenView::Slot => slot,
        _ => if pipe { Seq::empty() } else { transformed(t, input) },
    }
}

/// The tokens of `tokens` rendered in order, as [`piece`] says.
pub open spec fn render(tokens: Seq<TokenView>, input: Seq<char>, job: Seq<char>, slot: Seq<char>, pipe: bool) -> Seq<char>
    decreases tokens.len(),
{
    if tokens.len() == 0 {
        Seq::empty()
    } else {
        render(tokens.drop_last(), input, job, slot, pipe) + piece(tokens.last(), input, job, slot, pipe)
    }
}

/// The input appended after a space, where no token takes text from the job.
pub open spec fn appended_input(tokens: Seq<TokenView>, input: Seq<char>) -> Seq<char> {
    if has_placeholder(tokens) {
        Seq::empty()
    } else {
        seq![' '] + input
    }
}

/// If no placeholder tokens are in use, then the input will be appended at
/// the end of the command, after a space.
pub fn append_argument(arguments: &mut String, command_template: &[Token], input: &str)
    ensures
        final(arguments)@ == old(arguments)@ + appended_input(tokens_view(command_template@), input@),
{
    let ghost tv = tokens_view(command_template@);
    let mut found = false;
    let mut i: usize = 0;
    while i < command_template.len()
        invariant
            tv == tokens_view(command_template@),
            i <= command_template.len(),
            found == exists|j: int| 0 <= j < i && !(tv[j] is Argument),
        decreases command_template.len() - i,
    {
        let is_text = match &command_template[i] {
            Token::Argument(_) => true,
            _ => false,
        };
        if !is_text {
            found = true;
        }
        assert(tv[i as int] == command_template@[i as int]@);
        i += 1;
    }
    if !found {
        push_char(arguments, ' ');
        push_text(arguments, input);
        assert(old(arguments)@.push(' ') + input@ =~= old(arguments)@ + (seq![' '] + input@));
    } else {
        assert(old(arguments)@ + Seq::<char>::empty() =~= old(arguments)@);
    }
}

/// A structure for generating commands to be executed.
pub struct ParallelCommand<'a> {
    pub slot_no: &'a str,
    pub job_no: &'a [u8],
    pub job_total: &'a [u8],
    pub input: &'a str,
    pub flags: u16,
    pub command_template: &'a [Token],
}

impl<'a> ParallelCommand<'a> {
    /// Whether the input goes to the command's standard input.
    pub open spec fn pipes(&self) -> bool {
        self.flags & PIPE_IS_ENABLED != 0
    }

    /// The text that building the arguments of this command appends.
    pub open spec fn rendered(&self) -> Seq<char> {
        render(
            tokens_view(self.command_template@),
            self.input@,
            byte_chars(self.job_no@),
            self.slot_no@,
            self.pipes(),
        )
    }

    /// Builds the arguments from the template tokens with the current input,
    /// job number and slot, appending them to `arguments`. With piping
    /// enabled, only literal text, the job number and the slot are expanded.
    pub fn build_arguments(&self, arguments: &mut String)
        ensures
            final(arguments)@ == old(arguments)@ + self.rendered(),
    {
        let pipe = self.flags & PIPE_IS_ENABLED != 0;
        let ghost tv = tokens_view(self.command_template@);
        let ghost job = byte_chars(self.job_no@);
        let mut i: usize = 0;
        assert(tv.take(0) =~= Seq::<TokenView>::empty());
        assert(old(arguments)@ + Seq::<char>::empty() =~= old(arguments)@);
        while i < self.command_template.len()
            invariant
                tv == tokens_view(self.command_template@),
                job == byte_chars(self.job_no@),
                pipe == self.pipes(),
                i <= self.command_template.len(),
                arguments@ == old(arguments)@ + render(tv.take(i as int), self.input@, job, self.slot_no@, pipe),
            decreases self.command_template.len() - i,
        {
            assert(tv.take(i + 1).drop_last() =~= tv.take(i as int));
            assert(tv[i as int] == self.command_template@[i as int]@);
            let ghost before = arguments@;
            let token = &self.command_template[i];
            match token {
                Token::Argument(text) => push_text(arguments, text.as_str()),
                Token::Job => {
                    let mut k: usize = 0;
                    while k < self.job_no.len()
                        invariant
                            k <= self.job_no@.len(),
                            job == byte_chars(self.job_no@),
                            arguments@ == before + job.take(k as int),
                        decreases self.job_no@.len() - k,
                    {
                        push_char(arguments, self.job_no[k] as char);
                        assert(job.take(k + 1) =~= job.take(k as int).push(self.job_no@[k as int] as char));
                        k += 1;
                    }
                    assert(job.take(k as int) =~= job);
                },
                Token::Slot => push_text(arguments, self.slot_no),
                _ => {
                    if !pipe {
                        let text = transform(token, self.input);
                        push_text(arguments, text.as_str());
                    } else {
                        assert(before + Seq::<char>::empty() =~= before);
                    }
                },
            }
            i += 1;
        }
        assert(tv.take(i as int) =~= tv);
    }
}

} // verus!
