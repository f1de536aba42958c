//! Decides whether a command needs a shell, and which one.

use vstd::prelude::*;

use crate::arguments::{DASH_EXISTS, ION_EXISTS, SHELL_ENABLED};
use crate::text::chars_of;
use crate::tokenizer::{tokens_view, Token, TokenView};

verus! {

broadcast use vstd::string::group_string_axioms;

/// What to look at for shell syntax: the template tokens, or one input.
pub enum Kind<'a> {
    Tokens(&'a [Token]),
    Input(&'a str),
}

/// Whether `c` is shell syntax that only a shell can run.
pub open spec fn shell_char(c: char) -> bool {
    c == ';' || c == '&' || c == '|' || c == '$' || c == '<' || c == '>' || c == '[' || c == ']'
        || c == '@'
}

/// Whether `s` holds shell syntax.
pub open spec fn has_shell_char(s: Seq<char>) -> bool {
    exists|i: int| 0 <= i < s.len() && shell_char(#[trigger] s[i])
}

/// Whether the literal text of `tokens` holds shell syntax.
pub open spec fn tokens_need_shell(tokens: Seq<TokenView>) -> bool {
    exists|i: int|
        0 <= i < tokens.len() && match #[trigger] tokens[i] {
            TokenView::Argument(s) => has_shell_char(s),
            _ => false,
        }
}

/// Whether what `kind` names needs a shell.
pub open spec fn needs_shell(kind: Kind) -> bool {
    match kind {
        Kind::Tokens(tokens) => tokens_need_shell(tokens_view(tokens@)),
        Kind::Input(s) => has_shell_char(s@),
    }
}

/// Whether `s` holds shell syntax.
fn text_needs_shell(s: &str) -> (r: bool)
    ensures
        r == has_shell_char(s@),
{
    let v = chars_of(s);
    let mut i: usize = 0;
    while i < v.len()
        invariant
            v@ == s@,
            i <= v.len(),
            forall|j: int| 0 <= j < i ==> !shell_char(#[trigger] v@[j]),
        decreases v.len() - i,
    {
        let c = v[i];
        if c == ';' || c == '&' || c == '|' || c == '$' || c == '<' || c == '>' || c == '['
            || c == ']' || c == '@' {
            assert(shell_char(s@[i as int]));
            return true;
        }
        i += 1;
    }
    false
}

/// Determines if a shell is required or not for execution.
pub fn required(kind: Kind) -> (r: bool)
    ensures
        r == needs_shell(kind),
{
    match kind {
        Kind::Tokens(arguments) => {
            let ghost tv = tokens_view(arguments@);
            let mut i: usize = 0;
            while i < arguments.len()
                invariant
                    tv == tokens_view(arguments@),
                    kind == Kind::Tokens(arguments),
                    i <= arguments.len(),
                    forall|j: int|
                        0 <= j < i ==> !match #[trigger] tv[j] {
                            TokenView::Argument(s) => has_shell_char(s),
                            _ => false,
                        },
                decreases arguments.len() - i,
            {
                assert(tv[i as int] == arguments@[i as int]@);
                if let Token::Argument(text) = &arguments[i] {
                    if text_needs_shell(text.as_str()) {
                        assert(match tv[i as int] {
                            TokenView::Argument(s) => has_shell_char(s),
                            _ => false,
                        });
                        return true;
                    }
                }
                i += 1;
            }
            false
        },
        Kind::Input(arg) => text_needs_shell(arg),
    }
}

/// Sets the shell flags where the template needs a shell: the preferred
/// shell is Ion where `ion_present`, else Dash where `dash_present`, else
/// `sh`. Leaves `flags` as they are where no shell is needed.
pub fn set_flags(flags: &mut u16, arguments: &[Token], ion_present: bool, dash_present: bool)
    ensures
        !needs_shell(Kind::Tokens(arguments)) ==> *final(flags) == *old(flags),
        needs_shell(Kind::Tokens(arguments)) ==> *final(flags) == if ion_present {
            *old(flags) | (SHELL_ENABLED | ION_EXISTS)
        } else if dash_present {
            *old(flags) | (SHELL_ENABLED | DASH_EXISTS)
        } else {
            *old(flags) | SHELL_ENABLED
        },
{
    if required(Kind::Tokens(arguments)) {
        if ion_present {
            *flags |= SHELL_ENABLED | ION_EXISTS;
        } else if dash_present {
            *flags |= SHELL_ENABLED | DASH_EXISTS;
        } else {
            *flags |= SHELL_ENABLED;
        }
    }
}

} // verus!
