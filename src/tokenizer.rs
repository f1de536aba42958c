//! Turns a command template into tokens: literal text and placeholders.

use vstd::prelude::*;

use crate::paths::{
    basename, basename_of, dirname, dirname_of, remove_extension, remove_pattern,
    without_extension, without_suffix,
};
use crate::text::{
    all_digits, chars_of, decimal, digits_value, find_from, first_index, is_digit,
    lemma_first_index, string_of_range, usize_decimal,
};

verus! {

broadcast use vstd::string::group_string_axioms;

/// Why a template could not be tokenized.
#[derive(Debug, PartialEq, Eq, Clone, Copy)]
pub enum TokenErr {
    /// A positional reference names no spooled input.
    OutOfBounds,
}

/// A token is a placeholder for the operation to be performed on the input value.
#[derive(Clone, PartialEq, Debug)]
pub enum Token {
    /// An argument is simply a collection of characters that are not placeholders.
    Argument(String),
    /// Takes the basename (file name) of the input with the extension removed.
    BaseAndExt,
    /// Takes the basename (file name) of the input with a custom suffix removed.
    BaseAndSuffix(String),
    /// Takes the basename (file name) of the input with the directory path removed.
    Basename,
    /// Takes the directory path of the input with the basename removed.
    Dirname,
    /// Returns the job ID of the current input.
    Job,
    /// Takes the input, unmodified.
    Placeholder,
    /// Removes the extension from the input.
    RemoveExtension,
    /// Removes a specified extension pattern.
    RemoveSuffix(String),
    /// Returns the slot ID of the worker.
    Slot,
}

/// A token with its texts as character sequences.
pub enum TokenView {
    Argument(Seq<char>),
    BaseAndExt,
    BaseAndSuffix(Seq<char>),
    Basename,
    Dirname,
    Job,
    Placeholder,
    RemoveExtension,
    RemoveSuffix(Seq<char>),
    Slot,
}

impl View for Token {
    type V = TokenView;

    open spec fn view(&self) -> TokenView {
        match self {
            Token::Argument(s) => TokenView::Argument(s@),
            Token::BaseAndExt => TokenView::BaseAndExt,
            Token::BaseAndSuffix(s) => TokenView::BaseAndSuffix(s@),
            Token::Basename => TokenView::Basename,
            Token::Dirname => TokenView::Dirname,
            Token::Job => TokenView::Job,
            Token::Placeholder => TokenView::Placeholder,
            Token::RemoveExtension => TokenView::RemoveExtension,
            Token::RemoveSuffix(s) => TokenView::RemoveSuffix(s@),
            Token::Slot => TokenView::Slot,
        }
    }
}

/// The views of `tokens`.
pub open spec fn tokens_view(tokens: Seq<Token>) -> Seq<TokenView> {
    tokens.map_values(|t: Token| t@)
}

/// Whether `t` transforms the input: the input itself or a path transform of it.
pub open spec fn is_transform(t: TokenView) -> bool {
    match t {
        TokenView::Argument(_) | TokenView::Job | TokenView::Slot => false,
        _ => true,
    }
}

/// What the transform `t` makes of `input`.
pub open spec fn transformed(t: TokenView, input: Seq<char>) -> Seq<char> {
    match t {
        TokenView::Basename => basename_of(input),
        TokenView::BaseAndExt => basename_of(without_extension(input)),
        TokenView::BaseAndSuffix(pat) => basename_of(without_suffix(input, pat)),
        TokenView::Dirname => dirname_of(input),
        TokenView::RemoveExtension => without_extension(input),
        TokenView::RemoveSuffix(pat) => without_suffix(input, pat),
        _ => input,
    }
}

/// Applies the transform `token` to `input`.
pub fn transform(token: &Token, input: &str) -> (r: String)
    requires
        is_transform(token@),
    ensures
        r@ == transformed(token@, input@),
{
    match token {
        Token::Basename => basename(input),
        Token::BaseAndExt => {
            let stem = remove_extension(input);
            basename(stem.as_str())
        },
        Token::BaseAndSuffix(pat) => {
            let stem = remove_pattern(input, pat.as_str());
            basename(stem.as_str())
        },
        Token::Dirname => dirname(input),
        Token::RemoveExtension => remove_extension(input),
        Token::RemoveSuffix(pat) => remove_pattern(input, pat.as_str()),
        _ => input.to_owned(),
    }
}

/// The number of leading ASCII digits of `s`.
pub open spec fn leading_digits(s: Seq<char>) -> nat
    decreases s.len(),
{
    if s.len() > 0 && is_digit(s[0]) {
        1 + leading_digits(s.drop_first())
    } else {
        0
    }
}

/// The input that the 1-based position `n` names among `inputs`, with
/// `token` applied; `None` where no input has that position.
pub open spec fn positional(n: nat, token: TokenView, inputs: Seq<Seq<char>>) -> Option<TokenView> {
    if n == 0 || n > inputs.len() {
        None
    } else {
        Some(TokenView::Argument(transformed(token, inputs[n - 1])))
    }
}

/// What the placeholder `{p}` stands for, with `p` nonempty: `Ok(Some(_))`
/// for a token, `Ok(None)` where `{p}` is literal text, `Err` where a
/// positional reference names no input.
pub open spec fn token_for(p: Seq<char>, inputs: Seq<Seq<char>>) -> Result<Option<TokenView>, TokenErr>
    decreases p.len(),
{
    if p == seq!['.'] {
        Ok(Some(TokenView::RemoveExtension))
    } else if p == seq!['#'] {
        Ok(Some(TokenView::Job))
    } else if p == seq!['%'] {
        Ok(Some(TokenView::Slot))
    } else if p == seq!['/'] {
        Ok(Some(TokenView::Basename))
    } else if p == seq!['/', '/'] {
        Ok(Some(TokenView::Dirname))
    } else if p == seq!['/', '.'] {
        Ok(Some(TokenView::BaseAndExt))
    } else if p == seq!['#', '#'] {
        Ok(Some(TokenView::Argument(decimal(inputs.len()))))
    } else if p.len() > 1 && p[0] == '^' {
        Ok(Some(TokenView::RemoveSuffix(p.drop_first())))
    } else if p.len() > 2 && p[0] == '/' && p[1] == '^' {
        Ok(Some(TokenView::BaseAndSuffix(p.skip(2))))
    } else {
        let nd = leading_digits(p);
        let n = digits_value(p.take(nd as int));
        if nd == 0 {
            Ok(None)
        } else if nd == p.len() {
            match positional(n, TokenView::Placeholder, inputs) {
                Some(t) => Ok(Some(t)),
                None => Err(TokenErr::OutOfBounds),
            }
        } else if 0 < nd < p.len() {
            match token_for(p.skip(nd as int), inputs) {
                Ok(Some(inner)) => if is_transform(inner) {
                    match positional(n, inner, inputs) {
                        Some(t) => Ok(Some(t)),
                        None => Err(TokenErr::OutOfBounds),
                    }
                } else {
                    Ok(None)
                },
                _ => Ok(None),
            }
        } else {
            Ok(None)
        }
    }
}

/// The tokens of the template `t`, as the grammar of templates says: text
/// outside braces is literal, `{}` is the input, `{p}` is what [`token_for`]
/// says, and a `{` never closed starts trailing literal text.
pub open spec fn scan(t: Seq<char>, inputs: Seq<Seq<char>>) -> Result<Seq<TokenView>, TokenErr>
    decreases t.len(),
{
    if t.len() == 0 {
        Ok(Seq::empty())
    } else if t[0] != '{' {
        let k = first_index(t, '{');
        proof {
            lemma_first_index(t, '{');
        }
        prepend(TokenView::Argument(t.take(k as int)), scan(t.skip(k as int), inputs))
    } else {
        let c = first_index(t, '}') as int;
        if c >= t.len() {
            Ok(seq![TokenView::Argument(t)])
        } else {
            let inner = t.subrange(1, c as int);
            let rest = scan(t.skip(c + 1), inputs);
            if inner.len() == 0 {
                prepend(TokenView::Placeholder, rest)
            } else {
                match token_for(inner, inputs) {
                    Err(e) => Err(e),
                    Ok(None) => prepend(TokenView::Argument(t.take(c + 1)), rest),
                    Ok(Some(tok)) => prepend(tok, rest),
                }
            }
        }
    }
}

/// `r` with `tok` put in front of its tokens.
pub open spec fn prepend(tok: TokenView, r: Result<Seq<TokenView>, TokenErr>) -> Result<Seq<TokenView>, TokenErr> {
    match r {
        Ok(s) => Ok(seq![tok] + s),
        Err(e) => Err(e),
    }
}

/// A reference to the input at a 1-based position, with the token to apply to it.
pub struct Number {
    pub id: usize,
    pub token: Token,
}

impl Number {
    pub fn new(id: usize, token: Token) -> (r: Number)
        ensures
            r.id == id,
            r.token == token,
    {
        Number { id, token }
    }

    /// The input this reference names, with its token applied; fails with
    /// `OutOfBounds` where no input has its position.
    pub fn into_argument(self, inputs: &Vec<String>) -> (r: Result<String, TokenErr>)
        requires
            is_transform(self.token@),
        ensures
            match positional(self.id as nat, self.token@, inputs.deep_view()) {
                Some(TokenView::Argument(s)) => r is Ok && r->Ok_0@ == s,
                _ => r == Err::<String, TokenErr>(TokenErr::OutOfBounds),
            },
    {
        if self.id == 0 || self.id > inputs.len() {
            return Err(TokenErr::OutOfBounds);
        }
        let input = inputs[self.id - 1].as_str();
        Ok(transform(&self.token, input))
    }
}


proof fn lemma_leading_digits_at(s: Seq<char>, k: int)
    requires
        0 <= k <= s.len(),
        forall|i: int| 0 <= i < k ==> is_digit(#[trigger] s[i]),
        k < s.len() ==> !is_digit(s[k]),
    ensures
        leading_digits(s) == k,
    decreases s.len(),
{
    if s.len() > 0 && k > 0 {
        assert forall|i: int| 0 <= i < k - 1 implies is_digit(#[trigger] s.drop_first()[i]) by {
            assert(s.drop_first()[i] == s[i + 1]);
        }
        lemma_leading_digits_at(s.drop_first(), k - 1);
    }
}

/// Matches the inside of a `{...}` placeholder to its token: `Ok(None)`
/// where the placeholder is literal text, `OutOfBounds` where a positional
/// reference names no input.
pub fn match_token(pattern: &str, inputs: &Vec<String>) -> (r: Result<Option<Token>, TokenErr>)
    requires
        pattern@.len() > 0,
    ensures
        match token_for(pattern@, inputs.deep_view()) {
            Ok(Some(t)) => r is Ok && r->Ok_0 is Some && r->Ok_0->Some_0@ == t,
            Ok(None) => r is Ok && r->Ok_0 is None,
            Err(e) => r == Err::<Option<Token>, TokenErr>(e),
        },
    decreases pattern@.len(),
{
    let p = chars_of(pattern);
    let n = p.len();
    let ghost s = pattern@;
    if n == 1 && p[0] == '.' {
        assert(s =~= seq!['.']);
        return Ok(Some(Token::RemoveExtension));
    }
    if n == 1 && p[0] == '#' {
        assert(s =~= seq!['#']);
        return Ok(Some(Token::Job));
    }
    if n == 1 && p[0] == '%' {
        assert(s =~= seq!['%']);
        return Ok(Some(Token::Slot));
    }
    if n == 1 && p[0] == '/' {
        assert(s =~= seq!['/']);
        return Ok(Some(Token::Basename));
    }
    if n == 2 && p[0] == '/' && p[1] == '/' {
        assert(s =~= seq!['/', '/']);
        return Ok(Some(Token::Dirname));
    }
    if n == 2 && p[0] == '/' && p[1] == '.' {
        assert(s =~= seq!['/', '.']);
        return Ok(Some(Token::BaseAndExt));
    }
    if n == 2 && p[0] == '#' && p[1] == '#' {
        assert(s =~= seq!['#', '#']);
        return Ok(Some(Token::Argument(usize_decimal(inputs.len()))));
    }
    if n > 1 && p[0] == '^' {
        assert(s.drop_first() =~= p@.subrange(1, n as int));
        return Ok(Some(Token::RemoveSuffix(string_of_range(&p, 1, n))));
    }
    if n > 2 && p[0] == '/' && p[1] == '^' {
        assert(s.skip(2) =~= p@.subrange(2, n as int));
        return Ok(Some(Token::BaseAndSuffix(string_of_range(&p, 2, n))));
    }
    let mut nd: usize = 0;
    while nd < n && '0' <= p[nd] && p[nd] <= '9'
        invariant
            nd <= n == p.len(),
            forall|i: int| 0 <= i < nd ==> is_digit(#[trigger] p@[i]),
        decreases n - nd,
    {
        nd += 1;
    }
    proof {
        lemma_leading_digits_at(s, nd as int);
    }
    if nd == 0 {
        return Ok(None);
    }
    let ghost number = digits_value(s.take(nd as int));
    assert(p@.subrange(0, nd as int) =~= s.take(nd as int));
    assert(all_digits(s.take(nd as int))) by {
        assert forall|i: int| 0 <= i < nd implies is_digit(#[trigger] s.take(nd as int)[i]) by {
            assert(s.take(nd as int)[i] == p@[i]);
        }
    }
    let id: usize = match crate::arguments::digits_u64(&p, 0, nd) {
        Some(v) => if v > inputs.len() as u64 { 0 } else { v as usize },
        None => 0,
    };
    assert(id != 0 ==> id == number);
    assert(inputs.deep_view().len() == inputs@.len());
    let total = inputs.len();
    assert(total <= u64::MAX);
    assert(id == 0 ==> positional(number, TokenView::Placeholder, inputs.deep_view()) is None);
    if nd == n {
        return match Number::new(id, Token::Placeholder).into_argument(inputs) {
            Ok(text) => Ok(Some(Token::Argument(text))),
            Err(e) => Err(e),
        };
    }
    let rest = string_of_range(&p, nd, n);
    assert(rest@ =~= s.skip(nd as int));
    match match_token(rest.as_str(), inputs) {
        Ok(Some(inner)) => {
            let applies = match &inner {
                Token::Argument(_) | Token::Job | Token::Slot => false,
                _ => true,
            };
            if !applies {
                return Ok(None);
            }
            assert(id == 0 ==> positional(number, inner@, inputs.deep_view()) is None);
            match Number::new(id, inner).into_argument(inputs) {
                Ok(text) => Ok(Some(Token::Argument(text))),
                Err(e) => Err(e),
            }
        },
        _ => Ok(None),
    }
}

/// `r` with `acc` put in front of its tokens.
pub open spec fn prepend_all(acc: Seq<TokenView>, r: Result<Seq<TokenView>, TokenErr>) -> Result<Seq<TokenView>, TokenErr> {
    match r {
        Ok(s) => Ok(acc + s),
        Err(e) => Err(e),
    }
}

/// Takes the command template and reduces it into tokens, appended to
/// `tokens`; `inputs` are the spooled inputs that positional references
/// name. On error `tokens` is left as it was.
pub fn tokenize(tokens: &mut Vec<Token>, template: &str, inputs: &Vec<String>) -> (r: Result<(), TokenErr>)
    ensures
        match scan(template@, inputs.deep_view()) {
            Ok(s) => r is Ok && tokens_view(final(tokens)@) == tokens_view(old(tokens)@) + s,
            Err(e) => r == Err::<(), TokenErr>(e) && final(tokens)@ == old(tokens)@,
        },
{
    let t = chars_of(template);
    let ghost tv = t@;
    let ghost lines = inputs.deep_view();
    let mut out: Vec<Token> = Vec::new();
    let mut i: usize = 0;
    assert(tv.skip(0) =~= tv);
    assert(tokens_view(out@) =~= Seq::empty());
    assert(Seq::<TokenView>::empty() + Seq::<TokenView>::empty() =~= Seq::<TokenView>::empty());
    while i < t.len()
        invariant
            tv == t@,
            tv == template@,
            lines == inputs.deep_view(),
            i <= t.len(),
            prepend_all(tokens_view(out@), scan(tv.skip(i as int), lines)) == scan(tv, lines),
        decreases t.len() - i,
    {
        let ghost rest = tv.skip(i as int);
        let ghost before = tokens_view(out@);
        assert(rest[0] == t@[i as int]);
        if t[i] != '{' {
            let k = find_from(&t, i, '{');
            proof {
                lemma_first_index(rest, '{');
            }
            assert(rest.take(k - i) =~= tv.subrange(i as int, k as int));
            assert(rest.skip(k - i) =~= tv.skip(k as int));
            let tok = Token::Argument(string_of_range(&t, i, k));
            out.push(tok);
            assert(tokens_view(out@) =~= before.push(tok@));
            assert(before.push(tok@) + Seq::<TokenView>::empty() =~= before + seq![tok@]);
            proof {
                match scan(tv.skip(k as int), lines) {
                    Ok(x) => {
                        assert(before.push(tok@) + x =~= before + (seq![tok@] + x));
                    },
                    Err(_) => {},
                }
            }
            i = k;
        } else {
            let c = find_from(&t, i, '}');
            proof {
                lemma_first_index(rest, '}');
            }
            if c == t.len() {
                let tok = Token::Argument(string_of_range(&t, i, t.len()));
                assert(tv.subrange(i as int, t.len() as int) =~= rest);
                out.push(tok);
                assert(tokens_view(out@) =~= before.push(tok@));
                assert(tv.skip(t.len() as int) =~= Seq::<char>::empty());
                assert(before.push(tok@) + Seq::<TokenView>::empty() =~= before + seq![tok@]);
                i = t.len();
            } else {
                assert(rest.subrange(1, c - i) =~= tv.subrange(i + 1, c as int));
                assert(rest.skip(c - i + 1) =~= tv.skip(c + 1));
                assert(rest.take(c - i + 1) =~= tv.subrange(i as int, c + 1));
                let tok = if c == i + 1 {
                    Token::Placeholder
                } else {
                    let inner = string_of_range(&t, i + 1, c);
                    match match_token(inner.as_str(), inputs) {
                        Ok(Some(found)) => found,
                        Ok(None) => Token::Argument(string_of_range(&t, i, c + 1)),
                        Err(e) => {
                            return Err(e);
                        },
                    }
                };
                out.push(tok);
                assert(tokens_view(out@) =~= before.push(tok@));
                proof {
                    match scan(tv.skip(c + 1), lines) {
                        Ok(x) => {
                            assert(before.push(tok@) + x =~= before + (seq![tok@] + x));
                        },
                        Err(_) => {},
                    }
                }
                i = c + 1;
            }
        }
    }
    assert(tv.skip(i as int) =~= Seq::<char>::empty());
    assert(tokens_view(out@) + Seq::<TokenView>::empty() =~= tokens_view(out@));
    let ghost old_view = tokens_view(tokens@);
    let ghost out_view = tokens_view(out@);
    tokens.append(&mut out);
    assert(tokens_view(tokens@) =~= old_view + out_view);
    Ok(())
}


/// The template text of a token made of literal text or the input.
pub open spec fn template_piece(t: TokenView) -> Seq<char> {
    match t {
        TokenView::Argument(s) => s,
        _ => seq!['{', '}'],
    }
}

/// The template text that writes `tokens`, literal text as it is and each
/// input placeholder as `{}`.
pub open spec fn template_text(tokens: Seq<TokenView>) -> Seq<char>
    decreases tokens.len(),
{
    if tokens.len() == 0 {
        Seq::empty()
    } else {
        template_piece(tokens[0]) + template_text(tokens.drop_first())
    }
}

/// Whether `tokens` is literal text and input placeholders only, each text
/// nonempty and free of `{`, and no two texts next to each other.
pub open spec fn plain_template(tokens: Seq<TokenView>) -> bool {
    &&& forall|i: int|
        0 <= i < tokens.len() ==> match #[trigger] tokens[i] {
            TokenView::Argument(s) => s.len() > 0 && !s.contains('{'),
            TokenView::Placeholder => true,
            _ => false,
        }
    &&& forall|i: int|
        0 <= i < tokens.len() - 1 ==> !((#[trigger] tokens[i] is Argument) && tokens[i + 1] is Argument)
}

proof fn lemma_first_index_concat(a: Seq<char>, b: Seq<char>, c: char)
    requires
        !a.contains(c),
    ensures
        first_index(a + b, c) == a.len() + first_index(b, c),
    decreases a.len(),
{
    if a.len() > 0 {
        assert((a + b).drop_first() =~= a.drop_first() + b);
        assert(a[0] != c) by {
            if a[0] == c {
                assert(a.contains(c));
            }
        }
        assert forall|i: int| 0 <= i < a.drop_first().len() implies a.drop_first()[i] != c by {
            if a.drop_first()[i] == c {
                assert(a[i + 1] == c);
                assert(a.contains(c));
            }
        }
        lemma_first_index_concat(a.drop_first(), b, c);
    } else {
        assert(a + b =~= b);
    }
}

/// Writing a template of literal text and input placeholders and
/// tokenizing it gives back the same tokens, whatever the inputs.
pub proof fn lemma_template_round_trip(tokens: Seq<TokenView>, inputs: Seq<Seq<char>>)
    requires
        plain_template(tokens),
    ensures
        scan(template_text(tokens), inputs) == Ok::<Seq<TokenView>, TokenErr>(tokens),
    decreases tokens.len(),
{
    if tokens.len() == 0 {
        assert(template_text(tokens) =~= Seq::<char>::empty());
        assert(tokens =~= Seq::<TokenView>::empty());
    } else {
        let rest = tokens.drop_first();
        assert(plain_template(rest)) by {
            assert forall|i: int| 0 <= i < rest.len() implies match #[trigger] rest[i] {
                TokenView::Argument(s) => s.len() > 0 && !s.contains('{'),
                TokenView::Placeholder => true,
                _ => false,
            } by {
                assert(rest[i] == tokens[i + 1]);
            }
            assert forall|i: int| 0 <= i < rest.len() - 1 implies !((#[trigger] rest[i] is Argument)
                && rest[i + 1] is Argument) by {
                assert(rest[i] == tokens[i + 1]);
                assert(rest[i + 1] == tokens[i + 2]);
            }
        }
        lemma_template_round_trip(rest, inputs);
        let t = template_text(tokens);
        let tail = template_text(rest);
        let head = template_piece(tokens[0]);
        assert(t == head + tail);
        match tokens[0] {
            TokenView::Argument(s) => {
                assert(s.len() > 0 && !s.contains('{'));
                assert(t[0] == s[0]);
                assert(s[0] != '{') by {
                    if s[0] == '{' {
                        assert(s.contains('{'));
                    }
                }
                lemma_first_index_concat(s, tail, '{');
                if rest.len() > 0 {
                    assert(!(rest[0] is Argument));
                    assert(rest[0] is Placeholder);
                    assert(tail == seq!['{', '}'] + template_text(rest.drop_first()));
                    assert(tail[0] == '{');
                } else {
                    assert(tail =~= Seq::<char>::empty());
                }
                assert(first_index(tail, '{') == 0);
                assert(t.take(s.len() as int) =~= s);
                assert(t.skip(s.len() as int) =~= tail);
                assert(seq![TokenView::Argument(s)] + rest =~= tokens);
            },
            _ => {
                assert(tokens[0] is Placeholder);
                assert(t[0] == '{');
                assert(t[1] == '}');
                assert(first_index(t.drop_first(), '}') == 0);
                assert(first_index(t, '}') == 1);
                assert(t.subrange(1, 1) =~= Seq::<char>::empty());
                assert(t.skip(2) =~= tail);
                assert(seq![TokenView::Placeholder] + rest =~= tokens);
            },
        }
    }
}

} // verus!
