//! The punctuation lexer: text runs split on the characters that the
//! dialect gives a meaning to (`>`, `(` and `)`).
use vstd::prelude::*;
use crate::event::{Event, EventV};
use crate::text::chars_of;
use crate::{find_one_of, find_puncts_end};

verus! {

/// A piece of a text run: plain text, or a run of one punctuation character.
#[derive(Clone, Debug, PartialEq, Eq)]
pub enum TextToken {
    PlainText(String),
    Rangle,
    RangleRun(usize),
    LeftParen,
    LeftParenRun(usize),
    RightParen,
    RightParenRun(usize),
}

/// The model of a [`TextToken`]: a run of `n` copies of a punctuation
/// character, or plain text.
pub enum TextTokenV {
    Plain(Seq<char>),
    Punct(char, nat),
}

impl View for TextToken {
    type V = TextTokenV;

    open spec fn view(&self) -> TextTokenV {
        match self {
            TextToken::PlainText(s) => TextTokenV::Plain(s@),
            TextToken::Rangle => TextTokenV::Punct('>', 1),
            TextToken::RangleRun(n) => TextTokenV::Punct('>', *n as nat),
            TextToken::LeftParen => TextTokenV::Punct('(', 1),
            TextToken::LeftParenRun(n) => TextTokenV::Punct('(', *n as nat),
            TextToken::RightParen => TextTokenV::Punct(')', 1),
            TextToken::RightParenRun(n) => TextTokenV::Punct(')', *n as nat),
        }
    }
}

/// An item of a paragraph after lexing: a piece of top-level text, or an
/// event passed through untouched.
#[derive(Clone, Debug, PartialEq, Eq)]
pub enum Token {
    Text(TextToken),
    Event(Event),
}

pub enum TokenV {
    Text(TextTokenV),
    Event(EventV),
}

impl View for Token {
    type V = TokenV;

    open spec fn view(&self) -> TokenV {
        match self {
            Token::Text(t) => TokenV::Text(t@),
            Token::Event(e) => TokenV::Event(e@),
        }
    }
}

pub open spec fn text_tokens_view(s: Seq<TextToken>) -> Seq<TextTokenV> {
    s.map_values(|t: TextToken| t@)
}

pub open spec fn tokens_view(s: Seq<Token>) -> Seq<TokenV> {
    s.map_values(|t: Token| t@)
}

pub open spec fn is_punct(c: char) -> bool {
    c == '>' || c == '(' || c == ')'
}

/// Length of the longest prefix of `s` made of `c` only.
pub open spec fn run_len(s: Seq<char>, c: char) -> nat
    decreases s.len(),
{
    if s.len() > 0 && s[0] == c {
        1 + run_len(s.drop_first(), c)
    } else {
        0
    }
}

/// Length of the longest prefix of `s` without punctuation.
pub open spec fn plain_len(s: Seq<char>) -> nat
    decreases s.len(),
{
    if s.len() > 0 && !is_punct(s[0]) {
        1 + plain_len(s.drop_first())
    } else {
        0
    }
}

/// The tokens of `s`: maximal plain runs and maximal runs of one
/// punctuation character, left to right.
pub open spec fn lex_spec(s: Seq<char>) -> Seq<TextTokenV>
    decreases s.len()
    via lex_spec_decreases
{
    if s.len() == 0 {
        seq![]
    } else if is_punct(s[0]) {
        let k = run_len(s, s[0]);
        seq![TextTokenV::Punct(s[0], k)] + lex_spec(s.skip(k as int))
    } else {
        let k = plain_len(s);
        seq![TextTokenV::Plain(s.take(k as int))] + lex_spec(s.skip(k as int))
    }
}

#[via_fn]
proof fn lex_spec_decreases(s: Seq<char>) {
    if s.len() > 0 {
        if is_punct(s[0]) {
            lemma_run_len(s, s[0]);
        } else {
            lemma_plain_len(s);
        }
    }
}

/// The text that a token stands for.
pub open spec fn literal(t: TextTokenV) -> Seq<char> {
    match t {
        TextTokenV::Plain(s) => s,
        TextTokenV::Punct(c, n) => Seq::new(n, |i: int| c),
    }
}

/// The texts of `ts`, concatenated.
pub open spec fn literals(ts: Seq<TextTokenV>) -> Seq<char>
    decreases ts.len(),
{
    if ts.len() == 0 {
        seq![]
    } else {
        literal(ts[0]) + literals(ts.drop_first())
    }
}

pub proof fn lemma_run_len(s: Seq<char>, c: char)
    ensures
        run_len(s, c) <= s.len(),
        forall|j: int| 0 <= j < run_len(s, c) ==> s[j] == c,
        run_len(s, c) < s.len() ==> s[run_len(s, c) as int] != c,
    decreases s.len(),
{
    if s.len() > 0 && s[0] == c {
        lemma_run_len(s.drop_first(), c);
        assert forall|j: int| 0 <= j < run_len(s, c) implies s[j] == c by {
            if j > 0 {
                assert(s[j] == s.drop_first()[j - 1]);
            }
        }
    }
}

pub proof fn lemma_plain_len(s: Seq<char>)
    ensures
        plain_len(s) <= s.len(),
        forall|j: int| 0 <= j < plain_len(s) ==> !is_punct(#[trigger] s[j]),
        plain_len(s) < s.len() ==> is_punct(s[plain_len(s) as int]),
    decreases s.len(),
{
    if s.len() > 0 && !is_punct(s[0]) {
        lemma_plain_len(s.drop_first());
        assert forall|j: int| 0 <= j < plain_len(s) implies !is_punct(#[trigger] s[j]) by {
            if j > 0 {
                assert(s[j] == s.drop_first()[j - 1]);
            }
        }
    }
}

/// A prefix of `k` plain characters followed by punctuation or the end has
/// plain length `k`.
pub proof fn lemma_plain_len_is(s: Seq<char>, k: int)
    requires
        0 <= k <= s.len(),
        forall|j: int| 0 <= j < k ==> !is_punct(#[trigger] s[j]),
        k < s.len() ==> is_punct(s[k]),
    ensures
        plain_len(s) == k,
    decreases k,
{
    if k > 0 {
        assert forall|j: int| 0 <= j < k - 1 implies !is_punct(#[trigger] s.drop_first()[j]) by {
            assert(s.drop_first()[j] == s[j + 1]);
        }
        lemma_plain_len_is(s.drop_first(), k - 1);
    }
}

pub proof fn lemma_literals_append(a: Seq<TextTokenV>, b: Seq<TextTokenV>)
    ensures
        literals(a + b) == literals(a) + literals(b),
    decreases a.len(),
{
    if a.len() == 0 {
        assert(a + b == b);
    } else {
        assert((a + b).drop_first() == a.drop_first() + b);
        lemma_literals_append(a.drop_first(), b);
    }
}

/// The texts of the tokens are no longer than the string they came from.
pub proof fn lemma_literals_len(ts: Seq<TextTokenV>, s: Seq<char>)
    requires
        literals(ts) == s,
    ensures
        forall|k: int| 0 <= k <= ts.len() ==> #[trigger] literals(ts.take(k)).len() <= s.len(),
{
    assert forall|k: int| 0 <= k <= ts.len() implies #[trigger] literals(ts.take(k)).len() <= s.len() by {
        assert(ts == ts.take(k) + ts.skip(k));
        lemma_literals_append(ts.take(k), ts.skip(k));
    }
}

/// Concatenating the texts of the tokens of `s` gives `s` back.
pub proof fn lemma_lex_reconstructs(s: Seq<char>)
    ensures
        literals(lex_spec(s)) == s,
    decreases s.len(),
{
    if s.len() > 0 {
        let k: int;
        if is_punct(s[0]) {
            lemma_run_len(s, s[0]);
            k = run_len(s, s[0]) as int;
            assert(literal(TextTokenV::Punct(s[0], k as nat)) == s.take(k));
        } else {
            lemma_plain_len(s);
            k = plain_len(s) as int;
        }
        let first = lex_spec(s)[0];
        assert(lex_spec(s).drop_first() == lex_spec(s.skip(k)));
        lemma_lex_reconstructs(s.skip(k));
        assert(literal(first) == s.take(k));
        assert(s.take(k) + s.skip(k) == s);
    }
}

/// Text without punctuation is a single plain token.
pub proof fn lemma_lex_plain(s: Seq<char>)
    requires
        s.len() > 0,
        forall|j: int| 0 <= j < s.len() ==> !is_punct(#[trigger] s[j]),
    ensures
        lex_spec(s) == seq![TextTokenV::Plain(s)],
{
    lemma_plain_len_is(s, s.len() as int);
    assert(s.take(s.len() as int) == s);
    assert(s.skip(s.len() as int).len() == 0);
    assert(lex_spec(s.skip(s.len() as int)) == Seq::<TextTokenV>::empty());
}

/// The token for a run of `n` copies of the punctuation character `c`.
fn punct_token(c: char, n: usize) -> (r: TextToken)
    requires
        is_punct(c),
        n >= 1,
    ensures
        r@ == TextTokenV::Punct(c, n as nat),
{
    if c == '>' {
        if n == 1 { TextToken::Rangle } else { TextToken::RangleRun(n) }
    } else if c == '(' {
        if n == 1 { TextToken::LeftParen } else { TextToken::LeftParenRun(n) }
    } else {
        if n == 1 { TextToken::RightParen } else { TextToken::RightParenRun(n) }
    }
}

/// Splits `s` into plain runs and punctuation runs.
pub fn lex(s: &str) -> (r: Vec<TextToken>)
    ensures
        text_tokens_view(r@) == lex_spec(s@),
{
    let puncts = "()>";
    proof {
        reveal_strlit("()>");
    }
    let mut out: Vec<TextToken> = Vec::new();
    let mut rest: &str = s;
    let mut done = false;
    while !done
        invariant
            puncts@ == seq!['(', ')', '>'],
            text_tokens_view(out@) + lex_spec(rest@) == lex_spec(s@),
            done ==> rest@.len() == 0,
        decreases rest@.len() + (if done { 0int } else { 1int }),
    {
        let ghost before = out@;
        let n = rest.unicode_len();
        if n == 0 {
            done = true;
        } else {
            match find_one_of(rest, puncts) {
                Some((i, c)) => {
                    if i > 0 {
                        proof {
                            lemma_plain_len_is(rest@, i as int);
                        }
                        let plain = rest.substring_char(0, i).to_owned();
                        out.push(TextToken::PlainText(plain));
                        let ghost old_rest = rest@;
                        rest = rest.substring_char(i, n);
                        proof {
                            assert(old_rest.skip(i as int) == rest@);
                            assert(text_tokens_view(out@) == text_tokens_view(before).push(TextTokenV::Plain(old_rest.take(i as int))));
                            assert(lex_spec(old_rest) == seq![TextTokenV::Plain(old_rest.take(i as int))] + lex_spec(rest@));
                            assert(text_tokens_view(out@) + lex_spec(rest@) == text_tokens_view(before) + lex_spec(old_rest));
                        }
                    } else {
                        let ghost old_rest = rest@;
                        let (run, after) = find_puncts_end(rest, c);
                        let k = run.unicode_len();
                        proof {
                            lemma_run_len(old_rest, c);
                        }
                        out.push(punct_token(c, k));
                        rest = after;
                        proof {
                            assert(text_tokens_view(out@) == text_tokens_view(before).push(TextTokenV::Punct(c, k as nat)));
                            assert(lex_spec(old_rest) == seq![TextTokenV::Punct(c, k as nat)] + lex_spec(rest@));
                            assert(text_tokens_view(out@) + lex_spec(rest@) == text_tokens_view(before) + lex_spec(old_rest));
                        }
                    }
                },
                None => {
                    proof {
                        lemma_plain_len_is(rest@, n as int);
                        assert(rest@.skip(n as int).len() == 0);
                        assert(rest@.take(n as int) == rest@);
                        assert(lex_spec(rest@.skip(n as int)) == Seq::<TextTokenV>::empty());
                    }
                    let ghost old_rest = rest@;
                    out.push(TextToken::PlainText(rest.to_owned()));
                    proof {
                        assert(lex_spec(old_rest) == seq![TextTokenV::Plain(old_rest)]);
                        assert(text_tokens_view(out@) == text_tokens_view(before).push(TextTokenV::Plain(old_rest)));
                    }
                    rest = "";
                    proof {
                        reveal_strlit("");
                        assert(lex_spec(rest@) == Seq::<TextTokenV>::empty());
                        assert(text_tokens_view(out@) + lex_spec(rest@) == text_tokens_view(out@));
                    }
                    done = true;
                },
            }
        }
    }
    proof {
        assert(lex_spec(rest@) == Seq::<TextTokenV>::empty());
        assert(text_tokens_view(out@) + lex_spec(rest@) == text_tokens_view(out@));
    }
    out
}

} // verus!
