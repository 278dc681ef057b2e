//! The paragraph tokenizer and the segmenter that cuts a paragraph into
//! lines, one per speech.
use vstd::prelude::*;
use std::collections::VecDeque;
use crate::event::{
    events_view, lemma_no_structure, lemma_structural_add, lemma_structural_one, structural, Event, EventV, Tag,
};
use crate::text::chars_of;
use crate::token::{
    is_punct, lemma_lex_reconstructs, lemma_literals_append, lemma_literals_len, lex, lex_spec,
    literal,
    literals, text_tokens_view, tokens_view, TextToken, TextTokenV, Token, TokenV,
};

verus! {

broadcast use vstd::std_specs::vecdeque::group_vec_dequeue_axioms;

/// Nesting level after a start tag (it stops growing at `usize::MAX`).
pub open spec fn nest_inc(n: nat) -> nat {
    if n < usize::MAX { n + 1 } else { n }
}

/// Nesting level after an end tag (it never goes below zero).
pub open spec fn nest_dec(n: nat) -> nat {
    if n == 0 { 0 } else { (n - 1) as nat }
}

/// Whether `e` ends the paragraph when it comes at nesting level `nest`.
pub open spec fn ends_paragraph(e: Event, nest: nat) -> bool {
    nest == 0 && e == Event::End(Tag::Paragraph)
}

pub open spec fn nest_after(e: Event, nest: nat) -> nat {
    match e {
        Event::Start(_) => nest_inc(nest),
        Event::End(_) => nest_dec(nest),
        _ => nest,
    }
}

/// The tokens that `e`, met at nesting level `nest`, stands for.
pub open spec fn event_tokens(e: Event, nest: nat) -> Seq<TokenV> {
    match e {
        Event::Text(s) => if nest == 0 {
            as_tokens(lex_spec(s@))
        } else {
            seq![TokenV::Event(e@)]
        },
        _ => seq![TokenV::Event(e@)],
    }
}

pub open spec fn as_tokens(ts: Seq<TextTokenV>) -> Seq<TokenV> {
    ts.map_values(|t: TextTokenV| TokenV::Text(t))
}

/// The tokens of the paragraph whose events start `evs`, read at nesting
/// level `nest`, up to its end (excluded) or the end of `evs`.
pub open spec fn para_tokens(evs: Seq<Event>, nest: nat) -> Seq<TokenV>
    decreases evs.len(),
{
    if evs.len() == 0 || ends_paragraph(evs[0], nest) {
        seq![]
    } else {
        event_tokens(evs[0], nest) + para_tokens(evs.drop_first(), nest_after(evs[0], nest))
    }
}

/// The tokens of a whole line of events read from nesting level `nest`:
/// like a paragraph's, but nothing ends the line before its last event.
pub open spec fn line_tokens_of(evs: Seq<Event>, nest: nat) -> Seq<TokenV>
    decreases evs.len(),
{
    if evs.len() == 0 {
        seq![]
    } else {
        event_tokens(evs[0], nest) + line_tokens_of(evs.drop_first(), nest_after(evs[0], nest))
    }
}

/// The number of events of that paragraph, its end included.
pub open spec fn para_len(evs: Seq<Event>, nest: nat) -> nat
    decreases evs.len(),
{
    if evs.len() == 0 {
        0
    } else if ends_paragraph(evs[0], nest) {
        1
    } else {
        1 + para_len(evs.drop_first(), nest_after(evs[0], nest))
    }
}

pub proof fn lemma_para_len_bound(evs: Seq<Event>, nest: nat)
    ensures
        para_len(evs, nest) <= evs.len(),
    decreases evs.len(),
{
    if evs.len() > 0 && !ends_paragraph(evs[0], nest) {
        lemma_para_len_bound(evs.drop_first(), nest_after(evs[0], nest));
    }
}

/// The nesting level after the events `evs`, read from level `nest`.
pub open spec fn nest_of(evs: Seq<Event>, nest: nat) -> nat
    decreases evs.len(),
{
    if evs.len() == 0 {
        nest
    } else {
        nest_of(evs.drop_first(), nest_after(evs[0], nest))
    }
}

/// Events that hold no paragraph end are read whole, and reading goes on
/// after them at the level they leave.
pub proof fn lemma_para_split(body: Seq<Event>, tail: Seq<Event>, nest: nat)
    requires
        forall|i: int| 0 <= i < body.len() ==> body[i] != Event::End(Tag::Paragraph),
    ensures
        para_tokens(body + tail, nest) == para_tokens(body, nest) + para_tokens(tail, nest_of(body, nest)),
        para_len(body + tail, nest) == body.len() + para_len(tail, nest_of(body, nest)),
    decreases body.len(),
{
    if body.len() == 0 {
        assert(body + tail == tail);
        assert(para_tokens(body, nest) == Seq::<TokenV>::empty());
    } else {
        assert((body + tail)[0] == body[0]);
        assert((body + tail).drop_first() == body.drop_first() + tail);
        lemma_para_split(body.drop_first(), tail, nest_after(body[0], nest));
    }
}

/// A punctuation-free line of events: every text is non-empty and free of
/// `>`, `(` and `)`, and no paragraph ends in it.
pub open spec fn plain_events(evs: Seq<Event>) -> bool {
    forall|i: int| 0 <= i < evs.len() ==> {
        &&& evs[i] != Event::End(Tag::Paragraph)
        &&& (evs[i] matches Event::Text(s) ==> s@.len() > 0 && forall|j: int| 0 <= j < s@.len() ==> !is_punct(#[trigger] s@[j]))
    }
}

/// `t` is no punctuation token.
pub open spec fn no_punct(t: TokenV) -> bool {
    !(t matches TokenV::Text(TextTokenV::Punct(_, _)))
}

/// Such events give one token each, none of them punctuation, and each
/// stands for its event.
pub proof fn lemma_plain_tokens(evs: Seq<Event>, nest: nat)
    requires
        plain_events(evs),
    ensures
        para_tokens(evs, nest).len() == evs.len(),
        forall|i: int| 0 <= i < evs.len() ==> no_punct(#[trigger] para_tokens(evs, nest)[i]),
        forall|i: int| 0 <= i < evs.len() ==> crate::speech::token_event(#[trigger] para_tokens(evs, nest)[i]) == evs[i]@,
    decreases evs.len(),
{
    if evs.len() > 0 {
        let e = evs[0];
        let rest = evs.drop_first();
        assert(plain_events(rest)) by {
            assert forall|i: int| 0 <= i < rest.len() implies {
                &&& rest[i] != Event::End(Tag::Paragraph)
                &&& (rest[i] matches Event::Text(s) ==> s@.len() > 0 && forall|j: int| 0 <= j < s@.len() ==> !is_punct(#[trigger] s@[j]))
            } by {
                assert(rest[i] == evs[i + 1]);
            }
        }
        lemma_plain_tokens(rest, nest_after(e, nest));
        let head = event_tokens(e, nest);
        match e {
            Event::Text(s) => {
                if nest == 0 {
                    assert(evs[0] matches Event::Text(s));
                    crate::token::lemma_lex_plain(s@);
                    assert(head == seq![TokenV::Text(TextTokenV::Plain(s@))]);
                }
            },
            _ => {},
        }
        assert(head.len() == 1);
        let all = para_tokens(evs, nest);
        assert(all == head + para_tokens(rest, nest_after(e, nest)));
        assert forall|i: int| 0 <= i < evs.len() implies no_punct(#[trigger] all[i]) && crate::speech::token_event(all[i]) == evs[i]@ by {
            if i > 0 {
                assert(all[i] == para_tokens(rest, nest_after(e, nest))[i - 1]);
                assert(evs[i] == rest[i - 1]);
            }
        }
    }
}

/// Without punctuation tokens no heading starts anywhere, so a line only
/// ends at the end of the paragraph.
pub proof fn lemma_single_line(ts: Seq<TokenV>, j: int)
    requires
        0 <= j <= ts.len(),
        forall|i: int| 0 <= i < ts.len() ==> no_punct(#[trigger] ts[i]),
    ensures
        line_end(ts, j) == ts.len(),
    decreases ts.len() - j,
{
    if j < ts.len() {
        if j + 1 < ts.len() {
            assert(no_punct(ts[j + 1]));
            assert(!heading_at(ts, j + 1));
            lemma_single_line(ts, j + 1);
        } else {
            assert(line_end(ts, j + 1) == ts.len());
        }
    }
}

/// Tokenizing a paragraph keeps its structural events: text becomes text
/// tokens, every other event passes, and the paragraph end goes.
pub proof fn lemma_para_structure(evs: Seq<Event>, nest: nat)
    ensures
        structural(crate::speech::token_events(para_tokens(evs, nest)))
            == structural(events_view(evs.take(para_len(evs, nest) as int))),
    decreases evs.len(),
{
    let ts = para_tokens(evs, nest);
    if evs.len() == 0 {
        assert(evs.take(0) =~= Seq::<Event>::empty());
        lemma_no_structure(crate::speech::token_events(ts));
        lemma_no_structure(events_view(evs.take(0)));
    } else if ends_paragraph(evs[0], nest) {
        assert(evs.take(1) =~= seq![evs[0]]);
        assert(events_view(seq![evs[0]]) =~= seq![evs[0]@]);
        lemma_structural_one(evs[0]@);
        lemma_no_structure(crate::speech::token_events(ts));
    } else {
        let e = evs[0];
        let rest = evs.drop_first();
        let n2 = nest_after(e, nest);
        lemma_para_structure(rest, n2);
        lemma_para_len_bound(rest, n2);
        let head = event_tokens(e, nest);
        crate::speech::lemma_token_events_add(head, para_tokens(rest, n2));
        lemma_structural_add(crate::speech::token_events(head), crate::speech::token_events(para_tokens(rest, n2)));
        let k = para_len(rest, n2) as int;
        assert(evs.take(k + 1) =~= seq![e] + rest.take(k));
        assert(events_view(seq![e] + rest.take(k)) =~= seq![e@] + events_view(rest.take(k)));
        lemma_structural_add(seq![e@], events_view(rest.take(k)));
        lemma_structural_one(e@);
        let he = crate::speech::token_events(head);
        if e is Text && nest == 0 {
            assert forall|i: int| 0 <= i < he.len() implies !crate::event::is_structural(#[trigger] he[i]) by {
            }
            lemma_no_structure(he);
        } else {
            assert(he =~= seq![e@]);
        }
    }
}

/// The tokens of one paragraph, read from an upstream event queue: text at
/// the paragraph's own level is lexed, everything else passes through, and
/// the sequence stops for good at the end of the paragraph.
pub struct FuseOnParagraphEnd {
    iter: VecDeque<Event>,
    nest_level: usize,
    queue: VecDeque<Token>,
    is_fused: bool,
}

impl FuseOnParagraphEnd {
    /// The tokens still to come.
    pub closed spec fn pending(&self) -> Seq<TokenV> {
        tokens_view(self.queue@) + if self.is_fused {
            seq![]
        } else {
            para_tokens(self.iter@, self.nest_level as nat)
        }
    }

    /// The upstream events that follow the paragraph.
    pub closed spec fn after(&self) -> Seq<Event> {
        if self.is_fused {
            self.iter@
        } else {
            self.iter@.skip(para_len(self.iter@, self.nest_level as nat) as int)
        }
    }

    pub closed spec fn upstream_len(&self) -> nat {
        self.iter@.len()
    }

    pub closed spec fn queue_len(&self) -> nat {
        self.queue@.len()
    }

    pub closed spec fn wf(&self) -> bool {
        self.is_fused ==> self.queue@.len() == 0
    }

    pub fn new(parser: VecDeque<Event>) -> (r: Self)
        ensures
            r.wf(),
            r.pending() == para_tokens(parser@, 0),
            r.after() == parser@.skip(para_len(parser@, 0) as int),
    {
        let r = FuseOnParagraphEnd {
            iter: parser,
            nest_level: 0,
            queue: VecDeque::new(),
            is_fused: false,
        };
        assert(tokens_view(r.queue@) =~= Seq::<TokenV>::empty());
        assert(r.pending() =~= para_tokens(parser@, 0));
        r
    }

    /// Whether the end of the paragraph (or of the upstream) was reached.
    pub closed spec fn is_done(&self) -> bool {
        self.is_fused
    }

    /// Gives back the upstream queue, positioned after the paragraph once
    /// the paragraph was read to its end.
    pub fn into_inner(self) -> (r: VecDeque<Event>)
        ensures
            self.is_done() ==> r@ == self.after(),
    {
        self.iter
    }

    /// The next token of the paragraph.
    pub fn next(&mut self) -> (r: Option<Token>)
        requires
            old(self).wf(),
        ensures
            final(self).wf(),
            final(self).after() == old(self).after(),
            match r {
                Some(t) => {
                    &&& old(self).pending() == seq![t@] + final(self).pending()
                    &&& (final(self).upstream_len() < old(self).upstream_len()
                        || (final(self).upstream_len() == old(self).upstream_len()
                            && final(self).queue_len() < old(self).queue_len()))
                },
                None => {
                    &&& old(self).pending().len() == 0
                    &&& final(self).pending().len() == 0
                    &&& final(self).is_done()
                },
            },
    {
        loop
            invariant
                self.wf(),
                self.after() == old(self).after(),
                self.pending() == old(self).pending(),
                self.upstream_len() <= old(self).upstream_len(),
                self.upstream_len() == old(self).upstream_len() ==> self.queue_len() <= old(self).queue_len(),
            decreases self.iter@.len(),
        {
            let ghost before = *self;
            if self.queue.len() > 0 {
                let t = self.queue.pop_front().unwrap();
                proof {
                    assert(tokens_view(before.queue@) == seq![t@] + tokens_view(self.queue@));
                }
                return Some(t);
            }
            if self.is_fused {
                return None;
            }
            assert(tokens_view(self.queue@) =~= Seq::<TokenV>::empty());
            let ghost nest = self.nest_level as nat;
            let ghost evs = self.iter@;
            match self.iter.pop_front() {
                None => {
                    self.is_fused = true;
                    return None;
                },
                Some(e) => {
                    let ghost ge = e;
                    proof {
                        assert(evs.drop_first() == self.iter@);
                        assert(evs.skip(1) == self.iter@);
                        lemma_para_len_bound(self.iter@, nest_after(e, nest));
                        assert(evs.skip(1).skip(para_len(self.iter@, nest_after(e, nest)) as int)
                            =~= evs.skip((1 + para_len(self.iter@, nest_after(e, nest))) as int));
                    }
                    match e {
                        Event::Start(t) => {
                            if self.nest_level < usize::MAX {
                                self.nest_level = self.nest_level + 1;
                            }
                            return Some(Token::Event(Event::Start(t)));
                        },
                        Event::End(t) => {
                            if self.nest_level == 0 && matches!(t, Tag::Paragraph) {
                                self.is_fused = true;
                                assert(evs.skip(1) == self.iter@);
                                return None;
                            }
                            if self.nest_level > 0 {
                                self.nest_level = self.nest_level - 1;
                            }
                            return Some(Token::Event(Event::End(t)));
                        },
                        Event::Text(s) => {
                            if self.nest_level > 0 {
                                return Some(Token::Event(Event::Text(s)));
                            }
                            let toks = lex(s.as_str());
                            let mut i: usize = 0;
                            while i < toks.len()
                                invariant
                                    i <= toks@.len(),
                                    self.iter@ == evs.drop_first(),
                                    self.nest_level == 0,
                                    !self.is_fused,
                                    tokens_view(self.queue@) == as_tokens(text_tokens_view(toks@).take(i as int)),
                                decreases toks@.len() - i,
                            {
                                self.queue.push_back(Token::Text(copy_text_token(&toks[i])));
                                proof {
                                    assert(as_tokens(text_tokens_view(toks@).take(i + 1))
                                        == as_tokens(text_tokens_view(toks@).take(i as int)).push(TokenV::Text(toks@[i as int]@)));
                                }
                                i = i + 1;
                            }
                            proof {
                                assert(text_tokens_view(toks@).take(toks@.len() as int) == text_tokens_view(toks@));
                                assert(evs.len() > 0 && evs[0] == ge);
                                assert(!ends_paragraph(ge, nest));
                                assert(nest_after(ge, nest) == nest);
                                assert(evs.len() != 0);
                                assert(para_tokens(evs, nest) == event_tokens(evs[0], nest) + para_tokens(evs.drop_first(), nest_after(evs[0], nest)));
                                assert(para_tokens(evs, nest) == event_tokens(ge, nest) + para_tokens(self.iter@, nest));
                                assert(tokens_view(self.queue@) == event_tokens(ge, nest));
                                assert(self.pending() == before.pending());
                            }
                        },
                        other => {
                            return Some(Token::Event(other));
                        },
                    }
                },
            }
        }
    }
}

pub open spec fn is_plain_tok(t: TokenV) -> bool {
    match t {
        TokenV::Text(TextTokenV::Plain(_)) => true,
        _ => false,
    }
}

/// `t` is a lone `c`, not part of a run.
pub open spec fn is_single(t: TokenV, c: char) -> bool {
    t == TokenV::Text(TextTokenV::Punct(c, 1))
}

/// `Character> ...` starts at `k`.
pub open spec fn simple_heading_at(ts: Seq<TokenV>, k: int) -> bool {
    &&& 0 <= k
    &&& k + 1 < ts.len()
    &&& is_plain_tok(ts[k])
    &&& is_single(ts[k + 1], '>')
}

/// `Character (direction)> ...` starts at `k`.
pub open spec fn directed_heading_at(ts: Seq<TokenV>, k: int) -> bool {
    &&& 0 <= k
    &&& k + 4 < ts.len()
    &&& is_plain_tok(ts[k])
    &&& is_single(ts[k + 1], '(')
    &&& is_plain_tok(ts[k + 2])
    &&& is_single(ts[k + 3], ')')
    &&& is_single(ts[k + 4], '>')
}

/// A speech heading starts at `k`.
pub open spec fn heading_at(ts: Seq<TokenV>, k: int) -> bool {
    simple_heading_at(ts, k) || directed_heading_at(ts, k)
}

/// A line ends after the soft break at `j`: a heading or the end of the
/// paragraph follows it.
pub open spec fn is_break(ts: Seq<TokenV>, j: int) -> bool {
    &&& 0 <= j < ts.len()
    &&& ts[j] == TokenV::Event(EventV::SoftBreak)
    &&& (j + 1 == ts.len() || heading_at(ts, j + 1))
}

/// Where the line that contains position `j` ends (exclusive).
pub open spec fn line_end(ts: Seq<TokenV>, j: int) -> int
    decreases ts.len() - j,
{
    if j >= ts.len() {
        ts.len() as int
    } else if is_break(ts, j) {
        j + 1
    } else {
        line_end(ts, j + 1)
    }
}

pub proof fn lemma_line_end(ts: Seq<TokenV>, j: int)
    requires
        0 <= j < ts.len(),
    ensures
        j < line_end(ts, j) <= ts.len(),
    decreases ts.len() - j,
{
    if !is_break(ts, j) {
        if j + 1 < ts.len() {
            lemma_line_end(ts, j + 1);
        } else {
            assert(line_end(ts, j + 1) == ts.len());
        }
    }
}

/// The lines of a paragraph's tokens.
pub open spec fn lines_of(ts: Seq<TokenV>) -> Seq<Seq<TokenV>>
    decreases ts.len()
    via lines_of_decreases
{
    if ts.len() == 0 {
        seq![]
    } else {
        let e = line_end(ts, 0);
        seq![ts.take(e)] + lines_of(ts.skip(e))
    }
}

#[via_fn]
proof fn lines_of_decreases(ts: Seq<TokenV>) {
    if ts.len() > 0 {
        lemma_line_end(ts, 0);
    }
}

pub(crate) fn is_single_at(ts: &VecDeque<Token>, k: usize, c: char) -> (r: bool)
    requires
        k < ts@.len(),
    ensures
        r == is_single(tokens_view(ts@)[k as int], c),
{
    match &ts[k] {
        Token::Text(TextToken::Rangle) => c == '>',
        Token::Text(TextToken::RangleRun(n)) => c == '>' && *n == 1,
        Token::Text(TextToken::LeftParen) => c == '(',
        Token::Text(TextToken::LeftParenRun(n)) => c == '(' && *n == 1,
        Token::Text(TextToken::RightParen) => c == ')',
        Token::Text(TextToken::RightParenRun(n)) => c == ')' && *n == 1,
        _ => false,
    }
}

pub(crate) fn is_plain_at(ts: &VecDeque<Token>, k: usize) -> (r: bool)
    requires
        k < ts@.len(),
    ensures
        r == is_plain_tok(tokens_view(ts@)[k as int]),
{
    match &ts[k] {
        Token::Text(TextToken::PlainText(_)) => true,
        _ => false,
    }
}

/// Whether a speech heading starts at `k`.
pub(crate) fn is_heading_at(ts: &VecDeque<Token>, k: usize) -> (r: bool)
    ensures
        r == heading_at(tokens_view(ts@), k as int),
{
    let n = ts.len();
    if k < n && n - k > 1 && is_plain_at(ts, k) && is_single_at(ts, k + 1, '>') {
        return true;
    }
    k < n && n - k > 4 && is_plain_at(ts, k) && is_single_at(ts, k + 1, '(') && is_plain_at(ts, k + 2)
        && is_single_at(ts, k + 3, ')') && is_single_at(ts, k + 4, '>')
}

/// Splits one paragraph into lines, one per speech: a line ends after a
/// soft break that is followed by a speech heading or by the end of the
/// paragraph.
pub struct Speeches {
    iter: FuseOnParagraphEnd,
    tokens: VecDeque<Token>,
}

impl Speeches {
    /// The lines still to come.
    pub closed spec fn lines(&self) -> Seq<Seq<TokenV>> {
        lines_of(tokens_view(self.tokens@))
    }

    /// The drained paragraph tokenizer.
    pub closed spec fn paragraph(&self) -> FuseOnParagraphEnd {
        self.iter
    }

    /// Reads the whole paragraph.
    pub fn new(paragraph: FuseOnParagraphEnd) -> (r: Self)
        requires
            paragraph.wf(),
        ensures
            r.lines() == lines_of(paragraph.pending()),
            r.paragraph().is_done(),
            r.paragraph().after() == paragraph.after(),
    {
        let mut paragraph = paragraph;
        let mut tokens: VecDeque<Token> = VecDeque::new();
        let ghost all = paragraph.pending();
        let ghost old_after = paragraph.after();
        loop
            invariant
                paragraph.wf(),
                tokens_view(tokens@) + paragraph.pending() == all,
                paragraph.after() == old_after,
            ensures
                paragraph.pending().len() == 0,
                paragraph.is_done(),
                paragraph.after() == old_after,
                tokens_view(tokens@) == all,
            decreases paragraph.upstream_len(), paragraph.queue_len(),
        {
            let ghost before = tokens@;
            match paragraph.next() {
                Some(t) => {
                    tokens.push_back(t);
                    assert(tokens_view(tokens@) == tokens_view(before).push(t@));
                },
                None => {
                    assert(tokens_view(tokens@) + paragraph.pending() == tokens_view(tokens@));
                    break;
                },
            }
        }
        Speeches { iter: paragraph, tokens }
    }

    pub fn into_inner(self) -> (r: FuseOnParagraphEnd)
        ensures
            r == self.paragraph(),
    {
        self.iter
    }

    /// The next line, or `None` once every line was given.
    pub fn next(&mut self) -> (r: Option<Vec<Token>>)
        ensures
            final(self).paragraph() == old(self).paragraph(),
            match r {
                Some(line) => old(self).lines() == seq![tokens_view(line@)] + final(self).lines(),
                None => old(self).lines().len() == 0 && final(self).lines().len() == 0,
            },
    {
        let n = self.tokens.len();
        if n == 0 {
            return None;
        }
        let ghost ts = tokens_view(self.tokens@);
        let mut j: usize = 0;
        let mut end: usize = n;
        let mut found = false;
        while j < n && !found
            invariant
                n == self.tokens@.len(),
                ts == tokens_view(self.tokens@),
                j <= n,
                found ==> end == line_end(ts, 0),
                !found ==> end == n && line_end(ts, 0) == line_end(ts, j as int),
            decreases n - j + (if found { 0int } else { 1int }),
        {
            let soft = match &self.tokens[j] {
                Token::Event(Event::SoftBreak) => true,
                _ => false,
            };
            if soft && (j + 1 == n || is_heading_at(&self.tokens, j + 1)) {
                end = j + 1;
                assert(is_break(ts, j as int));
                found = true;
            } else {
                assert(!is_break(ts, j as int));
                j = j + 1;
            }
        }
        proof {
            lemma_line_end(ts, 0);
        }
        let mut line: Vec<Token> = Vec::new();
        let mut k: usize = 0;
        while k < end
            invariant
                self.iter == old(self).iter,
                ts.len() == n,
                end == line_end(ts, 0),
                k <= end <= n,
                self.tokens@.len() == n - k,
                tokens_view(line@) == ts.take(k as int),
                tokens_view(self.tokens@) == ts.skip(k as int),
            decreases end - k,
        {
            let t = self.tokens.pop_front().unwrap();
            proof {
                assert(ts.skip(k as int)[0] == ts[k as int]);
            }
            line.push(t);
            proof {
                assert(ts.take(k + 1) == ts.take(k as int).push(ts[k as int]));
                assert(ts.skip(k as int).drop_first() == ts.skip(k + 1));
            }
            k = k + 1;
        }
        Some(line)
    }
}

/// The index of the first `pat` in `s`, unless another `pat` follows it
/// right away.
pub fn find_one_char(s: &str, pat: char) -> (r: Option<usize>)
    ensures
        match r {
            Some(i) => {
                &&& i < s@.len()
                &&& s@[i as int] == pat
                &&& forall|j: int| 0 <= j < i ==> s@[j] != pat
                &&& !(i + 1 < s@.len() && s@[i + 1] == pat)
            },
            None => (forall|j: int| 0 <= j < s@.len() ==> s@[j] != pat) || exists|i: int|
                #![trigger s@[i]]
                0 <= i && i + 1 < s@.len() && s@[i] == pat && s@[i + 1] == pat && (forall|j: int|
                    0 <= j < i ==> s@[j] != pat),
        },
{
    let cs = chars_of(s);
    let mut i: usize = 0;
    while i < cs.len()
        invariant
            cs@ == s@,
            i <= cs@.len(),
            forall|j: int| 0 <= j < i ==> s@[j] != pat,
        decreases cs@.len() - i,
    {
        if cs[i] == pat {
            if i + 1 < cs.len() && cs[i + 1] == pat {
                return None;
            }
            return Some(i);
        }
        i = i + 1;
    }
    None
}

/// How many tokens of a heading stand before its `>`.
pub open spec fn heading_width(ts: Seq<TokenV>) -> int {
    if simple_heading_at(ts, 0) { 1 } else { 4 }
}

fn is_plain_text_token(t: &TextToken) -> (r: bool)
    ensures
        r == is_plain_tok(TokenV::Text(t@)),
{
    match t {
        TextToken::PlainText(_) => true,
        _ => false,
    }
}

fn is_single_text_token(t: &TextToken, c: char) -> (r: bool)
    ensures
        r == is_single(TokenV::Text(t@), c),
{
    match t {
        TextToken::Rangle => c == '>',
        TextToken::RangleRun(n) => c == '>' && *n == 1,
        TextToken::LeftParen => c == '(',
        TextToken::LeftParenRun(n) => c == '(' && *n == 1,
        TextToken::RightParen => c == ')',
        TextToken::RightParenRun(n) => c == ')' && *n == 1,
        _ => false,
    }
}

fn plain_len_of(t: &TextToken) -> (r: usize)
    requires
        is_plain_tok(TokenV::Text(t@)),
    ensures
        r == literal(t@).len(),
{
    match t {
        TextToken::PlainText(s) => s.as_str().unicode_len(),
        _ => 0,
    }
}

/// Splits a speech line at the `>` of its heading: `Character> body` or
/// `Character (direction)> body`. Any other line gives `None`.
pub fn split_speech_heading(s: &str) -> (r: Option<(&str, &str)>)
    ensures
        r is Some <==> heading_at(as_tokens(lex_spec(s@)), 0),
        match r {
            Some((h, b)) => {
                let ts = lex_spec(s@);
                let n = heading_width(as_tokens(ts));
                &&& h@ == literals(ts.take(n))
                &&& b@ == literals(ts.skip(n + 1))
                &&& s@ == h@ + seq!['>'] + b@
            },
            None => true,
        },
{
    let len = s.unicode_len();
    let toks = lex(s);
    let ghost ts = lex_spec(s@);
    let ghost tv = as_tokens(ts);
    let n = toks.len();
    assert(tv.len() == n);
    assert(forall|k: int| 0 <= k < n ==> tv[k] == TokenV::Text(#[trigger] toks@[k]@));
    let width: usize;
    let p: usize;
    if n > 1 && is_plain_text_token(&toks[0]) && is_single_text_token(&toks[1], '>') {
        assert(simple_heading_at(tv, 0));
        width = 1;
        p = plain_len_of(&toks[0]);
        proof {
            assert(ts.take(1) == seq![ts[0]]);
            reveal_with_fuel(literals, 2);
        }
    } else if n > 4 && is_plain_text_token(&toks[0]) && is_single_text_token(&toks[1], '(')
        && is_plain_text_token(&toks[2]) && is_single_text_token(&toks[3], ')')
        && is_single_text_token(&toks[4], '>') {
        assert(directed_heading_at(tv, 0));
        width = 4;
        let a = plain_len_of(&toks[0]);
        let b = plain_len_of(&toks[2]);
        proof {
            lemma_lex_reconstructs(s@);
            lemma_literals_len(ts, s@);
            assert(ts.take(4) == seq![ts[0], ts[1], ts[2], ts[3]]);
            reveal_with_fuel(literals, 5);
            assert(literal(ts[1]).len() == 1);
            assert(literal(ts[3]).len() == 1);
            assert(literals(ts.take(4)).len() == a + 1 + b + 1);
            assert(literals(ts.take(4)).len() <= s@.len());
        }
        p = a + 1 + b + 1;
    } else {
        return None;
    }
    proof {
        lemma_lex_reconstructs(s@);
        assert(ts == ts.take(width as int) + ts.skip(width as int));
        lemma_literals_append(ts.take(width as int), ts.skip(width as int));
        let rest = ts.skip(width as int);
        assert(rest[0] == TextTokenV::Punct('>', 1));
        assert(rest.drop_first() == ts.skip(width + 1));
        assert(literal(rest[0]) =~= seq!['>']);
        assert(literals(rest) == seq!['>'] + literals(ts.skip(width + 1)));
        assert(s@.take(p as int) =~= literals(ts.take(width as int)));
        assert(s@.skip(p + 1) =~= literals(ts.skip(width + 1)));
    }
    Some((s.substring_char(0, p), s.substring_char(p + 1, len)))
}

/// Whether `s` starts with a speech heading.
pub fn is_speech_start(s: &str) -> (r: bool)
    ensures
        r == heading_at(as_tokens(lex_spec(s@)), 0),
{
    split_speech_heading(s).is_some()
}

pub(crate) fn copy_text_token(t: &TextToken) -> (r: TextToken)
    ensures
        r@ == t@,
{
    match t {
        TextToken::PlainText(s) => TextToken::PlainText(s.clone()),
        TextToken::Rangle => TextToken::Rangle,
        TextToken::RangleRun(n) => TextToken::RangleRun(*n),
        TextToken::LeftParen => TextToken::LeftParen,
        TextToken::LeftParenRun(n) => TextToken::LeftParenRun(*n),
        TextToken::RightParen => TextToken::RightParen,
        TextToken::RightParenRun(n) => TextToken::RightParenRun(*n),
    }
}

} // verus!
