//! Speeches: a heading (character and optional direction) and a body of
//! text and stage directions, parsed from the tokens of one line.
use vstd::prelude::*;
use std::collections::VecDeque;
use crate::event::{
    events_view, is_structural, is_text, lemma_no_non_text, lemma_non_text_add, lemma_non_text_one,
    lemma_structural_add, lemma_structural_one, non_text, structural, Event, EventV, Tag,
};
use crate::parser::{
    copy_text_token, directed_heading_at, event_tokens, heading_at, is_heading_at, is_single, is_single_at,
    line_tokens_of, nest_after,
    simple_heading_at,
};
use crate::text::{repeat_char, trim_spec, trim_start_spec, trim_start_string, trim_string};
use crate::token::{lex, literal, text_tokens_view, tokens_view, TextToken, TextTokenV, Token, TokenV};
use crate::find_one_of;

verus! {

broadcast use vstd::std_specs::vecdeque::group_vec_dequeue_axioms;

/// A stage direction: the inline content between a matched pair of
/// parentheses.
#[derive(Clone, Debug, PartialEq, Eq)]
pub struct Direction(pub Vec<Event>);

#[derive(Clone, Debug, PartialEq, Eq)]
pub enum Inline {
    Event(Event),
    Direction(Direction),
}

#[derive(Clone, Debug, PartialEq, Eq)]
pub struct Heading {
    pub character: String,
    pub direction: Direction,
}

#[derive(Clone, Debug, PartialEq, Eq)]
pub struct Speech {
    pub heading: Heading,
    pub body: Vec<Inline>,
}

pub enum InlineV {
    Event(EventV),
    Direction(Seq<EventV>),
}

pub struct HeadingV {
    pub character: Seq<char>,
    pub direction: Seq<EventV>,
}

pub struct SpeechV {
    pub heading: HeadingV,
    pub body: Seq<InlineV>,
}

impl View for Direction {
    type V = Seq<EventV>;

    open spec fn view(&self) -> Seq<EventV> {
        events_view(self.0@)
    }
}

impl View for Inline {
    type V = InlineV;

    open spec fn view(&self) -> InlineV {
        match self {
            Inline::Event(e) => InlineV::Event(e@),
            Inline::Direction(d) => InlineV::Direction(d@),
        }
    }
}

impl View for Heading {
    type V = HeadingV;

    open spec fn view(&self) -> HeadingV {
        HeadingV { character: self.character@, direction: self.direction@ }
    }
}

impl View for Speech {
    type V = SpeechV;

    open spec fn view(&self) -> SpeechV {
        SpeechV { heading: self.heading@, body: inlines_view(self.body@) }
    }
}

pub open spec fn inlines_view(s: Seq<Inline>) -> Seq<InlineV> {
    s.map_values(|i: Inline| i@)
}

impl Direction {
    pub fn new() -> (r: Self)
        ensures
            r@.len() == 0,
    {
        Direction(Vec::new())
    }

    /// Appends `s` as a text event.
    pub fn push_string(&mut self, s: String)
        ensures
            final(self)@ == old(self)@.push(EventV::Text(s@)),
    {
        self.0.push(Event::Text(s));
        assert(events_view(self.0@) =~= events_view(old(self).0@).push(EventV::Text(s@)));
    }
}

/// The event that a token stands for, punctuation kept as literal text.
pub open spec fn token_event(t: TokenV) -> EventV {
    match t {
        TokenV::Text(x) => EventV::Text(literal(x)),
        TokenV::Event(e) => e,
    }
}

pub open spec fn token_events(ts: Seq<TokenV>) -> Seq<EventV> {
    ts.map_values(|t: TokenV| token_event(t))
}

/// The position of the `)` that closes a direction, scanning from `j` with
/// `depth` unclosed inner `(`; lone parentheses count, runs do not.
pub open spec fn match_close(ts: Seq<TokenV>, j: int, depth: nat) -> Option<int>
    decreases ts.len() - j,
{
    if j < 0 || j >= ts.len() {
        None
    } else if is_single(ts[j], ')') {
        if depth == 0 {
            Some(j)
        } else {
            match_close(ts, j + 1, (depth - 1) as nat)
        }
    } else if is_single(ts[j], '(') {
        match_close(ts, j + 1, depth + 1)
    } else {
        match_close(ts, j + 1, depth)
    }
}

pub proof fn lemma_match_close(ts: Seq<TokenV>, j: int, depth: nat)
    ensures
        match match_close(ts, j, depth) {
            Some(m) => j <= m < ts.len() && is_single(ts[m], ')'),
            None => true,
        },
    decreases ts.len() - j,
{
    if 0 <= j < ts.len() {
        if is_single(ts[j], ')') {
            if depth > 0 {
                lemma_match_close(ts, j + 1, (depth - 1) as nat);
            }
        } else if is_single(ts[j], '(') {
            lemma_match_close(ts, j + 1, depth + 1);
        } else {
            lemma_match_close(ts, j + 1, depth);
        }
    }
}

/// Where the direction opened by a lone `(` at the front of `ts` closes.
pub open spec fn direction_close(ts: Seq<TokenV>) -> Option<int> {
    if ts.len() > 0 && is_single(ts[0], '(') {
        match_close(ts, 1, 0)
    } else {
        None
    }
}

/// The inline content of a body: a `(` with a matching `)` encloses a
/// direction; everything else, unmatched parentheses included, is text or
/// a passed-through event.
pub open spec fn body_of(ts: Seq<TokenV>) -> Seq<InlineV>
    decreases ts.len()
    via body_of_decreases
{
    if ts.len() == 0 {
        seq![]
    } else {
        match direction_close(ts) {
            Some(m) => seq![InlineV::Direction(token_events(ts.subrange(1, m)))] + body_of(ts.skip(m + 1)),
            None => seq![InlineV::Event(token_event(ts[0]))] + body_of(ts.drop_first()),
        }
    }
}

#[via_fn]
proof fn body_of_decreases(ts: Seq<TokenV>) {
    if ts.len() > 0 {
        lemma_match_close(ts, 1, 0);
    }
}

/// Trims the whitespace that starts each line of a body: the first text
/// of the body and the first text after each soft break lose their
/// leading whitespace, and disappear if nothing is left.
pub open spec fn trim_heads(inls: Seq<InlineV>, at_head: bool) -> Seq<InlineV>
    decreases inls.len(),
{
    if inls.len() == 0 {
        seq![]
    } else {
        let rest = inls.drop_first();
        match inls[0] {
            InlineV::Event(EventV::Text(s)) => if at_head {
                let t = trim_start_spec(s);
                (if t.len() > 0 { seq![InlineV::Event(EventV::Text(t))] } else { seq![] })
                    + trim_heads(rest, false)
            } else {
                seq![inls[0]] + trim_heads(rest, false)
            },
            InlineV::Event(EventV::SoftBreak) => seq![inls[0]] + trim_heads(rest, true),
            _ => seq![inls[0]] + trim_heads(rest, false),
        }
    }
}

/// The parsed body of a line's tokens.
pub open spec fn parse_body_spec(ts: Seq<TokenV>) -> Seq<InlineV> {
    trim_heads(body_of(ts), true)
}

pub open spec fn plain_text(t: TokenV) -> Seq<char> {
    match t {
        TokenV::Text(TextTokenV::Plain(s)) => s,
        _ => seq![],
    }
}

/// The heading of a line that starts with one.
pub open spec fn heading_of_tokens(ts: Seq<TokenV>) -> HeadingV {
    HeadingV {
        character: trim_spec(plain_text(ts[0])),
        direction: if directed_heading_at(ts, 0) {
            seq![EventV::Text(trim_spec(plain_text(ts[2])))]
        } else {
            seq![]
        },
    }
}

/// The speech of a line, if it starts with a heading.
pub open spec fn speech_of_tokens(ts: Seq<TokenV>) -> Option<SpeechV> {
    if heading_at(ts, 0) {
        let w = if simple_heading_at(ts, 0) { 2int } else { 5int };
        Some(SpeechV { heading: heading_of_tokens(ts), body: parse_body_spec(ts.skip(w)) })
    } else {
        None
    }
}

pub open spec fn speech_view(s: Option<Speech>) -> Option<SpeechV> {
    match s {
        Some(x) => Some(x@),
        None => None,
    }
}

/// The events of one inline: the event itself, or a direction's events.
pub open spec fn inline_events(x: InlineV) -> Seq<EventV> {
    match x {
        InlineV::Event(e) => seq![e],
        InlineV::Direction(d) => d,
    }
}

/// The events of a body with its directions opened up.
pub open spec fn flat_inlines(inls: Seq<InlineV>) -> Seq<EventV>
    decreases inls.len(),
{
    if inls.len() == 0 {
        seq![]
    } else {
        inline_events(inls[0]) + flat_inlines(inls.drop_first())
    }
}

pub proof fn lemma_flat_add(a: Seq<InlineV>, b: Seq<InlineV>)
    ensures
        flat_inlines(a + b) == flat_inlines(a) + flat_inlines(b),
    decreases a.len(),
{
    if a.len() == 0 {
        assert(a + b == b);
    } else {
        assert((a + b).drop_first() == a.drop_first() + b);
        assert((a + b)[0] == a[0]);
        lemma_flat_add(a.drop_first(), b);
    }
}

pub proof fn lemma_flat_one(x: InlineV)
    ensures
        flat_inlines(seq![x]) == inline_events(x),
{
    assert(seq![x].drop_first() =~= Seq::<InlineV>::empty());
    assert(flat_inlines(Seq::<InlineV>::empty()) == Seq::<EventV>::empty());
    assert(flat_inlines(seq![x]) =~= inline_events(x));
}

pub proof fn lemma_token_events_add(a: Seq<TokenV>, b: Seq<TokenV>)
    ensures
        token_events(a + b) == token_events(a) + token_events(b),
{
    assert(token_events(a + b) =~= token_events(a) + token_events(b));
}

/// Trimming line heads keeps the structural events of a body.
pub proof fn lemma_trim_heads_structure(inls: Seq<InlineV>, at_head: bool)
    ensures
        structural(flat_inlines(trim_heads(inls, at_head))) == structural(flat_inlines(inls)),
    decreases inls.len(),
{
    if inls.len() > 0 {
        let rest = inls.drop_first();
        lemma_trim_heads_structure(rest, false);
        lemma_trim_heads_structure(rest, true);
        let x = inls[0];
        lemma_structural_add(inline_events(x), flat_inlines(rest));
        match x {
            InlineV::Event(EventV::Text(s)) => {
                let t = trim_start_spec(s);
                let head: Seq<InlineV> = if at_head {
                    if t.len() > 0 { seq![InlineV::Event(EventV::Text(t))] } else { seq![] }
                } else {
                    seq![x]
                };
                let next = trim_heads(rest, false);
                assert(trim_heads(inls, at_head) == head + next);
                lemma_flat_add(head, next);
                lemma_structural_add(flat_inlines(head), flat_inlines(next));
                lemma_structural_one(EventV::Text(s));
                if head.len() == 1 {
                    assert(head.drop_first() == Seq::<InlineV>::empty());
                    assert(flat_inlines(head) == inline_events(head[0]) + flat_inlines(head.drop_first()));
                    lemma_structural_one(head[0]->Event_0);
                }
            },
            _ => {
                let h2 = x matches InlineV::Event(EventV::SoftBreak);
                let next = trim_heads(rest, h2);
                assert(trim_heads(inls, at_head) == seq![x] + next);
                lemma_flat_add(seq![x], next);
                assert(seq![x].drop_first() == Seq::<InlineV>::empty());
                assert(flat_inlines(seq![x]) == inline_events(x) + flat_inlines(Seq::<InlineV>::empty()));
                assert(flat_inlines(seq![x]) =~= inline_events(x));
                lemma_structural_add(inline_events(x), flat_inlines(next));
            },
        }
    }
}

/// Splitting out directions keeps the structural events of a line: only
/// the parentheses, which are text, go.
pub proof fn lemma_body_structure(ts: Seq<TokenV>)
    ensures
        structural(flat_inlines(body_of(ts))) == structural(token_events(ts)),
    decreases ts.len(),
{
    if ts.len() > 0 {
        match direction_close(ts) {
            Some(m) => {
                lemma_match_close(ts, 1, 0);
                let sub = ts.subrange(1, m);
                let rest = ts.skip(m + 1);
                lemma_body_structure(rest);
                let d = token_events(sub);
                assert(body_of(ts) == seq![InlineV::Direction(d)] + body_of(rest));
                lemma_flat_add(seq![InlineV::Direction(d)], body_of(rest));
                lemma_flat_one(InlineV::Direction(d));
                lemma_structural_add(d, flat_inlines(body_of(rest)));
                assert(ts =~= seq![ts[0]] + sub + seq![ts[m]] + rest);
                lemma_token_events_add(seq![ts[0]] + sub + seq![ts[m]], rest);
                lemma_token_events_add(seq![ts[0]] + sub, seq![ts[m]]);
                lemma_token_events_add(seq![ts[0]], sub);
                assert(token_events(seq![ts[0]]) =~= seq![token_event(ts[0])]);
                assert(token_events(seq![ts[m]]) =~= seq![token_event(ts[m])]);
                lemma_structural_one(token_event(ts[0]));
                lemma_structural_one(token_event(ts[m]));
                lemma_structural_add(seq![token_event(ts[0])] + d + seq![token_event(ts[m])], token_events(rest));
                lemma_structural_add(seq![token_event(ts[0])] + d, seq![token_event(ts[m])]);
                lemma_structural_add(seq![token_event(ts[0])], d);
            },
            None => {
                let rest = ts.drop_first();
                lemma_body_structure(rest);
                let x = InlineV::Event(token_event(ts[0]));
                assert(body_of(ts) == seq![x] + body_of(rest));
                lemma_flat_add(seq![x], body_of(rest));
                lemma_flat_one(x);
                assert(ts =~= seq![ts[0]] + rest);
                lemma_token_events_add(seq![ts[0]], rest);
                assert(token_events(seq![ts[0]]) =~= seq![token_event(ts[0])]);
            },
        }
    }
}

/// Trimming line heads keeps the events of a body that are not text.
proof fn lemma_trim_heads_non_text(inls: Seq<InlineV>, at_head: bool)
    ensures
        non_text(flat_inlines(trim_heads(inls, at_head))) == non_text(flat_inlines(inls)),
    decreases inls.len(),
{
    if inls.len() > 0 {
        let rest = inls.drop_first();
        lemma_trim_heads_non_text(rest, false);
        lemma_trim_heads_non_text(rest, true);
        let x = inls[0];
        lemma_non_text_add(inline_events(x), flat_inlines(rest));
        match x {
            InlineV::Event(EventV::Text(s)) => {
                let t = trim_start_spec(s);
                let head: Seq<InlineV> = if at_head {
                    if t.len() > 0 { seq![InlineV::Event(EventV::Text(t))] } else { seq![] }
                } else {
                    seq![x]
                };
                let next = trim_heads(rest, false);
                assert(trim_heads(inls, at_head) == head + next);
                lemma_flat_add(head, next);
                lemma_non_text_add(flat_inlines(head), flat_inlines(next));
                lemma_non_text_one(EventV::Text(s));
                if head.len() == 1 {
                    assert(head.drop_first() == Seq::<InlineV>::empty());
                    assert(flat_inlines(head) == inline_events(head[0]) + flat_inlines(head.drop_first()));
                    lemma_non_text_one(head[0]->Event_0);
                }
            },
            _ => {
                let h2 = x matches InlineV::Event(EventV::SoftBreak);
                let next = trim_heads(rest, h2);
                assert(trim_heads(inls, at_head) == seq![x] + next);
                lemma_flat_add(seq![x], next);
                assert(seq![x].drop_first() == Seq::<InlineV>::empty());
                assert(flat_inlines(seq![x]) == inline_events(x) + flat_inlines(Seq::<InlineV>::empty()));
                assert(flat_inlines(seq![x]) =~= inline_events(x));
                lemma_non_text_add(inline_events(x), flat_inlines(next));
            },
        }
    }
}

/// Splitting out directions keeps the events of a line that are not text:
/// only the parentheses, which are text, go.
proof fn lemma_body_non_text(ts: Seq<TokenV>)
    ensures
        non_text(flat_inlines(body_of(ts))) == non_text(token_events(ts)),
    decreases ts.len(),
{
    if ts.len() > 0 {
        match direction_close(ts) {
            Some(m) => {
                lemma_match_close(ts, 1, 0);
                let sub = ts.subrange(1, m);
                let rest = ts.skip(m + 1);
                lemma_body_non_text(rest);
                let d = token_events(sub);
                assert(body_of(ts) == seq![InlineV::Direction(d)] + body_of(rest));
                lemma_flat_add(seq![InlineV::Direction(d)], body_of(rest));
                lemma_flat_one(InlineV::Direction(d));
                lemma_non_text_add(d, flat_inlines(body_of(rest)));
                assert(ts =~= seq![ts[0]] + sub + seq![ts[m]] + rest);
                lemma_token_events_add(seq![ts[0]] + sub + seq![ts[m]], rest);
                lemma_token_events_add(seq![ts[0]] + sub, seq![ts[m]]);
                lemma_token_events_add(seq![ts[0]], sub);
                assert(token_events(seq![ts[0]]) =~= seq![token_event(ts[0])]);
                assert(token_events(seq![ts[m]]) =~= seq![token_event(ts[m])]);
                lemma_non_text_one(token_event(ts[0]));
                lemma_non_text_one(token_event(ts[m]));
                lemma_non_text_add(seq![token_event(ts[0])] + d + seq![token_event(ts[m])], token_events(rest));
                lemma_non_text_add(seq![token_event(ts[0])] + d, seq![token_event(ts[m])]);
                lemma_non_text_add(seq![token_event(ts[0])], d);
            },
            None => {
                let rest = ts.drop_first();
                lemma_body_non_text(rest);
                let x = InlineV::Event(token_event(ts[0]));
                assert(body_of(ts) == seq![x] + body_of(rest));
                lemma_flat_add(seq![x], body_of(rest));
                lemma_flat_one(x);
                assert(ts =~= seq![ts[0]] + rest);
                lemma_token_events_add(seq![ts[0]], rest);
                assert(token_events(seq![ts[0]]) =~= seq![token_event(ts[0])]);
            },
        }
    }
}

/// Lexing a line keeps its events that are not text.
proof fn lemma_line_tokens_non_text(evs: Seq<Event>, nest: nat)
    ensures
        non_text(token_events(line_tokens_of(evs, nest))) == non_text(events_view(evs)),
    decreases evs.len(),
{
    if evs.len() == 0 {
        lemma_no_non_text(token_events(line_tokens_of(evs, nest)));
        lemma_no_non_text(events_view(evs));
    } else {
        let e = evs[0];
        let rest = evs.drop_first();
        let n2 = nest_after(e, nest);
        lemma_line_tokens_non_text(rest, n2);
        let head = event_tokens(e, nest);
        lemma_token_events_add(head, line_tokens_of(rest, n2));
        lemma_non_text_add(token_events(head), token_events(line_tokens_of(rest, n2)));
        assert(events_view(evs) =~= seq![e@] + events_view(rest));
        lemma_non_text_add(seq![e@], events_view(rest));
        lemma_non_text_one(e@);
        let he = token_events(head);
        if e is Text && nest == 0 {
            assert forall|i: int| 0 <= i < he.len() implies is_text(#[trigger] he[i]) by {
            }
            lemma_no_non_text(he);
        } else {
            assert(he =~= seq![e@]);
        }
    }
}

/// A parsed body keeps every event of its line that is not text, soft
/// breaks and inline markup included, unchanged and in order, whether it
/// lands in plain text or inside a direction.
pub proof fn lemma_parse_body_keeps_events(events: Seq<Event>)
    ensures
        non_text(flat_inlines(parse_body_spec(line_tokens_of(events, 0)))) == non_text(events_view(events)),
{
    let ts = line_tokens_of(events, 0);
    lemma_trim_heads_non_text(body_of(ts), true);
    lemma_body_non_text(ts);
    lemma_line_tokens_non_text(events, 0);
}

/// The event that a token stands for.
pub fn token_to_event(t: Token) -> (r: Event)
    ensures
        r@ == token_event(t@),
{
    match t {
        Token::Event(e) => e,
        Token::Text(TextToken::PlainText(s)) => Event::Text(s),
        Token::Text(TextToken::Rangle) => Event::Text(repeat_char('>', 1)),
        Token::Text(TextToken::RangleRun(n)) => Event::Text(repeat_char('>', n)),
        Token::Text(TextToken::LeftParen) => Event::Text(repeat_char('(', 1)),
        Token::Text(TextToken::LeftParenRun(n)) => Event::Text(repeat_char('(', n)),
        Token::Text(TextToken::RightParen) => Event::Text(repeat_char(')', 1)),
        Token::Text(TextToken::RightParenRun(n)) => Event::Text(repeat_char(')', n)),
    }
}

/// The events of a line that carries no speech: each token stands for
/// itself, punctuation as literal text.
pub fn events_of_tokens(line: VecDeque<Token>) -> (r: Vec<Event>)
    ensures
        events_view(r@) == token_events(tokens_view(line@)),
{
    let mut d = line;
    let ghost ts = tokens_view(d@);
    let n = d.len();
    let mut out: Vec<Event> = Vec::new();
    let mut k: usize = 0;
    while d.len() > 0
        invariant
            ts.len() == n,
            k <= ts.len(),
            d@.len() == ts.len() - k,
            tokens_view(d@) == ts.skip(k as int),
            events_view(out@) == token_events(ts.take(k as int)),
        decreases d@.len(),
    {
        let t = d.pop_front().unwrap();
        proof {
            assert(ts.skip(k as int)[0] == ts[k as int]);
            assert(ts.skip(k as int).drop_first() == ts.skip(k + 1));
        }
        out.push(token_to_event(t));
        proof {
            assert(ts.take(k + 1) == ts.take(k as int).push(ts[k as int]));
            assert(token_events(ts.take(k + 1)) == token_events(ts.take(k as int)).push(token_event(ts[k as int])));
            assert(events_view(out@) =~= token_events(ts.take(k + 1)));
        }
        k = k + 1;
    }
    assert(ts.take(k as int) == ts);
    out
}

/// The same items, in a queue.
pub fn into_deque<T>(v: Vec<T>) -> (r: VecDeque<T>)
    ensures
        r@ == v@,
{
    let mut v = v;
    let ghost all = v@;
    let mut d: VecDeque<T> = VecDeque::new();
    while v.len() > 0
        invariant
            v@ + d@ == all,
        decreases v@.len(),
    {
        let x = v.pop().unwrap();
        d.push_front(x);
        assert(v@ + d@ =~= all);
    }
    assert(d@ =~= all);
    d
}

/// Where the direction opened by the `(` at the front of `d` closes.
fn find_close(d: &VecDeque<Token>) -> (r: Option<usize>)
    ensures
        r == match direction_close(tokens_view(d@)) {
            Some(m) => Some(m as usize),
            None => None::<usize>,
        },
        match r {
            Some(m) => 1 <= m < d@.len(),
            None => true,
        },
{
    let ghost ts = tokens_view(d@);
    let n = d.len();
    if n == 0 || !is_single_at(d, 0, '(') {
        return None;
    }
    proof {
        lemma_match_close(ts, 1, 0);
    }
    let mut j: usize = 1;
    let mut depth: usize = 0;
    while j < n
        invariant
            n == d@.len(),
            ts == tokens_view(d@),
            1 <= j <= n,
            ts.len() > 0,
            is_single(ts[0], '('),
            depth < j,
            match_close(ts, 1, 0) == match_close(ts, j as int, depth as nat),
        decreases n - j,
    {
        if is_single_at(d, j, ')') {
            if depth == 0 {
                assert(match_close(ts, j as int, 0) == Some(j as int));
                assert(direction_close(ts) == Some(j as int));
                return Some(j);
            }
            depth = depth - 1;
        } else if is_single_at(d, j, '(') {
            depth = depth + 1;
        }
        j = j + 1;
    }
    None
}

/// The inline content of a body's tokens.
fn body_of_tokens(line: VecDeque<Token>) -> (r: Vec<Inline>)
    ensures
        inlines_view(r@) == body_of(tokens_view(line@)),
{
    let mut d = line;
    let ghost all = tokens_view(d@);
    let mut out: Vec<Inline> = Vec::new();
    while d.len() > 0
        invariant
            inlines_view(out@) + body_of(tokens_view(d@)) == body_of(all),
        decreases d@.len(),
    {
        let ghost ts = tokens_view(d@);
        let ghost before = inlines_view(out@);
        match find_close(&d) {
            Some(m) => {
                proof {
                    lemma_match_close(ts, 1, 0);
                    assert(direction_close(ts) == Some(m as int));
                }
                let _open = d.pop_front();
                proof {
                    assert(ts.skip(1) == tokens_view(d@));
                    assert(token_events(ts.subrange(1, 1)) =~= Seq::<EventV>::empty());
                }
                let mut dir: Vec<Event> = Vec::new();
                let mut k: usize = 1;
                while k < m
                    invariant
                        1 <= k <= m,
                        m < ts.len(),
                        tokens_view(d@) == ts.skip(k as int),
                        events_view(dir@) == token_events(ts.subrange(1, k as int)),
                    decreases m - k,
                {
                    let t = d.pop_front().unwrap();
                    proof {
                        assert(ts.skip(k as int)[0] == ts[k as int]);
                        assert(ts.skip(k as int).drop_first() == ts.skip(k + 1));
                    }
                    let ghost dir_before = dir@;
                    let e = token_to_event(t);
                    dir.push(e);
                    proof {
                        assert(ts.subrange(1, k + 1) == ts.subrange(1, k as int).push(ts[k as int]));
                        assert(dir@ == dir_before.push(e));
                        assert(events_view(dir@) =~= events_view(dir_before).push(e@));
                        assert(token_events(ts.subrange(1, k + 1)) =~= token_events(ts.subrange(1, k as int)).push(token_event(ts[k as int])));
                    }
                    k = k + 1;
                }
                let ghost d_before = d@;
                let _close = d.pop_front();
                proof {
                    assert(d@ == d_before.drop_first());
                    assert(tokens_view(d@) =~= tokens_view(d_before).drop_first());
                    assert(ts.skip(m as int).drop_first() =~= ts.skip(m + 1));
                    assert(tokens_view(d@) == ts.skip(m + 1));
                }
                out.push(Inline::Direction(Direction(dir)));
                proof {
                    assert(body_of(ts) == seq![InlineV::Direction(token_events(ts.subrange(1, m as int)))] + body_of(ts.skip(m + 1)));
                    assert(inlines_view(out@) == before.push(InlineV::Direction(token_events(ts.subrange(1, m as int)))));
                    assert(inlines_view(out@) + body_of(tokens_view(d@)) =~= before + body_of(ts));
                }
            },
            None => {
                let t = d.pop_front().unwrap();
                proof {
                    assert(ts.drop_first() == tokens_view(d@));
                }
                out.push(Inline::Event(token_to_event(t)));
                proof {
                    assert(body_of(ts) == seq![InlineV::Event(token_event(ts[0]))] + body_of(ts.drop_first()));
                    assert(inlines_view(out@) == before.push(InlineV::Event(token_event(ts[0]))));
                    assert(inlines_view(out@) + body_of(tokens_view(d@)) =~= before + body_of(ts));
                }
            },
        }
    }
    assert(inlines_view(out@) + body_of(tokens_view(d@)) == inlines_view(out@));
    out
}

/// Trims the whitespace at the head of each line of a body: the first text
/// of the body and the first text after each soft break lose their leading
/// whitespace, and are dropped if nothing is left of them.
pub fn trim_start_of_line_head(body: Vec<Inline>) -> (r: Vec<Inline>)
    ensures
        inlines_view(r@) == trim_heads(inlines_view(body@), true),
{
    let mut d = into_deque(body);
    let ghost all = inlines_view(d@);
    let mut ret: Vec<Inline> = Vec::new();
    let mut is_line_head = true;
    while d.len() > 0
        invariant
            inlines_view(ret@) + trim_heads(inlines_view(d@), is_line_head) == trim_heads(all, true),
        decreases d@.len(),
    {
        let ghost xs = inlines_view(d@);
        let ghost before = inlines_view(ret@);
        let ghost head = is_line_head;
        let inline = d.pop_front().unwrap();
        proof {
            assert(xs.drop_first() == inlines_view(d@));
            assert(xs[0] == inline@);
        }
        match inline {
            Inline::Event(Event::Text(s)) => {
                if is_line_head {
                    let trimmed = trim_start_string(s.as_str());
                    if trimmed.as_str().unicode_len() > 0 {
                        ret.push(Inline::Event(Event::Text(trimmed)));
                        assert(inlines_view(ret@) =~= before + seq![InlineV::Event(EventV::Text(trim_start_spec(s@)))]);
                    } else {
                        assert(inlines_view(ret@) =~= before + Seq::<InlineV>::empty());
                    }
                } else {
                    ret.push(Inline::Event(Event::Text(s)));
                    assert(inlines_view(ret@) =~= before + seq![xs[0]]);
                }
                is_line_head = false;
            },
            Inline::Event(Event::SoftBreak) => {
                ret.push(Inline::Event(Event::SoftBreak));
                assert(inlines_view(ret@) =~= before + seq![xs[0]]);
                is_line_head = true;
            },
            other => {
                ret.push(other);
                assert(inlines_view(ret@) =~= before + seq![xs[0]]);
                is_line_head = false;
            },
        }
        proof {
            assert(inlines_view(ret@) + trim_heads(inlines_view(d@), is_line_head) =~= before + trim_heads(xs, head));
        }
    }
    assert(inlines_view(ret@) + trim_heads(inlines_view(d@), is_line_head) == inlines_view(ret@));
    ret
}

/// The body of a line's tokens: directions split out, line heads trimmed.
pub fn parse_body_tokens(line: VecDeque<Token>) -> (r: Vec<Inline>)
    ensures
        inlines_view(r@) == parse_body_spec(tokens_view(line@)),
{
    trim_start_of_line_head(body_of_tokens(line))
}

/// The tokens of a line of events: text outside inline markup is lexed,
/// every other event is kept as it is.
pub fn line_tokens(events: Vec<Event>) -> (r: VecDeque<Token>)
    ensures
        tokens_view(r@) == line_tokens_of(events@, 0),
{
    let mut d = into_deque(events);
    let ghost all = d@;
    let mut nest: usize = 0;
    let mut out: VecDeque<Token> = VecDeque::new();
    assert(tokens_view(out@) =~= Seq::<TokenV>::empty());
    while d.len() > 0
        invariant
            tokens_view(out@) + line_tokens_of(d@, nest as nat) == line_tokens_of(all, 0),
        decreases d@.len(),
    {
        let ghost rest0 = d@;
        let ghost before = tokens_view(out@);
        let ghost n0 = nest as nat;
        let e = d.pop_front().unwrap();
        let ghost ge = e;
        proof {
            assert(rest0[0] == ge);
            assert(d@ == rest0.drop_first());
        }
        match e {
            Event::Start(t) => {
                if nest < usize::MAX {
                    nest = nest + 1;
                }
                out.push_back(Token::Event(Event::Start(t)));
                assert(tokens_view(out@) =~= before + event_tokens(ge, n0));
            },
            Event::End(t) => {
                if nest > 0 {
                    nest = nest - 1;
                }
                out.push_back(Token::Event(Event::End(t)));
                assert(tokens_view(out@) =~= before + event_tokens(ge, n0));
            },
            Event::Text(s) => {
                if nest > 0 {
                    out.push_back(Token::Event(Event::Text(s)));
                    assert(tokens_view(out@) =~= before + event_tokens(ge, n0));
                } else {
                    let toks = lex(s.as_str());
                    let mut i: usize = 0;
                    while i < toks.len()
                        invariant
                            i <= toks@.len(),
                            tokens_view(out@) == before + crate::parser::as_tokens(text_tokens_view(toks@).take(i as int)),
                        decreases toks@.len() - i,
                    {
                        let ghost o = out@;
                        let tok = Token::Text(copy_text_token(&toks[i]));
                        out.push_back(tok);
                        proof {
                            assert(out@ == o.push(tok));
                            assert(tokens_view(out@) =~= tokens_view(o).push(tok@));
                            assert(crate::parser::as_tokens(text_tokens_view(toks@).take(i + 1))
                                =~= crate::parser::as_tokens(text_tokens_view(toks@).take(i as int)).push(TokenV::Text(toks@[i as int]@)));
                            assert(tokens_view(out@) =~= before + crate::parser::as_tokens(text_tokens_view(toks@).take(i + 1)));
                        }
                        i = i + 1;
                    }
                    assert(text_tokens_view(toks@).take(toks@.len() as int) == text_tokens_view(toks@));
                    assert(tokens_view(out@) == before + event_tokens(ge, n0));
                }
            },
            other => {
                out.push_back(Token::Event(other));
                assert(tokens_view(out@) =~= before + event_tokens(ge, n0));
            },
        }
        proof {
            assert(nest as nat == nest_after(ge, n0));
            assert(line_tokens_of(rest0, n0) == event_tokens(ge, n0) + line_tokens_of(d@, nest as nat));
            assert(tokens_view(out@) + line_tokens_of(d@, nest as nat) =~= before + line_tokens_of(rest0, n0));
        }
    }
    assert(tokens_view(out@) + line_tokens_of(d@, nest as nat) =~= tokens_view(out@));
    out
}

/// The body of a line of events: text and stage directions, each `(` with
/// a matching `)` enclosing a direction.
pub fn parse_body(events: Vec<Event>) -> (r: Vec<Inline>)
    ensures
        inlines_view(r@) == parse_body_spec(line_tokens_of(events@, 0)),
{
    parse_body_tokens(line_tokens(events))
}

/// The index of the first `c` in `s`, or the length of `s` if there is none.
pub open spec fn index_of(s: Seq<char>, c: char) -> int
    decreases s.len(),
{
    if s.len() == 0 || s[0] == c {
        0
    } else {
        1 + index_of(s.drop_first(), c)
    }
}

proof fn lemma_index_of_is(s: Seq<char>, c: char, k: int)
    requires
        0 <= k <= s.len(),
        forall|j: int| 0 <= j < k ==> s[j] != c,
        k == s.len() || s[k] == c,
    ensures
        index_of(s, c) == k,
    decreases k,
{
    if k > 0 {
        assert forall|j: int| 0 <= j < k - 1 implies s.drop_first()[j] != c by {
            assert(s.drop_first()[j] == s[j + 1]);
        }
        lemma_index_of_is(s.drop_first(), c, k - 1);
    }
}

/// The heading written as `Character` or `Character (direction)`: both
/// trimmed; the direction ends at the first `)` or at the end.
pub open spec fn heading_of_str(s: Seq<char>) -> HeadingV {
    let p = index_of(s, '(');
    if p == s.len() {
        HeadingV { character: trim_spec(s), direction: seq![] }
    } else {
        let rest = s.skip(p + 1);
        let q = index_of(rest, ')');
        HeadingV {
            character: trim_spec(s.take(p)),
            direction: seq![EventV::Text(trim_spec(rest.take(q)))],
        }
    }
}

/// Where the first `c` of `s` stands, or the length of `s`.
fn index_of_char(s: &str, c: &str) -> (r: usize)
    requires
        c@.len() == 1,
    ensures
        r == index_of(s@, c@[0]),
{
    let n = s.unicode_len();
    match find_one_of(s, c) {
        Some((i, _)) => {
            proof {
                assert forall|j: int| 0 <= j < i implies s@[j] != c@[0] by {
                    if s@[j] == c@[0] {
                        assert(c@.contains(s@[j]));
                    }
                }
                lemma_index_of_is(s@, c@[0], i as int);
            }
            i
        },
        None => {
            proof {
                assert forall|j: int| 0 <= j < n implies s@[j] != c@[0] by {
                    if s@[j] == c@[0] {
                        assert(c@.contains(s@[j]));
                    }
                }
                lemma_index_of_is(s@, c@[0], n as int);
            }
            n
        },
    }
}

/// Parses a heading written as `Character` or `Character (direction)`.
pub fn parse_heading(s: &str) -> (r: Heading)
    ensures
        r@ == heading_of_str(s@),
{
    let open = "(";
    let close = ")";
    proof {
        reveal_strlit("(");
        reveal_strlit(")");
    }
    let n = s.unicode_len();
    let p = index_of_char(s, open);
    proof {
        lemma_index_of_bound(s@, '(');
    }
    if p == n {
        let character = trim_string(s);
        let r = Heading { character, direction: Direction::new() };
        assert(r@.direction =~= Seq::<EventV>::empty());
        return r;
    }
    let character = trim_string(s.substring_char(0, p));
    let rest = s.substring_char(p + 1, n);
    let q = index_of_char(rest, close);
    proof {
        lemma_index_of_bound(rest@, ')');
    }
    let inner = trim_string(rest.substring_char(0, q));
    let mut direction = Direction::new();
    direction.push_string(inner);
    let r = Heading { character, direction };
    assert(r@.direction =~= seq![EventV::Text(trim_spec(rest@.take(q as int)))]);
    r
}

proof fn lemma_index_of_bound(s: Seq<char>, c: char)
    ensures
        0 <= index_of(s, c) <= s.len(),
    decreases s.len(),
{
    if s.len() > 0 && s[0] != c {
        lemma_index_of_bound(s.drop_first(), c);
    }
}

fn take_plain(t: Token) -> (r: String)
    requires
        crate::parser::is_plain_tok(t@),
    ensures
        r@ == plain_text(t@),
{
    match t {
        Token::Text(TextToken::PlainText(s)) => s,
        _ => String::new(),
    }
}

/// The speech of a line that starts with a heading; the line itself
/// otherwise.
pub fn speech_of_line(line: VecDeque<Token>) -> (r: Result<Speech, VecDeque<Token>>)
    ensures
        match r {
            Ok(sp) => speech_of_tokens(tokens_view(line@)) == Some(sp@),
            Err(l) => speech_of_tokens(tokens_view(line@)) is None && l@ == line@,
        },
{
    let ghost ts = tokens_view(line@);
    if !is_heading_at(&line, 0) {
        return Err(line);
    }
    let directed = !is_single_at(&line, 1, '>');
    let mut d = line;
    let name_tok = d.pop_front().unwrap();
    let name = take_plain(name_tok);
    let character = trim_string(name.as_str());
    let mut direction = Direction::new();
    if directed {
        let _open = d.pop_front();
        let dir_tok = d.pop_front().unwrap();
        let dir = take_plain(dir_tok);
        let _close = d.pop_front();
        direction.push_string(trim_string(dir.as_str()));
    }
    let _rangle = d.pop_front();
    let ghost w: int = if directed { 5 } else { 2 };
    proof {
        assert(tokens_view(d@) =~= ts.skip(w));
    }
    let body = parse_body_tokens(d);
    let sp = Speech { heading: Heading { character, direction }, body };
    proof {
        if directed {
            assert(sp@.heading.direction =~= seq![EventV::Text(trim_spec(plain_text(ts[2])))]);
        } else {
            assert(sp@.heading.direction =~= Seq::<EventV>::empty());
        }
    }
    Ok(sp)
}

/// The speech of a line of events, or `None` when the line does not start
/// with a heading.
pub fn parse_speech(events: Vec<Event>) -> (r: Option<Speech>)
    ensures
        speech_view(r) == speech_of_tokens(line_tokens_of(events@, 0)),
{
    match speech_of_line(line_tokens(events)) {
        Ok(sp) => Some(sp),
        Err(_) => None,
    }
}

} // verus!
