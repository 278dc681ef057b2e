//! The engine: directives, rendering modes, and the dispatch of each
//! paragraph through the segmenter, the parser and the renderer.
use vstd::prelude::*;
use std::collections::VecDeque;
use crate::event::{
    append_events, events_view, is_structural, lemma_no_structure, lemma_structural_add, lemma_structural_one,
    push_event, structural, Event, EventV, Tag,
};
use crate::parser::{
    directed_heading_at, heading_at, lemma_line_end, lemma_para_len_bound, lemma_para_split, lemma_para_structure,
    line_end, simple_heading_at, lemma_plain_tokens, lemma_single_line, lines_of, nest_of,
    para_len, para_tokens, plain_events, FuseOnParagraphEnd, Speeches,
};
use crate::renderer::{
    direction_html, heading_html, lemma_body_html_structure, lemma_direction_structure,
    lemma_replace_inlines_structure, body_html, counter_next, opt_view, replace_softbreak_events, replace_softbreaks_spec, speech_html, HtmlRenderer,
};
use crate::speech::{
    body_of, events_of_tokens, flat_inlines, heading_of_tokens, into_deque, lemma_body_structure,
    lemma_token_events_add, lemma_trim_heads_structure, parse_body_spec, parse_body_tokens, speech_of_line,
    speech_of_tokens, token_events, HeadingV, SpeechV,
};
use crate::text::{chars_of, trim_spec, trim_string};
use crate::token::{tokens_view, Token, TokenV};

verus! {

broadcast use vstd::std_specs::vecdeque::group_vec_dequeue_axioms;

/// How paragraphs are rendered.
#[derive(Clone, Copy, Debug, PartialEq, Eq)]
pub enum Mode {
    /// Paragraphs pass through unchanged.
    Nop,
    /// Paragraphs are read as dialogue.
    PlayScript,
    /// Paragraphs are read as one speech without headings.
    Monologue,
}

impl Mode {
    pub fn is_off(&self) -> (r: bool)
        ensures
            r == (*self is Nop),
    {
        match self {
            Mode::Nop => true,
            _ => false,
        }
    }

    pub fn is_monologue(&self) -> (r: bool)
        ensures
            r == (*self is Monologue),
    {
        match self {
            Mode::Monologue => true,
            _ => false,
        }
    }
}

#[derive(Clone, Debug)]
pub struct Options {
    replace_softbreaks_with: Option<String>,
    disabled_in_default: bool,
}

impl Options {
    pub closed spec fn softbreak_text(&self) -> Option<Seq<char>> {
        opt_view(self.replace_softbreaks_with)
    }

    pub closed spec fn disabled(&self) -> bool {
        self.disabled_in_default
    }

    /// Options for Japanese text: soft breaks vanish.
    pub fn default_ja() -> (r: Self)
        ensures
            r.softbreak_text() == Some(""@),
            !r.disabled(),
    {
        Options { replace_softbreaks_with: Some("".to_owned()), disabled_in_default: false }
    }
}

impl Default for Options {
    /// Soft breaks become a space; the dialect is on.
    fn default() -> (r: Self)
        ensures
            r.softbreak_text() == Some(" "@),
            !r.disabled(),
    {
        Options { replace_softbreaks_with: Some(" ".to_owned()), disabled_in_default: false }
    }
}

/// Document metadata for the title directives.
#[derive(Clone, Debug)]
pub struct Params {
    pub title: Option<String>,
    pub subtitle: Option<String>,
    pub authors: Vec<String>,
}

impl Default for Params {
    fn default() -> (r: Self)
        ensures
            r.title is None,
            r.subtitle is None,
            r.authors@.len() == 0,
    {
        Params { title: None, subtitle: None, authors: Vec::new() }
    }
}

/// A recognized directive comment.
#[derive(Clone, Copy, Debug, PartialEq, Eq)]
pub enum Directive {
    MonologueBegin,
    MonologueEnd,
    PlayScriptOn,
    PlayScriptOff,
    Title,
    SubTitle,
    Authors,
    MakeTitle,
}

/// The directive that the name `n` stands for.
pub open spec fn directive_named(n: Seq<char>) -> Option<Directive> {
    if n == "playscript-monologue-begin"@ {
        Some(Directive::MonologueBegin)
    } else if n == "playscript-monologue-end"@ {
        Some(Directive::MonologueEnd)
    } else if n == "playscript-on"@ {
        Some(Directive::PlayScriptOn)
    } else if n == "playscript-off"@ {
        Some(Directive::PlayScriptOff)
    } else if n == "playscript-title"@ {
        Some(Directive::Title)
    } else if n == "playscript-subtitle"@ {
        Some(Directive::SubTitle)
    } else if n == "playscript-authors"@ {
        Some(Directive::Authors)
    } else if n == "playscript-make-title"@ {
        Some(Directive::MakeTitle)
    } else {
        None
    }
}

/// The directive of an HTML fragment: once trimmed it must be a comment
/// `<!-- name -->`, whose trimmed content is a directive name.
pub open spec fn directive_of(s: Seq<char>) -> Option<Directive> {
    let t = trim_spec(s);
    if t.len() >= 7 && t.take(4) == "<!--"@ && t.skip(t.len() - 3) == "-->"@ {
        directive_named(trim_spec(t.subrange(4, t.len() - 3)))
    } else {
        None
    }
}

fn same_string(a: &String, b: &str) -> (r: bool)
    ensures
        r == (a@ == b@),
{
    let b = b.to_owned();
    *a == b
}

/// Recognizes a directive comment.
pub fn parse_directive(s: &str) -> (r: Option<Directive>)
    ensures
        r == directive_of(s@),
{
    let t = trim_string(s);
    let cs = chars_of(t.as_str());
    let n = cs.len();
    proof {
        reveal_strlit("<!--");
        reveal_strlit("-->");
    }
    if n < 7 {
        return None;
    }
    if !(cs[0] == '<' && cs[1] == '!' && cs[2] == '-' && cs[3] == '-') {
        proof {
            if t@.take(4) == "<!--"@ {
                assert(t@.take(4)[0] == '<' && t@.take(4)[1] == '!' && t@.take(4)[2] == '-' && t@.take(4)[3] == '-');
            }
        }
        return None;
    }
    if !(cs[n - 3] == '-' && cs[n - 2] == '-' && cs[n - 1] == '>') {
        proof {
            if t@.skip(n - 3) == "-->"@ {
                assert(t@.skip(n - 3)[0] == '-' && t@.skip(n - 3)[1] == '-' && t@.skip(n - 3)[2] == '>');
            }
        }
        return None;
    }
    assert(t@.take(4) =~= "<!--"@);
    assert(t@.skip(n - 3) =~= "-->"@);
    let inner = trim_string(t.as_str().substring_char(4, n - 3));
    proof {
        reveal_strlit("playscript-monologue-begin");
        reveal_strlit("playscript-monologue-end");
        reveal_strlit("playscript-on");
        reveal_strlit("playscript-off");
        reveal_strlit("playscript-title");
        reveal_strlit("playscript-subtitle");
        reveal_strlit("playscript-authors");
        reveal_strlit("playscript-make-title");
    }
    if same_string(&inner, "playscript-monologue-begin") {
        Some(Directive::MonologueBegin)
    } else if same_string(&inner, "playscript-monologue-end") {
        Some(Directive::MonologueEnd)
    } else if same_string(&inner, "playscript-on") {
        Some(Directive::PlayScriptOn)
    } else if same_string(&inner, "playscript-off") {
        Some(Directive::PlayScriptOff)
    } else if same_string(&inner, "playscript-title") {
        Some(Directive::Title)
    } else if same_string(&inner, "playscript-subtitle") {
        Some(Directive::SubTitle)
    } else if same_string(&inner, "playscript-authors") {
        Some(Directive::Authors)
    } else if same_string(&inner, "playscript-make-title") {
        Some(Directive::MakeTitle)
    } else {
        None
    }
}

/// The mode after directive `d`.
pub open spec fn mode_after(d: Option<Directive>, m: Mode) -> Mode {
    match d {
        Some(Directive::MonologueBegin) => Mode::Monologue,
        Some(Directive::MonologueEnd) => Mode::PlayScript,
        Some(Directive::PlayScriptOn) => Mode::PlayScript,
        Some(Directive::PlayScriptOff) => Mode::Nop,
        _ => m,
    }
}

pub open spec fn titled(open: Seq<char>, t: Option<String>, close: Seq<char>) -> Seq<EventV> {
    match t {
        Some(x) => seq![EventV::Html(open), EventV::Text(x@), EventV::Html(close)],
        None => seq![],
    }
}

/// One paragraph per author, in order.
pub open spec fn author_items(authors: Seq<String>) -> Seq<EventV>
    decreases authors.len(),
{
    if authors.len() == 0 {
        seq![]
    } else {
        author_items(authors.drop_last()) + seq![
            EventV::Html("<p class=\"cover-author\">"@),
            EventV::Text(authors.last()@),
            EventV::Html("</p>"@),
        ]
    }
}

pub open spec fn authors_html(authors: Seq<String>) -> Seq<EventV> {
    if authors.len() == 0 {
        seq![]
    } else {
        seq![EventV::Html("<div class=\"authors\">"@)] + author_items(authors) + seq![EventV::Html("</div>"@)]
    }
}

/// What the engine needs besides its state: the renderer's classes and
/// soft-break text, the metadata, and the title block.
pub struct EngineConfig {
    pub renderer: HtmlRenderer,
    pub params: Params,
    pub title_block: Option<String>,
}

/// The fragments that directive `d` adds before the comment itself.
pub open spec fn directive_html(d: Option<Directive>, cfg: EngineConfig) -> Seq<EventV> {
    match d {
        Some(Directive::Title) => titled("<h1 class=\"cover-title\">"@, cfg.params.title, "</h1>"@),
        Some(Directive::SubTitle) => titled("<h2 class=\"cover-title\">"@, cfg.params.subtitle, "</h2>"@),
        Some(Directive::Authors) => authors_html(cfg.params.authors@),
        Some(Directive::MakeTitle) => match cfg.title_block {
            Some(b) => seq![EventV::Html(b@)],
            None => seq![],
        },
        _ => seq![],
    }
}

/// One line of a paragraph rendered in mode `mode`, and the heading
/// counter after it. In a monologue the whole line is a body; otherwise a
/// line with a heading is a speech, and any other line a plain paragraph
/// that keeps its events one for one, soft breaks included.
pub open spec fn line_html(line: Seq<TokenV>, mode: Mode, counter: usize, r: HtmlRenderer) -> (Seq<EventV>, usize) {
    let rep = opt_view(r.replace_softbreak);
    if mode is Monologue {
        (seq![EventV::Html("<div class=\"speech\">"@)] + body_html(
            replace_softbreaks_spec(parse_body_spec(line), rep),
            r.direction_class@,
        ) + seq![EventV::Html("</div>"@)], counter)
    } else {
        match speech_of_tokens(line) {
            Some(sp) => (speech_html(sp, counter as nat, r) + seq![EventV::SoftBreak], counter_next(counter)),
            None => (seq![EventV::Start(Tag::Paragraph)] + token_events(line)
                + seq![EventV::End(Tag::Paragraph)], counter),
        }
    }
}

pub open spec fn lines_html(lines: Seq<Seq<TokenV>>, mode: Mode, counter: usize, r: HtmlRenderer) -> (Seq<EventV>, usize)
    decreases lines.len(),
{
    if lines.len() == 0 {
        (seq![], counter)
    } else {
        let first = line_html(lines[0], mode, counter, r);
        let rest = lines_html(lines.drop_first(), mode, first.1, r);
        (first.0 + rest.0, rest.1)
    }
}

/// Everything the engine emits for the upstream events `evs`, from mode
/// `mode` and heading counter `counter`.
pub open spec fn run(evs: Seq<Event>, mode: Mode, counter: usize, cfg: EngineConfig) -> Seq<EventV>
    decreases evs.len()
    via run_decreases
{
    if evs.len() == 0 {
        seq![]
    } else {
        let rest = evs.drop_first();
        match evs[0] {
            Event::Html(s) => {
                let d = directive_of(s@);
                directive_html(d, cfg) + seq![evs[0]@] + run(rest, mode_after(d, mode), counter, cfg)
            },
            Event::Start(Tag::Paragraph) => if mode is Nop {
                seq![evs[0]@] + run(rest, mode, counter, cfg)
            } else {
                let out = lines_html(lines_of(para_tokens(rest, 0)), mode, counter, cfg.renderer);
                out.0 + run(rest.skip(para_len(rest, 0) as int), mode, out.1, cfg)
            },
            _ => seq![evs[0]@] + run(rest, mode, counter, cfg),
        }
    }
}

#[via_fn]
proof fn run_decreases(evs: Seq<Event>, mode: Mode, counter: usize, cfg: EngineConfig) {
    if evs.len() > 0 {
        lemma_para_len_bound(evs.drop_first(), 0);
    }
}

/// A paragraph whose texts are non-empty and hold none of `>`, `(` and
/// `)`, and whose inline tags are balanced, passes through the dialogue
/// mode unchanged, whatever the options: the engine emits exactly the
/// paragraph's own events, then what the following events give.
pub proof fn lemma_plain_paragraph_passes_through(
    body: Seq<Event>,
    rest: Seq<Event>,
    counter: usize,
    cfg: EngineConfig,
)
    requires
        body.len() > 0,
        plain_events(body),
        nest_of(body, 0) == 0,
    ensures
        run(
            seq![Event::Start(Tag::Paragraph)] + body + seq![Event::End(Tag::Paragraph)] + rest,
            Mode::PlayScript,
            counter,
            cfg,
        ) == seq![EventV::Start(Tag::Paragraph)] + events_view(body) + seq![EventV::End(Tag::Paragraph)]
            + run(rest, Mode::PlayScript, counter, cfg),
{
    let evs = seq![Event::Start(Tag::Paragraph)] + body + seq![Event::End(Tag::Paragraph)] + rest;
    let tail = seq![Event::End(Tag::Paragraph)] + rest;
    assert(evs[0] == Event::Start(Tag::Paragraph));
    assert(evs.drop_first() =~= body + tail);
    lemma_para_split(body, tail, 0);
    assert(tail[0] == Event::End(Tag::Paragraph));
    assert(para_tokens(tail, 0) == Seq::<TokenV>::empty());
    assert(para_len(tail, 0) == 1);
    let p = para_tokens(body, 0);
    assert(para_tokens(body + tail, 0) == p);
    lemma_plain_tokens(body, 0);
    lemma_single_line(p, 0);
    assert(p.take(p.len() as int) == p);
    assert(p.skip(p.len() as int).len() == 0);
    assert(lines_of(p.skip(p.len() as int)) == Seq::<Seq<TokenV>>::empty());
    assert(lines_of(p) == seq![p]);
    assert(!heading_at(p, 0)) by {
        if p.len() >= 2 {
            assert(crate::parser::no_punct(p[1int]));
        }
    }
    assert(speech_of_tokens(p) is None);
    assert(token_events(p) =~= events_view(body));
    let line = line_html(p, Mode::PlayScript, counter, cfg.renderer);
    assert(line.0 == seq![EventV::Start(Tag::Paragraph)] + events_view(body) + seq![EventV::End(Tag::Paragraph)]);
    assert(line.1 == counter);
    assert(seq![p].drop_first() == Seq::<Seq<TokenV>>::empty());
    let all = lines_html(seq![p], Mode::PlayScript, counter, cfg.renderer);
    assert(lines_html(seq![p].drop_first(), Mode::PlayScript, line.1, cfg.renderer).0 == Seq::<EventV>::empty());
    assert(lines_html(seq![p].drop_first(), Mode::PlayScript, line.1, cfg.renderer).1 == counter);
    assert(all.0 =~= line.0);
    assert(all.1 == counter);
    assert((body + tail).skip((body.len() + 1) as int) =~= rest);
    assert(lines_of(para_tokens(evs.drop_first(), 0)) == seq![p]);
    assert(para_len(evs.drop_first(), 0) == body.len() + 1);
    assert(evs.drop_first().skip(para_len(evs.drop_first(), 0) as int) == rest);
    assert(run(evs, Mode::PlayScript, counter, cfg) == all.0 + run(rest, Mode::PlayScript, all.1, cfg));
}

proof fn lemma_author_items_plain(a: Seq<String>)
    ensures
        forall|i: int| 0 <= i < author_items(a).len() ==> !is_structural(#[trigger] author_items(a)[i]),
    decreases a.len(),
{
    if a.len() > 0 {
        lemma_author_items_plain(a.drop_last());
        let prev = author_items(a.drop_last());
        assert forall|i: int| 0 <= i < author_items(a).len() implies !is_structural(#[trigger] author_items(a)[i]) by {
            if i < prev.len() {
                assert(author_items(a)[i] == prev[i]);
            }
        }
    }
}

proof fn lemma_directive_structure(d: Option<Directive>, cfg: EngineConfig)
    ensures
        structural(directive_html(d, cfg)) == Seq::<EventV>::empty(),
{
    lemma_author_items_plain(cfg.params.authors@);
    let h = directive_html(d, cfg);
    assert forall|i: int| 0 <= i < h.len() implies !is_structural(#[trigger] h[i]) by {
        if d matches Some(Directive::Authors) && cfg.params.authors@.len() > 0 {
            let items = author_items(cfg.params.authors@);
            if 1 <= i < 1 + items.len() {
                assert(h[i] == items[i - 1]);
            }
        }
    }
    lemma_no_structure(h);
}

proof fn lemma_text_tokens_plain(ts: Seq<TokenV>)
    requires
        forall|i: int| 0 <= i < ts.len() ==> (#[trigger] ts[i]) is Text,
    ensures
        structural(token_events(ts)) == Seq::<EventV>::empty(),
{
    let e = token_events(ts);
    assert forall|i: int| 0 <= i < e.len() implies !is_structural(#[trigger] e[i]) by {
        assert(ts[i] is Text);
    }
    lemma_no_structure(e);
}

#[verifier::spinoff_prover]
proof fn lemma_monologue_line_structure(line: Seq<TokenV>, counter: usize, r: HtmlRenderer)
    ensures
        structural(line_html(line, Mode::Monologue, counter, r).0) == structural(token_events(line)),
{
    let rep = opt_view(r.replace_softbreak);
    let cls = r.direction_class@;
    let b = replace_softbreaks_spec(parse_body_spec(line), rep);
    lemma_body_html_structure(b, cls);
    lemma_replace_inlines_structure(parse_body_spec(line), rep);
    lemma_trim_heads_structure(body_of(line), true);
    lemma_body_structure(line);
    let open = seq![EventV::Html("<div class=\"speech\">"@)];
    let close = seq![EventV::Html("</div>"@)];
    lemma_no_structure(open);
    lemma_no_structure(close);
    lemma_structural_add(open + body_html(b, cls), close);
    lemma_structural_add(open, body_html(b, cls));
    assert(line_html(line, Mode::Monologue, counter, r).0 == open + body_html(b, cls) + close);
    assert(structural(line_html(line, Mode::Monologue, counter, r).0) =~= structural(token_events(line)));
}

proof fn lemma_five_plain(a: Seq<char>, b: Seq<char>, c: Seq<char>, d: Seq<char>, e: Seq<char>)
    ensures
        structural(seq![EventV::Html(a), EventV::Html(b), EventV::Html(c), EventV::Text(d), EventV::Html(e)])
            == Seq::<EventV>::empty(),
{
    let x = seq![EventV::Html(a), EventV::Html(b), EventV::Html(c), EventV::Text(d), EventV::Html(e)];
    assert forall|i: int| 0 <= i < x.len() implies !is_structural(#[trigger] x[i]) by {
        if i == 0 {
        } else if i == 1 {
        } else if i == 2 {
        } else if i == 3 {
        } else {
        }
    }
    lemma_no_structure(x);
}

proof fn lemma_two_plain(a: Seq<char>, b: Seq<char>)
    ensures
        structural(seq![EventV::Html(a), EventV::Html(b)]) == Seq::<EventV>::empty(),
{
    let x = seq![EventV::Html(a), EventV::Html(b)];
    assert forall|i: int| 0 <= i < x.len() implies !is_structural(#[trigger] x[i]) by {
        if i == 0 {
        } else {
        }
    }
    lemma_no_structure(x);
}

proof fn lemma_three_plain(a: Seq<EventV>, b: Seq<EventV>, c: Seq<EventV>)
    requires
        structural(a) == Seq::<EventV>::empty(),
        structural(b) == Seq::<EventV>::empty(),
        structural(c) == Seq::<EventV>::empty(),
    ensures
        structural(a + b + c) == Seq::<EventV>::empty(),
{
    lemma_structural_add(a + b, c);
    lemma_structural_add(a, b);
    assert(Seq::<EventV>::empty() + Seq::<EventV>::empty() + Seq::<EventV>::empty() =~= Seq::<EventV>::empty());
}

#[verifier::spinoff_prover]
proof fn lemma_heading_structure(h: HeadingV, counter: usize, r: HtmlRenderer)
    requires
        forall|i: int| 0 <= i < h.direction.len() ==> (#[trigger] h.direction[i]) is Text,
    ensures
        structural(heading_html(h, counter as nat, r.heading_anchor_class@, r.character_class@, r.direction_class@))
            == Seq::<EventV>::empty(),
{
    let cls = r.direction_class@;
    let d = direction_html(h.direction, false, cls);
    lemma_direction_structure(h.direction, false, cls);
    assert forall|i: int| 0 <= i < h.direction.len() implies !is_structural(#[trigger] h.direction[i]) by {
        assert(h.direction[i] is Text);
    }
    lemma_no_structure(h.direction);
    let a = crate::renderer::h5_open(counter as nat);
    let b = crate::renderer::anchor_open(r.heading_anchor_class@, counter as nat);
    let c = crate::renderer::span_open(r.character_class@);
    let pre = seq![EventV::Html(a), EventV::Html(b), EventV::Html(c), EventV::Text(h.character), EventV::Html("</span>"@)];
    let post = seq![EventV::Html("</a>"@), EventV::Html("</h5>"@)];
    lemma_five_plain(a, b, c, h.character, "</span>"@);
    lemma_two_plain("</a>"@, "</h5>"@);
    lemma_three_plain(pre, d, post);
    assert(heading_html(h, counter as nat, r.heading_anchor_class@, r.character_class@, cls) == pre + d + post);
}

#[verifier::spinoff_prover]
proof fn lemma_speech_html_structure(sp: SpeechV, counter: usize, r: HtmlRenderer)
    requires
        forall|i: int| 0 <= i < sp.heading.direction.len() ==> (#[trigger] sp.heading.direction[i]) is Text,
    ensures
        structural(speech_html(sp, counter as nat, r)) == structural(flat_inlines(sp.body)),
{
    let rep = opt_view(r.replace_softbreak);
    let cls = r.direction_class@;
    let b = replace_softbreaks_spec(sp.body, rep);
    lemma_body_html_structure(b, cls);
    lemma_replace_inlines_structure(sp.body, rep);
    let hh = heading_html(sp.heading, counter as nat, r.heading_anchor_class@, r.character_class@, cls);
    lemma_heading_structure(sp.heading, counter, r);
    let open = seq![EventV::Html(crate::renderer::div_open(r.speech_class@))];
    let close = seq![EventV::Html("</div>"@)];
    lemma_no_structure(open);
    lemma_no_structure(close);
    lemma_structural_add(open + hh + body_html(b, cls), close);
    lemma_structural_add(open + hh, body_html(b, cls));
    lemma_structural_add(open, hh);
    assert(structural(speech_html(sp, counter as nat, r)) =~= structural(flat_inlines(sp.body)));
}

proof fn lemma_heading_tokens_structure(line: Seq<TokenV>, w: int)
    requires
        0 <= w <= line.len(),
        forall|i: int| 0 <= i < w ==> (#[trigger] line[i]) is Text,
    ensures
        structural(token_events(line)) == structural(token_events(line.skip(w))),
{
    assert(line =~= line.take(w) + line.skip(w));
    lemma_token_events_add(line.take(w), line.skip(w));
    assert forall|i: int| 0 <= i < line.take(w).len() implies (#[trigger] line.take(w)[i]) is Text by {
        assert(line.take(w)[i] == line[i]);
    }
    lemma_text_tokens_plain(line.take(w));
    lemma_structural_add(token_events(line.take(w)), token_events(line.skip(w)));
    assert(Seq::<EventV>::empty() + structural(token_events(line.skip(w))) =~= structural(token_events(line.skip(w))));
}

#[verifier::spinoff_prover]
proof fn lemma_speech_line_structure(line: Seq<TokenV>, counter: usize, r: HtmlRenderer)
    requires
        heading_at(line, 0),
    ensures
        structural(line_html(line, Mode::PlayScript, counter, r).0) == structural(token_events(line)),
{
    let w: int = if simple_heading_at(line, 0) { 2 } else { 5 };
    let sp = SpeechV { heading: heading_of_tokens(line), body: parse_body_spec(line.skip(w)) };
    assert(speech_of_tokens(line) == Some(sp));
    lemma_speech_html_structure(sp, counter, r);
    lemma_trim_heads_structure(body_of(line.skip(w)), true);
    lemma_body_structure(line.skip(w));
    lemma_heading_tokens_structure(line, w);
    let out = speech_html(sp, counter as nat, r);
    let sb = seq![EventV::SoftBreak];
    lemma_no_structure(sb);
    assert(line_html(line, Mode::PlayScript, counter, r).0 == out + sb);
    lemma_structural_add(out, sb);
    assert(structural(out + sb) =~= structural(out));
}

#[verifier::spinoff_prover]
proof fn lemma_plain_line_structure(line: Seq<TokenV>, mode: Mode, counter: usize, r: HtmlRenderer)
    requires
        !heading_at(line, 0),
        !(mode is Monologue),
    ensures
        structural(line_html(line, mode, counter, r).0) == structural(token_events(line)),
{
    let rep = opt_view(r.replace_softbreak);
    let ev = token_events(line);
    let open = seq![EventV::Start(Tag::Paragraph)];
    let close = seq![EventV::End(Tag::Paragraph)];
    lemma_no_structure(open);
    lemma_no_structure(close);
    assert(line_html(line, mode, counter, r).0 == open + ev + close);
    lemma_structural_add(open + ev, close);
    lemma_structural_add(open, ev);
    assert(structural(line_html(line, mode, counter, r).0) =~= structural(token_events(line)));
}

/// A rendered line has the structural events of its tokens.
proof fn lemma_line_structure(line: Seq<TokenV>, mode: Mode, counter: usize, r: HtmlRenderer)
    ensures
        structural(line_html(line, mode, counter, r).0) == structural(token_events(line)),
{
    if mode is Monologue {
        lemma_monologue_line_structure(line, counter, r);
    } else if heading_at(line, 0) {
        lemma_speech_line_structure(line, counter, r);
        assert(line_html(line, mode, counter, r) == line_html(line, Mode::PlayScript, counter, r));
    } else {
        lemma_plain_line_structure(line, mode, counter, r);
    }
}

proof fn lemma_lines_structure(ts: Seq<TokenV>, mode: Mode, counter: usize, r: HtmlRenderer)
    ensures
        structural(lines_html(lines_of(ts), mode, counter, r).0) == structural(token_events(ts)),
    decreases ts.len(),
{
    if ts.len() == 0 {
        assert(lines_of(ts) == Seq::<Seq<TokenV>>::empty());
        lemma_no_structure(token_events(ts));
        lemma_no_structure(lines_html(lines_of(ts), mode, counter, r).0);
    } else {
        let e = line_end(ts, 0);
        lemma_line_end(ts, 0);
        let ls = lines_of(ts);
        assert(ls == seq![ts.take(e)] + lines_of(ts.skip(e)));
        assert(ls[0] == ts.take(e));
        assert(ls.drop_first() =~= lines_of(ts.skip(e)));
        let first = line_html(ts.take(e), mode, counter, r);
        lemma_line_structure(ts.take(e), mode, counter, r);
        lemma_lines_structure(ts.skip(e), mode, first.1, r);
        lemma_structural_add(first.0, lines_html(lines_of(ts.skip(e)), mode, first.1, r).0);
        assert(ts =~= ts.take(e) + ts.skip(e));
        lemma_token_events_add(ts.take(e), ts.skip(e));
        lemma_structural_add(token_events(ts.take(e)), token_events(ts.skip(e)));
    }
}

/// The engine keeps, in order, every event that the dialect gives no
/// meaning to: inline tags, code, hard breaks, rules and the like. Drop
/// text, soft breaks, raw HTML and paragraph boundaries from the output and
/// from the input, and the two are the same. The start and end tags of the
/// output are thus the input's, in the input's order: a direction that
/// opens or closes inside an inline span breaks no pairing.
pub proof fn lemma_structural_events_kept(evs: Seq<Event>, mode: Mode, counter: usize, cfg: EngineConfig)
    ensures
        structural(run(evs, mode, counter, cfg)) == structural(events_view(evs)),
    decreases evs.len(),
{
    if evs.len() == 0 {
        lemma_no_structure(events_view(evs));
        lemma_no_structure(run(evs, mode, counter, cfg));
    } else {
        let e = evs[0];
        let rest = evs.drop_first();
        assert(events_view(evs) =~= seq![e@] + events_view(rest));
        lemma_structural_add(seq![e@], events_view(rest));
        lemma_structural_one(e@);
        match e {
            Event::Html(s) => {
                let d = directive_of(s@);
                lemma_structural_events_kept(rest, mode_after(d, mode), counter, cfg);
                lemma_directive_structure(d, cfg);
                lemma_structural_add(directive_html(d, cfg) + seq![e@], run(rest, mode_after(d, mode), counter, cfg));
                lemma_structural_add(directive_html(d, cfg), seq![e@]);
            },
            Event::Start(Tag::Paragraph) => {
                if mode is Nop {
                    lemma_structural_events_kept(rest, mode, counter, cfg);
                    lemma_structural_add(seq![e@], run(rest, mode, counter, cfg));
                } else {
                    let k = para_len(rest, 0) as int;
                    lemma_para_len_bound(rest, 0);
                    let ts = para_tokens(rest, 0);
                    let out = lines_html(lines_of(ts), mode, counter, cfg.renderer);
                    lemma_lines_structure(ts, mode, counter, cfg.renderer);
                    lemma_para_structure(rest, 0);
                    lemma_structural_events_kept(rest.skip(k), mode, out.1, cfg);
                    lemma_structural_add(out.0, run(rest.skip(k), mode, out.1, cfg));
                    assert(rest =~= rest.take(k) + rest.skip(k));
                    assert(events_view(rest) =~= events_view(rest.take(k)) + events_view(rest.skip(k)));
                    lemma_structural_add(events_view(rest.take(k)), events_view(rest.skip(k)));
                }
            },
            _ => {
                lemma_structural_events_kept(rest, mode, counter, cfg);
                lemma_structural_add(seq![e@], run(rest, mode, counter, cfg));
            },
        }
    }
}

/// `a` is what is left of `b` once some of its first events are taken.
pub open spec fn is_suffix(a: Seq<Event>, b: Seq<Event>) -> bool {
    a.len() <= b.len() && a == b.skip(b.len() - a.len())
}

proof fn lemma_suffix_trans(a: Seq<Event>, b: Seq<Event>, c: Seq<Event>)
    requires
        is_suffix(a, b),
        is_suffix(b, c),
    ensures
        is_suffix(a, c),
{
    assert(c.skip(c.len() - b.len()).skip(b.len() - a.len()) =~= c.skip(c.len() - a.len()));
}

/// Appends the title, if there is one.
fn emit_title(params: &Params, queue: &mut VecDeque<Event>)
    ensures
        events_view(final(queue)@) == events_view(old(queue)@) + titled(
            "<h1 class=\"cover-title\">"@,
            params.title,
            "</h1>"@,
        ),
{
    emit_titled(params.title.as_ref(), "<h1 class=\"cover-title\">", "</h1>", queue);
}

/// Appends the subtitle, if there is one.
fn emit_subtitle(params: &Params, queue: &mut VecDeque<Event>)
    ensures
        events_view(final(queue)@) == events_view(old(queue)@) + titled(
            "<h2 class=\"cover-title\">"@,
            params.subtitle,
            "</h2>"@,
        ),
{
    emit_titled(params.subtitle.as_ref(), "<h2 class=\"cover-title\">", "</h2>", queue);
}

fn push_back_event(queue: &mut VecDeque<Event>, e: Event)
    ensures
        events_view(final(queue)@) == events_view(old(queue)@).push(e@),
{
    queue.push_back(e);
    assert(events_view(queue@) =~= events_view(old(queue)@).push(e@));
}

fn emit_titled(t: Option<&String>, open: &str, close: &str, queue: &mut VecDeque<Event>)
    ensures
        events_view(final(queue)@) == events_view(old(queue)@) + match t {
            Some(x) => seq![EventV::Html(open@), EventV::Text(x@), EventV::Html(close@)],
            None => Seq::<EventV>::empty(),
        },
{
    match t {
        Some(content) => {
            push_back_event(queue, Event::Html(open.to_owned()));
            push_back_event(queue, Event::Text(content.clone()));
            push_back_event(queue, Event::Html(close.to_owned()));
        },
        None => {
            assert(events_view(queue@) =~= events_view(queue@) + Seq::<EventV>::empty());
        },
    }
}

/// Appends the authors, one paragraph each, if there are any.
fn emit_authors(params: &Params, queue: &mut VecDeque<Event>)
    ensures
        events_view(final(queue)@) == events_view(old(queue)@) + authors_html(params.authors@),
{
    let ghost start = events_view(queue@);
    let ghost authors = params.authors@;
    if params.authors.len() == 0 {
        assert(events_view(queue@) =~= start + Seq::<EventV>::empty());
        return;
    }
    push_back_event(queue, Event::Html("<div class=\"authors\">".to_owned()));
    let mut i: usize = 0;
    while i < params.authors.len()
        invariant
            authors == params.authors@,
            i <= authors.len(),
            authors.len() > 0,
            events_view(queue@) == start + seq![EventV::Html("<div class=\"authors\">"@)] + author_items(authors.take(i as int)),
        decreases authors.len() - i,
    {
        push_back_event(queue, Event::Html("<p class=\"cover-author\">".to_owned()));
        push_back_event(queue, Event::Text(params.authors[i].clone()));
        push_back_event(queue, Event::Html("</p>".to_owned()));
        proof {
            assert(authors.take(i + 1).drop_last() == authors.take(i as int));
            assert(authors.take(i + 1).last() == authors[i as int]);
            assert(events_view(queue@) =~= start + seq![EventV::Html("<div class=\"authors\">"@)] + author_items(authors.take(i + 1)));
        }
        i = i + 1;
    }
    push_back_event(queue, Event::Html("</div>".to_owned()));
    assert(authors.take(authors.len() as int) == authors);
    assert(events_view(queue@) =~= start + authors_html(authors));
}

/// Configures an engine.
pub struct MdPlayScriptBuilder {
    options: Option<Options>,
    params: Option<Params>,
    make_title: Option<String>,
}

impl MdPlayScriptBuilder {
    pub closed spec fn has_options(&self) -> bool {
        self.options is Some
    }

    /// The mode the engine starts in.
    pub closed spec fn start_mode(&self) -> Mode {
        match self.options {
            Some(o) => if o.disabled() { Mode::Nop } else { Mode::PlayScript },
            None => Mode::PlayScript,
        }
    }

    /// The text that replaces soft breaks, if any.
    pub closed spec fn softbreak_text(&self) -> Option<Seq<char>> {
        match self.options {
            Some(o) => o.softbreak_text(),
            None => None,
        }
    }

    pub closed spec fn given_params(&self) -> Option<Params> {
        self.params
    }

    pub closed spec fn title_block(&self) -> Option<String> {
        self.make_title
    }

    pub fn new() -> (r: Self)
        ensures
            !r.has_options(),
            r.given_params() is None,
            r.title_block() is None,
    {
        MdPlayScriptBuilder { options: None, params: None, make_title: None }
    }

    pub fn options(self, opt: Options) -> (r: Self)
        ensures
            r.has_options(),
            r.start_mode() == (if opt.disabled() { Mode::Nop } else { Mode::PlayScript }),
            r.softbreak_text() == opt.softbreak_text(),
            r.given_params() == self.given_params(),
            r.title_block() == self.title_block(),
    {
        MdPlayScriptBuilder { options: Some(opt), ..self }
    }

    pub fn params(self, p: Params) -> (r: Self)
        ensures
            r.has_options() == self.has_options(),
            r.start_mode() == self.start_mode(),
            r.softbreak_text() == self.softbreak_text(),
            r.given_params() == Some(p),
            r.title_block() == self.title_block(),
    {
        MdPlayScriptBuilder { params: Some(p), ..self }
    }

    /// The HTML that a `playscript-make-title` directive splices in.
    pub fn make_title(self, val: String) -> (r: Self)
        ensures
            r.has_options() == self.has_options(),
            r.start_mode() == self.start_mode(),
            r.softbreak_text() == self.softbreak_text(),
            r.given_params() == self.given_params(),
            r.title_block() == Some(val),
    {
        MdPlayScriptBuilder { make_title: Some(val), ..self }
    }

    /// An engine over the upstream events `iter`, in the mode and with the
    /// soft-break text of the options, and the given metadata (or none).
    pub fn build(self, iter: VecDeque<Event>) -> (r: MdPlayScript)
        requires
            self.has_options(),
        ensures
            r.pending() == run(iter@, self.start_mode(), 0, r.config()),
            r.upstream() == iter@,
            r.queued().len() == 0,
            opt_view(r.config().renderer.replace_softbreak) == self.softbreak_text(),
            r.config().renderer.speech_class@ == "speech"@,
            r.config().renderer.character_class@ == "character"@,
            r.config().renderer.direction_class@ == "direction"@,
            r.config().renderer.heading_anchor_class@ == "header"@,
            r.config().title_block == self.title_block(),
            match self.given_params() {
                Some(p) => r.config().params == p,
                None => {
                    &&& r.config().params.title is None
                    &&& r.config().params.subtitle is None
                    &&& r.config().params.authors@.len() == 0
                },
            },
    {
        let options = match self.options {
            Some(o) => o,
            None => Options::default(),
        };
        let mut renderer = HtmlRenderer::default();
        renderer.replace_softbreak = options.replace_softbreaks_with;
        let mode = if options.disabled_in_default { Mode::Nop } else { Mode::PlayScript };
        let params = match self.params {
            Some(p) => p,
            None => Params::default(),
        };
        let r = MdPlayScript {
            iter,
            queue: VecDeque::new(),
            mode,
            params,
            renderer,
            make_title: self.make_title,
        };
        assert(events_view(r.queue@) =~= Seq::<EventV>::empty());
        r
    }
}

/// The engine: an event stream in which paragraphs are rendered as
/// speeches, directives switch modes or add title fragments, and every
/// other event passes through.
pub struct MdPlayScript {
    iter: VecDeque<Event>,
    queue: VecDeque<Event>,
    mode: Mode,
    params: Params,
    renderer: HtmlRenderer,
    make_title: Option<String>,
}

impl MdPlayScript {
    /// The constant part of the engine.
    pub closed spec fn config(&self) -> EngineConfig {
        EngineConfig {
            renderer: HtmlRenderer {
                speech_class: self.renderer.speech_class,
                character_class: self.renderer.character_class,
                direction_class: self.renderer.direction_class,
                heading_anchor_class: self.renderer.heading_anchor_class,
                heading_id_counter: 0,
                replace_softbreak: self.renderer.replace_softbreak,
            },
            params: self.params,
            title_block: self.make_title,
        }
    }

    /// The upstream events not read yet.
    pub closed spec fn upstream(&self) -> Seq<Event> {
        self.iter@
    }

    /// The events already rendered and not yet given out.
    pub closed spec fn queued(&self) -> Seq<EventV> {
        events_view(self.queue@)
    }

    /// Every event still to come.
    pub closed spec fn pending(&self) -> Seq<EventV> {
        events_view(self.queue@) + run(self.iter@, self.mode, self.renderer.heading_id_counter, self.config())
    }

    /// An engine with the default options and no metadata.
    pub fn new(iter: VecDeque<Event>) -> (r: Self)
        ensures
            r.pending() == run(iter@, Mode::PlayScript, 0, r.config()),
            r.upstream() == iter@,
            r.queued().len() == 0,
            r.config().renderer.speech_class@ == "speech"@,
            opt_view(r.config().renderer.replace_softbreak) == Some(" "@),
            r.config().params.authors@.len() == 0,
            r.config().params.title is None,
            r.config().params.subtitle is None,
            r.config().title_block is None,
    {
        let r = MdPlayScript {
            iter,
            queue: VecDeque::new(),
            mode: Mode::PlayScript,
            params: Params::default(),
            renderer: HtmlRenderer::default(),
            make_title: None,
        };
        assert(events_view(r.queue@) =~= Seq::<EventV>::empty());
        r
    }

    /// The upstream events not read yet.
    pub fn into_inner(self) -> (r: VecDeque<Event>)
        ensures
            r@ == self.upstream(),
    {
        self.iter
    }

    fn dispatch_directive(&mut self, s: &str)
        ensures
            final(self).config() == old(self).config(),
            final(self).iter == old(self).iter,
            final(self).renderer.heading_id_counter == old(self).renderer.heading_id_counter,
            final(self).mode == mode_after(directive_of(s@), old(self).mode),
            events_view(final(self).queue@) == events_view(old(self).queue@) + directive_html(directive_of(s@), old(self).config()),
    {
        let d = parse_directive(s);
        match d {
            Some(Directive::MonologueBegin) => {
                self.mode = Mode::Monologue;
            },
            Some(Directive::MonologueEnd) => {
                self.mode = Mode::PlayScript;
            },
            Some(Directive::PlayScriptOn) => {
                self.mode = Mode::PlayScript;
            },
            Some(Directive::PlayScriptOff) => {
                self.mode = Mode::Nop;
            },
            Some(Directive::Title) => {
                emit_title(&self.params, &mut self.queue);
            },
            Some(Directive::SubTitle) => {
                emit_subtitle(&self.params, &mut self.queue);
            },
            Some(Directive::Authors) => {
                emit_authors(&self.params, &mut self.queue);
            },
            Some(Directive::MakeTitle) => {
                match &self.make_title {
                    Some(cover) => {
                        push_back_event(&mut self.queue, Event::Html(cover.clone()));
                    },
                    None => {},
                }
            },
            None => {},
        }
        proof {
            if !(d matches Some(Directive::Title) || d matches Some(Directive::SubTitle) || d matches Some(Directive::Authors) || d matches Some(Directive::MakeTitle)) {
                assert(events_view(self.queue@) =~= events_view(old(self).queue@) + directive_html(d, old(self).config()));
            }
            if d matches Some(Directive::MakeTitle) && self.make_title is None {
                assert(events_view(self.queue@) =~= events_view(old(self).queue@) + directive_html(d, old(self).config()));
            }
        }
    }

    fn append_events(&mut self, events: Vec<Event>)
        ensures
            final(self).config() == old(self).config(),
            final(self).iter == old(self).iter,
            final(self).mode == old(self).mode,
            final(self).renderer == old(self).renderer,
            events_view(final(self).queue@) == events_view(old(self).queue@) + events_view(events@),
    {
        let mut q = into_deque(events);
        let ghost all = events_view(q@);
        let ghost start = events_view(self.queue@);
        let n = q.len();
        let mut k: usize = 0;
        while q.len() > 0
            invariant
                self.config() == old(self).config(),
                self.iter == old(self).iter,
                self.mode == old(self).mode,
                self.renderer == old(self).renderer,
                n == all.len(),
                k <= n,
                q@.len() == n - k,
                events_view(q@) == all.skip(k as int),
                events_view(self.queue@) == start + all.take(k as int),
            decreases q@.len(),
        {
            let ghost q_old = q@;
            let e = q.pop_front().unwrap();
            proof {
                assert(q@ == q_old.drop_first());
                assert(events_view(q_old)[0] == all[k as int]);
                assert(events_view(q@) =~= events_view(q_old).drop_first());
                assert(events_view(q@) =~= all.skip(k + 1));
                assert(all.take(k + 1) == all.take(k as int).push(all[k as int]));
            }
            push_back_event(&mut self.queue, e);
            k = k + 1;
        }
        assert(all.take(n as int) == all);
    }

    /// Renders one line of a paragraph in the current mode.
    fn render_line(&mut self, line: Vec<Token>) -> (r: Vec<Event>)
        ensures
            final(self).config() == old(self).config(),
            final(self).iter == old(self).iter,
            final(self).mode == old(self).mode,
            final(self).queue == old(self).queue,
            events_view(r@) == line_html(tokens_view(line@), old(self).mode, old(self).renderer.heading_id_counter, old(self).config().renderer).0,
            final(self).renderer.heading_id_counter == line_html(tokens_view(line@), old(self).mode, old(self).renderer.heading_id_counter, old(self).config().renderer).1,
    {
        let ghost ts = tokens_view(line@);
        let mut html: Vec<Event> = Vec::new();
        if self.mode.is_monologue() {
            let body = parse_body_tokens(into_deque(line));
            push_event(&mut html, Event::Html("<div class=\"speech\">".to_owned()));
            self.renderer.render_body(body, &mut html);
            push_event(&mut html, Event::Html("</div>".to_owned()));
            assert(events_view(html@) =~= line_html(ts, old(self).mode, old(self).renderer.heading_id_counter, old(self).config().renderer).0);
        } else {
            match speech_of_line(into_deque(line)) {
                Ok(sp) => {
                    self.renderer.render_speech(sp, &mut html);
                    push_event(&mut html, Event::SoftBreak);
                    assert(events_view(html@) =~= line_html(ts, old(self).mode, old(self).renderer.heading_id_counter, old(self).config().renderer).0);
                },
                Err(l) => {
                    let events = events_of_tokens(l);
                    push_event(&mut html, Event::Start(Tag::Paragraph));
                    append_events(&mut html, events);
                    push_event(&mut html, Event::End(Tag::Paragraph));
                    assert(events_view(html@) =~= line_html(ts, old(self).mode, old(self).renderer.heading_id_counter, old(self).config().renderer).0);
                },
            }
        }
        html
    }

    /// The next event of the output; `None` once the upstream events are
    /// all read and rendered.
    pub fn next(&mut self) -> (r: Option<Event>)
        ensures
            final(self).config() == old(self).config(),
            is_suffix(final(self).upstream(), old(self).upstream()),
            old(self).queued().len() > 0 ==> final(self).upstream() == old(self).upstream(),
            match r {
                Some(e) => old(self).pending() == seq![e@] + final(self).pending(),
                None => old(self).pending().len() == 0 && final(self).pending().len() == 0,
            },
    {
        assert(self.iter@.skip(0) =~= self.iter@);
        loop
            invariant
                self.config() == old(self).config(),
                self.pending() == old(self).pending(),
                is_suffix(self.iter@, old(self).iter@),
                old(self).queue@.len() > 0 ==> self.queue@ == old(self).queue@ && self.iter@ == old(self).iter@,
            decreases self.iter@.len(),
        {
            if self.queue.len() > 0 {
                let ghost before = events_view(self.queue@);
                let e = self.queue.pop_front().unwrap();
                assert(before == seq![e@] + events_view(self.queue@));
                return Some(e);
            }
            let ghost evs = self.iter@;
            let ghost c0 = self.renderer.heading_id_counter;
            let ghost cfg = self.config();
            let ghost m0 = self.mode;
            assert(events_view(self.queue@) =~= Seq::<EventV>::empty());
            match self.iter.pop_front() {
                None => {
                    return None;
                },
                Some(Event::Html(s)) => {
                    assert(self.iter@ == evs.drop_first());
                    proof {
                        lemma_suffix_trans(self.iter@, evs, old(self).iter@);
                    }
                    self.dispatch_directive(s.as_str());
                    push_back_event(&mut self.queue, Event::Html(s));
                    assert(self.pending() =~= old(self).pending());
                },
                Some(Event::Start(Tag::Paragraph)) if !self.mode.is_off() => {
                    let ghost rest = self.iter@;
                    assert(rest == evs.drop_first());
                    let mut upstream: VecDeque<Event> = VecDeque::new();
                    std::mem::swap(&mut upstream, &mut self.iter);
                    let mut speeches = Speeches::new(FuseOnParagraphEnd::new(upstream));
                    let ghost all_lines = lines_of(para_tokens(rest, 0));
                    let ghost total = lines_html(all_lines, self.mode, c0, cfg.renderer);
                    assert(events_view(self.queue@) + lines_html(speeches.lines(), self.mode, self.renderer.heading_id_counter, cfg.renderer).0 =~= total.0);
                    loop
                        invariant
                            self.config() == cfg,
                            self.mode == m0,
                            !(self.mode is Nop),
                            speeches.paragraph().is_done(),
                            speeches.paragraph().after() == rest.skip(para_len(rest, 0) as int),
                            events_view(self.queue@) + lines_html(speeches.lines(), self.mode, self.renderer.heading_id_counter, cfg.renderer).0 == total.0,
                            lines_html(speeches.lines(), self.mode, self.renderer.heading_id_counter, cfg.renderer).1 == total.1,
                        ensures
                            speeches.paragraph().is_done(),
                            speeches.paragraph().after() == rest.skip(para_len(rest, 0) as int),
                            events_view(self.queue@) == total.0,
                            self.renderer.heading_id_counter == total.1,
                            self.config() == cfg,
                            self.mode == m0,
                        decreases speeches.lines().len(),
                    {
                        let ghost ls = speeches.lines();
                        match speeches.next() {
                            Some(line) => {
                                let ghost q0 = events_view(self.queue@);
                                let ghost c = self.renderer.heading_id_counter;
                                let output = self.render_line(line);
                                self.append_events(output);
                                proof {
                                    assert(ls.drop_first() == speeches.lines());
                                    assert(events_view(self.queue@) + lines_html(speeches.lines(), self.mode, self.renderer.heading_id_counter, cfg.renderer).0
                                        =~= q0 + lines_html(ls, self.mode, c, cfg.renderer).0);
                                }
                            },
                            None => {
                                assert(events_view(self.queue@) + lines_html(speeches.lines(), self.mode, self.renderer.heading_id_counter, cfg.renderer).0 =~= events_view(self.queue@));
                                break;
                            },
                        }
                    }
                    self.iter = speeches.into_inner().into_inner();
                    proof {
                        lemma_para_len_bound(rest, 0);
                        assert(self.pending() =~= old(self).pending());
                        assert(is_suffix(rest, evs));
                        assert(is_suffix(self.iter@, rest));
                        lemma_suffix_trans(self.iter@, rest, evs);
                        lemma_suffix_trans(self.iter@, evs, old(self).iter@);
                    }
                },
                Some(e) => {
                    assert(self.iter@ == evs.drop_first());
                    proof {
                        lemma_suffix_trans(self.iter@, evs, old(self).iter@);
                    }
                    push_back_event(&mut self.queue, e);
                    assert(self.pending() =~= old(self).pending());
                },
            }
        }
    }
}

} // verus!
