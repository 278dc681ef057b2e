use std::collections::VecDeque;
use mdplayscript::event::{Event, Tag};
use mdplayscript::interface::{parse_directive, Directive, MdPlayScript, MdPlayScriptBuilder, Mode, Options, Params};

fn drain(mut engine: MdPlayScript) -> Vec<Event> {
    let mut out = Vec::new();
    while let Some(e) = engine.next() {
        out.push(e);
    }
    out
}

fn html(s: &str) -> Event {
    Event::Html(s.into())
}

fn text(s: &str) -> Event {
    Event::Text(s.into())
}

#[test]
fn parse_correct_directives() {
    assert_eq!(
        parse_directive("<!-- playscript-monologue-begin -->"),
        Some(Directive::MonologueBegin));
    assert_eq!(
        parse_directive("<!-- playscript-monologue-end -->"),
        Some(Directive::MonologueEnd));
    assert_eq!(
        parse_directive("<!-- playscript-on -->"),
        Some(Directive::PlayScriptOn));
    assert_eq!(
        parse_directive("<!-- playscript-off -->"),
        Some(Directive::PlayScriptOff));
    assert_eq!(
        parse_directive("<!-- playscript-title -->"),
        Some(Directive::Title));
    assert_eq!(
        parse_directive("<!-- playscript-subtitle -->"),
        Some(Directive::SubTitle));
    assert_eq!(
        parse_directive("<!-- playscript-authors -->"),
        Some(Directive::Authors));
}

#[test]
fn other_comments_are_no_directives() {
    assert_eq!(parse_directive("  <!--playscript-make-title-->\n"), Some(Directive::MakeTitle));
    assert_eq!(parse_directive("<!-- playscript-unknown -->"), None);
    assert_eq!(parse_directive("<!-->"), None);
    assert_eq!(parse_directive("<div>"), None);
}

#[test]
fn modes_answer_their_questions() {
    assert!(Mode::Nop.is_off());
    assert!(!Mode::PlayScript.is_off());
    assert!(Mode::Monologue.is_monologue());
    assert!(!Mode::PlayScript.is_monologue());
}

#[test]
fn monologue_then_dialogue() {
    let input = VecDeque::from(vec![
        html("<!-- playscript-monologue-begin -->"),
        Event::Start(Tag::Paragraph),
        text("Text (dir)"),
        Event::End(Tag::Paragraph),
        html("<!-- playscript-monologue-end -->"),
        Event::Start(Tag::Paragraph),
        text("A> Hi"),
        Event::End(Tag::Paragraph),
    ]);
    let out = drain(MdPlayScript::new(input));
    assert_eq!(out, vec![
        html("<!-- playscript-monologue-begin -->"),
        html("<div class=\"speech\">"),
        html("<p>"),
        html("<span>"),
        text("Text"),
        html("</span>"),
        html("<span class=\"direction\">"),
        text("dir"),
        html("</span>"),
        html("</p>"),
        html("</div>"),
        html("<!-- playscript-monologue-end -->"),
        html("<div class=\"speech\">"),
        html("<h5 id=\"D0\">"),
        html("<a class=\"header\" href=\"#D0\">"),
        html("<span class=\"character\">"),
        text("A"),
        html("</span>"),
        html("</a>"),
        html("</h5>"),
        html("<p>"),
        html("<span>"),
        text("Hi"),
        html("</span>"),
        html("</p>"),
        html("</div>"),
        Event::SoftBreak,
    ]);
}

#[test]
fn monologue_suppresses_headings() {
    let input = VecDeque::from(vec![
        html("<!-- playscript-monologue-begin -->"),
        Event::Start(Tag::Paragraph),
        text("A> Hi"),
        Event::End(Tag::Paragraph),
    ]);
    let out = drain(MdPlayScript::new(input));
    assert_eq!(out[1], html("<div class=\"speech\">"));
    assert_eq!(out[2], html("<p>"));
    assert!(!out.iter().any(|e| matches!(e, Event::Html(s) if s.starts_with("<h5"))));
}

#[test]
fn plain_paragraph_passes_through() {
    let events = vec![
        Event::Start(Tag::Paragraph),
        text("Just words"),
        Event::Start(Tag::Emphasis),
        text("and more"),
        Event::End(Tag::Emphasis),
        Event::End(Tag::Paragraph),
        Event::Rule,
    ];
    let engine = MdPlayScriptBuilder::new()
        .options(Options::default())
        .build(VecDeque::from(events.clone()));
    assert_eq!(drain(engine), events);
}

#[test]
fn plain_lines_keep_soft_breaks() {
    let events = vec![
        Event::Start(Tag::Paragraph),
        text("one"),
        Event::SoftBreak,
        text("two"),
        Event::End(Tag::Paragraph),
    ];
    assert_eq!(drain(MdPlayScript::new(VecDeque::from(events.clone()))), events);
}

#[test]
fn default_options_replace_soft_breaks_in_speeches() {
    let input = VecDeque::from(vec![
        Event::Start(Tag::Paragraph),
        text("A> one"),
        Event::SoftBreak,
        text("two"),
        Event::End(Tag::Paragraph),
    ]);
    let out = drain(MdPlayScript::new(input));
    assert!(out.contains(&text(" ")));
    assert_eq!(out.iter().filter(|e| **e == Event::SoftBreak).count(), 1);
    assert_eq!(out.last(), Some(&Event::SoftBreak));
}

#[test]
fn japanese_options_drop_soft_breaks_in_speeches() {
    let input = VecDeque::from(vec![
        Event::Start(Tag::Paragraph),
        text("A> one"),
        Event::SoftBreak,
        text("two"),
        Event::End(Tag::Paragraph),
    ]);
    let engine = MdPlayScriptBuilder::new().options(Options::default_ja()).build(input);
    let out = drain(engine);
    assert!(out.contains(&text("")));
    assert!(!out.contains(&text(" ")));
}

#[test]
fn into_inner_after_a_paragraph() {
    let mut engine = MdPlayScript::new(VecDeque::from(vec![
        Event::Start(Tag::Paragraph),
        text("A> x"),
        Event::End(Tag::Paragraph),
        Event::Rule,
    ]));
    assert_eq!(engine.next(), Some(html("<div class=\"speech\">")));
    assert_eq!(engine.into_inner(), VecDeque::from(vec![Event::Rule]));
}

#[test]
fn off_mode_passes_paragraphs_through() {
    let events = vec![
        html("<!-- playscript-off -->"),
        Event::Start(Tag::Paragraph),
        text("A> (x) y"),
        Event::SoftBreak,
        text("B> z"),
        Event::End(Tag::Paragraph),
        html("<!-- playscript-on -->"),
        Event::Start(Tag::Paragraph),
        text("A> y"),
        Event::End(Tag::Paragraph),
    ];
    let out = drain(MdPlayScript::new(VecDeque::from(events.clone())));
    assert_eq!(out[..7].to_vec(), events[..7].to_vec());
    assert_eq!(out[7], html("<div class=\"speech\">"));
}

#[test]
fn metadata_directives_emit_fragments() {
    let params = Params {
        title: Some("Figaro".into()),
        subtitle: None,
        authors: vec!["Beaumarchais".into(), "Anon".into()],
    };
    let input = VecDeque::from(vec![
        html("<!-- playscript-title -->"),
        html("<!-- playscript-subtitle -->"),
        html("<!-- playscript-authors -->"),
        html("<!-- playscript-make-title -->"),
    ]);
    let engine = MdPlayScriptBuilder::new()
        .options(Options::default())
        .params(params)
        .make_title("<div class=\"cover\"></div>".to_owned())
        .build(input);
    assert_eq!(drain(engine), vec![
        html("<h1 class=\"cover-title\">"),
        text("Figaro"),
        html("</h1>"),
        html("<!-- playscript-title -->"),
        html("<!-- playscript-subtitle -->"),
        html("<div class=\"authors\">"),
        html("<p class=\"cover-author\">"),
        text("Beaumarchais"),
        html("</p>"),
        html("<p class=\"cover-author\">"),
        text("Anon"),
        html("</p>"),
        html("</div>"),
        html("<!-- playscript-authors -->"),
        html("<div class=\"cover\"></div>"),
        html("<!-- playscript-make-title -->"),
    ]);
}

#[test]
fn missing_metadata_emits_nothing() {
    let input = VecDeque::from(vec![
        html("<!-- playscript-title -->"),
        html("<!-- playscript-authors -->"),
        html("<!-- playscript-make-title -->"),
    ]);
    let out = drain(MdPlayScript::new(input.clone()));
    assert_eq!(out, input.into_iter().collect::<Vec<_>>());
}

#[test]
fn nested_markup_keeps_order_and_pairing() {
    let input = VecDeque::from(vec![
        Event::Start(Tag::Paragraph),
        text("A> "),
        Event::Start(Tag::Strong),
        text("x (y)"),
        Event::End(Tag::Strong),
        text(" (go "),
        Event::Start(Tag::Emphasis),
        text("now"),
        Event::End(Tag::Emphasis),
        text(")"),
        Event::Code("c".into()),
        Event::End(Tag::Paragraph),
    ]);
    let out = drain(MdPlayScript::new(input));
    let structural: Vec<Event> = out
        .into_iter()
        .filter(|e| matches!(e, Event::Start(_) | Event::End(_) | Event::Code(_)))
        .collect();
    assert_eq!(structural, vec![
        Event::Start(Tag::Strong),
        Event::End(Tag::Strong),
        Event::Start(Tag::Emphasis),
        Event::End(Tag::Emphasis),
        Event::Code("c".into()),
    ]);
}

#[test]
fn two_speakers_in_one_paragraph() {
    let input = VecDeque::from(vec![
        Event::Start(Tag::Paragraph),
        text("A> Hi!"),
        Event::SoftBreak,
        text("B> Bye!"),
        Event::End(Tag::Paragraph),
    ]);
    let out = drain(MdPlayScript::new(input));
    let ids: Vec<Event> = out
        .iter()
        .filter(|e| matches!(e, Event::Html(s) if s.starts_with("<h5")))
        .cloned()
        .collect();
    assert_eq!(ids, vec![html("<h5 id=\"D0\">"), html("<h5 id=\"D1\">")]);
    assert_eq!(out.iter().filter(|e| **e == Event::SoftBreak).count(), 2);
}

#[test]
fn into_inner_gives_back_unread_events() {
    let mut engine = MdPlayScript::new(VecDeque::from(vec![Event::Rule, Event::HardBreak]));
    assert_eq!(engine.next(), Some(Event::Rule));
    assert_eq!(engine.into_inner(), VecDeque::from(vec![Event::HardBreak]));
}
