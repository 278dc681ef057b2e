use std::collections::VecDeque;
use mdplayscript::event::{Alignment, Event, LinkType, Tag};
use mdplayscript::interface::MdPlayScript;
use mdplayscript::parser::{FuseOnParagraphEnd, Speeches};
use mdplayscript::token::{TextToken, Token};
use pulldown_cmark as cm;
use pulldown_cmark::html::push_html;
use pulldown_cmark::Parser;

fn link_type(k: cm::LinkType) -> LinkType {
    match k {
        cm::LinkType::Inline => LinkType::Inline,
        cm::LinkType::Reference => LinkType::Reference,
        cm::LinkType::ReferenceUnknown => LinkType::ReferenceUnknown,
        cm::LinkType::Collapsed => LinkType::Collapsed,
        cm::LinkType::CollapsedUnknown => LinkType::CollapsedUnknown,
        cm::LinkType::Shortcut => LinkType::Shortcut,
        cm::LinkType::ShortcutUnknown => LinkType::ShortcutUnknown,
        cm::LinkType::Autolink => LinkType::Autolink,
        cm::LinkType::Email => LinkType::Email,
    }
}

fn cm_link_type(k: LinkType) -> cm::LinkType {
    match k {
        LinkType::Inline => cm::LinkType::Inline,
        LinkType::Reference => cm::LinkType::Reference,
        LinkType::ReferenceUnknown => cm::LinkType::ReferenceUnknown,
        LinkType::Collapsed => cm::LinkType::Collapsed,
        LinkType::CollapsedUnknown => cm::LinkType::CollapsedUnknown,
        LinkType::Shortcut => cm::LinkType::Shortcut,
        LinkType::ShortcutUnknown => cm::LinkType::ShortcutUnknown,
        LinkType::Autolink => cm::LinkType::Autolink,
        LinkType::Email => cm::LinkType::Email,
    }
}

fn tag(t: cm::Tag) -> Tag {
    match t {
        cm::Tag::Paragraph => Tag::Paragraph,
        cm::Tag::Heading(n) => Tag::Heading(n),
        cm::Tag::BlockQuote => Tag::BlockQuote,
        cm::Tag::CodeBlock(cm::CodeBlockKind::Indented) => Tag::CodeBlock(None),
        cm::Tag::CodeBlock(cm::CodeBlockKind::Fenced(s)) => Tag::CodeBlock(Some(s.to_string())),
        cm::Tag::List(n) => Tag::List(n),
        cm::Tag::Item => Tag::Item,
        cm::Tag::FootnoteDefinition(s) => Tag::FootnoteDefinition(s.to_string()),
        cm::Tag::Table(a) => Tag::Table(a.into_iter().map(|x| match x {
            cm::Alignment::None => Alignment::Unaligned,
            cm::Alignment::Left => Alignment::Left,
            cm::Alignment::Center => Alignment::Center,
            cm::Alignment::Right => Alignment::Right,
        }).collect()),
        cm::Tag::TableHead => Tag::TableHead,
        cm::Tag::TableRow => Tag::TableRow,
        cm::Tag::TableCell => Tag::TableCell,
        cm::Tag::Emphasis => Tag::Emphasis,
        cm::Tag::Strong => Tag::Strong,
        cm::Tag::Strikethrough => Tag::Strikethrough,
        cm::Tag::Link(k, u, t) => Tag::Link(link_type(k), u.to_string(), t.to_string()),
        cm::Tag::Image(k, u, t) => Tag::Image(link_type(k), u.to_string(), t.to_string()),
    }
}

fn cm_tag(t: Tag) -> cm::Tag<'static> {
    match t {
        Tag::Paragraph => cm::Tag::Paragraph,
        Tag::Heading(n) => cm::Tag::Heading(n),
        Tag::BlockQuote => cm::Tag::BlockQuote,
        Tag::CodeBlock(None) => cm::Tag::CodeBlock(cm::CodeBlockKind::Indented),
        Tag::CodeBlock(Some(s)) => cm::Tag::CodeBlock(cm::CodeBlockKind::Fenced(s.into())),
        Tag::List(n) => cm::Tag::List(n),
        Tag::Item => cm::Tag::Item,
        Tag::FootnoteDefinition(s) => cm::Tag::FootnoteDefinition(s.into()),
        Tag::Table(a) => cm::Tag::Table(a.into_iter().map(|x| match x {
            Alignment::Unaligned => cm::Alignment::None,
            Alignment::Left => cm::Alignment::Left,
            Alignment::Center => cm::Alignment::Center,
            Alignment::Right => cm::Alignment::Right,
        }).collect()),
        Tag::TableHead => cm::Tag::TableHead,
        Tag::TableRow => cm::Tag::TableRow,
        Tag::TableCell => cm::Tag::TableCell,
        Tag::Emphasis => cm::Tag::Emphasis,
        Tag::Strong => cm::Tag::Strong,
        Tag::Strikethrough => cm::Tag::Strikethrough,
        Tag::Link(k, u, t) => cm::Tag::Link(cm_link_type(k), u.into(), t.into()),
        Tag::Image(k, u, t) => cm::Tag::Image(cm_link_type(k), u.into(), t.into()),
    }
}

fn event(e: cm::Event) -> Event {
    match e {
        cm::Event::Start(t) => Event::Start(tag(t)),
        cm::Event::End(t) => Event::End(tag(t)),
        cm::Event::Text(s) => Event::Text(s.to_string()),
        cm::Event::Code(s) => Event::Code(s.to_string()),
        cm::Event::Html(s) => Event::Html(s.to_string()),
        cm::Event::FootnoteReference(s) => Event::FootnoteReference(s.to_string()),
        cm::Event::SoftBreak => Event::SoftBreak,
        cm::Event::HardBreak => Event::HardBreak,
        cm::Event::Rule => Event::Rule,
        cm::Event::TaskListMarker(b) => Event::TaskListMarker(b),
    }
}

fn cm_event(e: Event) -> cm::Event<'static> {
    match e {
        Event::Start(t) => cm::Event::Start(cm_tag(t)),
        Event::End(t) => cm::Event::End(cm_tag(t)),
        Event::Text(s) => cm::Event::Text(s.into()),
        Event::Code(s) => cm::Event::Code(s.into()),
        Event::Html(s) => cm::Event::Html(s.into()),
        Event::FootnoteReference(s) => cm::Event::FootnoteReference(s.into()),
        Event::SoftBreak => cm::Event::SoftBreak,
        Event::HardBreak => cm::Event::HardBreak,
        Event::Rule => cm::Event::Rule,
        Event::TaskListMarker(b) => cm::Event::TaskListMarker(b),
    }
}

fn engine_events(s: &str) -> Vec<Event> {
    let mut engine = MdPlayScript::new(Parser::new(s).map(event).collect::<VecDeque<_>>());
    let mut out = Vec::new();
    while let Some(e) = engine.next() {
        out.push(e);
    }
    out
}

fn engine_html(s: &str) -> String {
    let mut buf = String::new();
    push_html(&mut buf, engine_events(s).into_iter().map(cm_event));
    buf
}

#[test]
fn consume() {
    let s = r#"A> xxx
\ruby
B> Hello

This is a normal line.

<!-- playscript-monologue-begin -->
Monologue
<!-- playscript-monologue-end -->

A> What?
????
B> !!!!
A> ...."#;
    for e in engine_events(s) {
        println!("{:?}", e);
    }

    let buf = engine_html(s);

    println!("{}", buf);
}

#[test]
fn text_without_dialect_marks_renders_as_upstream() {
    let s = "Hello *world*,\nhow are you?\n\nA second paragraph with `code`.\n\n* one\n* two\n";
    let mut upstream = String::new();
    push_html(&mut upstream, Parser::new(s));
    assert_eq!(engine_html(s), upstream);
}

#[test]
fn dialogue_renders_speeches() {
    let html = engine_html("A> Hello! (waving)\nB> Hi!");
    assert!(html.contains("<div class=\"speech\"><h5 id=\"D0\">"));
    assert!(html.contains("<span class=\"character\">A</span>"));
    assert!(html.contains("<span class=\"direction\">waving</span>"));
    assert!(html.contains("<h5 id=\"D1\">"));
    assert!(html.contains("<span class=\"character\">B</span>"));
}

#[test]
fn multi_line_speeches_split_by_headings() {
    let s = "A> Hello!\nHow are you?\nB> Hi! (running)\nI'm fine.\nAnd you?\nA> *Good!*";
    let mut upstream: VecDeque<Event> = Parser::new(s).map(event).collect();
    assert_eq!(upstream.pop_front(), Some(Event::Start(Tag::Paragraph)));
    let mut speeches = Speeches::new(FuseOnParagraphEnd::new(upstream));
    let mut lines = Vec::new();
    while let Some(line) = speeches.next() {
        lines.push(line);
    }
    assert_eq!(lines.len(), 3);
    for (line, name) in lines.iter().zip(["A", "B", "A"]) {
        assert_eq!(line[0], Token::Text(TextToken::PlainText(name.into())));
        assert_eq!(line[1], Token::Text(TextToken::Rangle));
    }
    assert_eq!(lines[0].last(), Some(&Token::Event(Event::SoftBreak)));
    assert_eq!(lines[2].last(), Some(&Token::Event(Event::End(Tag::Emphasis))));
    assert!(speeches.into_inner().into_inner().is_empty());
}
