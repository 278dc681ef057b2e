use std::collections::VecDeque;
use mdplayscript::event::Event;
use mdplayscript::parser::{find_one_char, is_speech_start, split_speech_heading, FuseOnParagraphEnd, Speeches};
use mdplayscript::event::Tag;
use mdplayscript::token::{Token, TextToken};

fn plain(s: &str) -> Token {
    Token::Text(TextToken::PlainText(s.to_owned()))
}

#[test]
fn find_single_right_angle() {
    assert_eq!(find_one_char("A> xxx", '>'), Some(1));
    assert_eq!(find_one_char("AAA>", '>'), Some(3));
}

#[test]
fn find_one_char_with_angles() {
    assert_eq!(find_one_char("A>> xxx", '>'), None);
    assert_eq!(find_one_char("AAA>>>", '>'), None);
}

#[test]
fn split_speech_line() {
    assert_eq!(split_speech_heading("A> xxx"), Some(("A", " xxx")));
    assert_eq!(split_speech_heading("AAA>"), Some(("AAA", "")));
    assert_eq!(split_speech_heading("A (ddd)>"), Some(("A (ddd)", "")));
}

#[test]
fn split_normal_line() {
    assert_eq!(split_speech_heading("A xxx"), None);
    assert_eq!(split_speech_heading("AAA"), None);
}

#[test]
fn speech_start_needs_a_heading_pattern() {
    assert!(is_speech_start("A> Hello"));
    assert!(is_speech_start("A (running)> Hello!"));
    assert!(!is_speech_start("Hello"));
    assert!(!is_speech_start("A (b) c> x"));
    assert!(!is_speech_start("A>> x"));
}

fn lines_of(events: Vec<Event>) -> Vec<Vec<Token>> {
    let mut speeches = Speeches::new(FuseOnParagraphEnd::new(VecDeque::from(events)));
    let mut lines = Vec::new();
    while let Some(line) = speeches.next() {
        lines.push(line);
    }
    lines
}

#[test]
fn two_speeches_split_at_the_soft_break() {
    let lines = lines_of(vec![
        Event::Text("A> Hi!".into()),
        Event::SoftBreak,
        Event::Text("B> Bye!".into()),
        Event::End(Tag::Paragraph),
    ]);
    assert_eq!(lines, vec![
        vec![plain("A"), Token::Text(TextToken::Rangle), plain(" Hi!"), Token::Event(Event::SoftBreak)],
        vec![plain("B"), Token::Text(TextToken::Rangle), plain(" Bye!")],
    ]);
}

#[test]
fn continued_speech_stays_one_line() {
    let lines = lines_of(vec![
        Event::Text("A> Hi!".into()),
        Event::SoftBreak,
        Event::Text("still talking".into()),
        Event::End(Tag::Paragraph),
    ]);
    assert_eq!(lines.len(), 1);
    assert_eq!(lines[0], vec![
        plain("A"),
        Token::Text(TextToken::Rangle),
        plain(" Hi!"),
        Token::Event(Event::SoftBreak),
        plain("still talking"),
    ]);
}

#[test]
fn tokenizer_stops_at_the_paragraph_end() {
    let upstream = VecDeque::from(vec![
        Event::Text("a (b)".into()),
        Event::Start(Tag::Emphasis),
        Event::Text("(c)".into()),
        Event::End(Tag::Emphasis),
        Event::End(Tag::Paragraph),
        Event::Start(Tag::Paragraph),
    ]);
    let mut p = FuseOnParagraphEnd::new(upstream);
    let mut tokens = Vec::new();
    while let Some(t) = p.next() {
        tokens.push(t);
    }
    assert_eq!(tokens, vec![
        plain("a "),
        Token::Text(TextToken::LeftParen),
        plain("b"),
        Token::Text(TextToken::RightParen),
        Token::Event(Event::Start(Tag::Emphasis)),
        Token::Event(Event::Text("(c)".into())),
        Token::Event(Event::End(Tag::Emphasis)),
    ]);
    assert_eq!(p.next(), None);
    let rest: Vec<Event> = p.into_inner().into_iter().collect();
    assert_eq!(rest, vec![Event::Start(Tag::Paragraph)]);
}
