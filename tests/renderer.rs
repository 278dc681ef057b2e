use mdplayscript::event::{Event, Tag};
use mdplayscript::renderer::{replace_softbreaks, HtmlRenderer};
use mdplayscript::speech::{Direction, Heading, Inline};

#[test]
fn render_direction_to_html() {
    let input = vec![
        Event::Text(" running ".into()),
    ];
    let expected = vec![
        Event::Html(r#"<span class="direction">"#.into()),
        Event::Text("running".into()),
        Event::Html("</span>".into()),
    ];
    let mut result = Vec::new();
    HtmlRenderer::default().render_direction(Direction(input), true, &mut result);
    assert_eq!(result, expected);
}

#[test]
fn render_direction_with_em_to_html() {
    let input = vec![
        Event::Text(" aaa ".into()),
        Event::Start(Tag::Emphasis),
        Event::Text("bbb".into()),
        Event::End(Tag::Emphasis),
        Event::Text(" ccc ".into()),
    ];
    let expected = vec![
        Event::Html(r#"<span class="direction">"#.into()),
        Event::Text("aaa ".into()),
        Event::Start(Tag::Emphasis),
        Event::Text("bbb".into()),
        Event::End(Tag::Emphasis),
        Event::Text(" ccc".into()),
        Event::Html("</span>".into()),
    ];
    let mut result = Vec::new();
    HtmlRenderer::default().render_direction(Direction(input), true, &mut result);
    assert_eq!(result, expected);
}

#[test]
fn render_heading_of_only_character_to_html() {
    let input = Heading {
        character: "A".into(),
        direction: Direction::new(),
    };
    let expected = vec![
        Event::Html(r#"<h5 id="D0">"#.into()),
        Event::Html(r##"<a class="header" href="#D0">"##.into()),
        Event::Html(r#"<span class="character">"#.into()),
        Event::Text("A".into()),
        Event::Html("</span>".into()),
        Event::Html("</a>".into()),
        Event::Html("</h5>".into()),
    ];
    let mut result = Vec::new();
    HtmlRenderer::default().render_heading(input, &mut result);
    assert_eq!(result, expected);
}

#[test]
fn render_heading_with_direction() {
    let input = Heading {
        character: "A".into(),
        direction: Direction(vec![Event::Text("running".into())]),
    };
    let expected = vec![
        Event::Html(r#"<h5 id="D0">"#.into()),
        Event::Html(r##"<a class="header" href="#D0">"##.into()),
        Event::Html(r#"<span class="character">"#.into()),
        Event::Text("A".into()),
        Event::Html("</span>".into()),
        Event::Html(r#"<span class="direction">"#.into()),
        Event::Text("running".into()),
        Event::Html("</span>".into()),
        Event::Html("</a>".into()),
        Event::Html("</h5>".into()),
    ];
    let mut result = Vec::new();
    HtmlRenderer::default().render_heading(input, &mut result);
    assert_eq!(result, expected);
}

#[test]
fn render_body_to_html() {
    let input = vec![
        Inline::Event(Event::Text("Hello! ".into())),
        Inline::Direction(Direction(vec![Event::Text("run".into())])),
        Inline::Event(Event::Text(" Hello!".into())),
    ];
    let expected = vec![
        Event::Html("<p>".into()),
        Event::Html("<span>".into()),
        Event::Text("Hello!".into()),
        Event::Html("</span>".into()),
        Event::Html(r#"<span class="direction">"#.into()),
        Event::Text("run".into()),
        Event::Html("</span>".into()),
        Event::Html("<span>".into()),
        Event::Text("Hello!".into()),
        Event::Html("</span>".into()),
        Event::Html("</p>".into()),
    ];
    let mut result = Vec::new();
    HtmlRenderer::default().render_body(input, &mut result);
    assert_eq!(result, expected);
}

#[test]
fn render_body_with_softbreaks_to_html() {
    let input = vec![
        Inline::Event(Event::Text("Hello!".into())),
        Inline::Event(Event::SoftBreak),
        Inline::Event(Event::Text("Hello!".into())),
        Inline::Event(Event::SoftBreak),
        Inline::Event(Event::Text("Hello!".into())),
    ];
    let expected = vec![
        Event::Html("<p>".into()),
        Event::Html("<span>".into()),
        Event::Text("Hello!".into()),
        Event::Text(" ".into()),
        Event::Text("Hello!".into()),
        Event::Text(" ".into()),
        Event::Text("Hello!".into()),
        Event::Html("</span>".into()),
        Event::Html("</p>".into()),
    ];
    let mut result = Vec::new();
    HtmlRenderer::default().render_body(input, &mut result);
    assert_eq!(result, expected);
}

#[test]
fn render_body_with_softbreaks_and_direction_to_html() {
    let input = vec![
        Inline::Event(Event::Text("Hello!".into())),
        Inline::Event(Event::SoftBreak),
        Inline::Direction(Direction(vec![Event::Text("running".into())])),
        Inline::Event(Event::SoftBreak),
        Inline::Event(Event::Text("Hello!".into())),
    ];
    let expected = vec![
        Event::Html("<p>".into()),
        Event::Html("<span>".into()),
        Event::Text("Hello!".into()),
        Event::Text("".into()),
        Event::Html("</span>".into()),
        Event::Html("<span class=\"direction\">".into()),
        Event::Text("running".into()),
        Event::Html("</span>".into()),
        Event::Html("<span>".into()),
        Event::Text("".into()),
        Event::Text("Hello!".into()),
        Event::Html("</span>".into()),
        Event::Html("</p>".into()),
    ];
    let mut result = Vec::new();
    HtmlRenderer::default().render_body(input, &mut result);
    assert_eq!(result, expected);
}

#[test]
fn heading_counter_numbers_each_heading() {
    let mut r = HtmlRenderer::default();
    let mut out = Vec::new();
    for _ in 0..11 {
        r.render_heading(Heading { character: "A".into(), direction: Direction::new() }, &mut out);
    }
    assert_eq!(r.heading_id_counter, 11);
    assert_eq!(out[70], Event::Html(r#"<h5 id="D10">"#.into()));
    assert_eq!(out[71], Event::Html(r##"<a class="header" href="#D10">"##.into()));
}

#[test]
fn empty_direction_renders_nothing() {
    let mut out = vec![Event::Text("x ".into())];
    HtmlRenderer::default().render_direction(Direction::new(), true, &mut out);
    assert_eq!(out, vec![Event::Text("x ".into())]);
}

#[test]
fn replace_softbreaks_only_when_asked() {
    let mut v = vec![Inline::Event(Event::SoftBreak), Inline::Event(Event::Text("a".into()))];
    replace_softbreaks(&mut v, None);
    assert_eq!(v[0], Inline::Event(Event::SoftBreak));
    let s = "~".to_owned();
    replace_softbreaks(&mut v, Some(&s));
    assert_eq!(v[0], Inline::Event(Event::Text("~".into())));
}

#[test]
fn render_events_keeps_events_without_replacement() {
    let mut r = HtmlRenderer::default();
    r.replace_softbreak = None;
    let mut out = Vec::new();
    r.render_events(vec![Event::Text("a".into()), Event::SoftBreak, Event::Code("c".into())], &mut out);
    assert_eq!(out, vec![Event::Text("a".into()), Event::SoftBreak, Event::Code("c".into())]);
}
