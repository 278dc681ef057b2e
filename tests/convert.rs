use mdplayscript::convert::Convert;
use mdplayscript::event::{Event, Tag};
use mdplayscript::mdfilter::find_custom_id;
use mdplayscript::preprocessor::PlayScriptPreprocessor;

#[test]
fn text_is_escaped() {
    let c = Convert::new();
    assert_eq!(c.text("a<b & \"c\">"), "a&lt;b &amp; &quot;c&quot;&gt;");
    assert_eq!(c.text("plain é"), "plain é");
    assert_eq!(c.code("x<y"), "<code>x&lt;y</code>");
}

#[test]
fn tags_render_and_nest() {
    let mut c = Convert::new();
    let mut out = String::new();
    for e in [
        Event::Start(Tag::Heading(2)),
        Event::Text("T".into()),
        Event::End(Tag::Heading(2)),
        Event::Start(Tag::List(Some(3))),
        Event::Start(Tag::Item),
        Event::Text("a".into()),
        Event::End(Tag::Item),
        Event::End(Tag::List(Some(3))),
        Event::Start(Tag::Heading(9)),
        Event::End(Tag::Heading(9)),
        Event::Start(Tag::Paragraph),
        Event::Text("x".into()),
        Event::SoftBreak,
        Event::Start(Tag::Emphasis),
        Event::Text("y".into()),
        Event::End(Tag::Emphasis),
        Event::End(Tag::Paragraph),
    ] {
        out.push_str(&c.event(e));
    }
    assert_eq!(
        out,
        "<h2>T</h2>\n<ol start=\"3\"><li>a</li>\n</ol>\n<h6></h6>\n<p>x\ny\n</p>\n"
    );
    assert_eq!(c.innermost(), None);
}

#[test]
fn innermost_is_the_last_open_tag() {
    let mut c = Convert::new();
    c.event(Event::Start(Tag::List(None)));
    c.event(Event::Start(Tag::Item));
    assert_eq!(c.innermost(), Some(&Tag::Item));
    assert_eq!(c.event(Event::End(Tag::Item)), "</li>\n");
    assert_eq!(c.event(Event::End(Tag::List(None))), "</ul>\n");
}

#[test]
fn custom_heading_ids() {
    assert_eq!(find_custom_id("Title {#intro}"), ("Title", Some("intro")));
    assert_eq!(find_custom_id("Title {#intro"), ("Title {#intro", None));
    assert_eq!(find_custom_id("Title"), ("Title", None));
    assert_eq!(find_custom_id("{#a}"), ("", Some("a")));
}

#[test]
fn only_html_is_supported() {
    let p = PlayScriptPreprocessor::new();
    assert!(p.supports_renderer("html"));
    assert!(!p.supports_renderer("markdown"));
    assert!(!p.supports_renderer("htm"));
}
