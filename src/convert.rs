//! An HTML writer for a subset of the markup: headings, paragraphs, lists,
//! text and code. It gives the HTML for each event; the caller writes it.
use vstd::prelude::*;
use vstd::string::StringExecFns;
use crate::event::{Event, EventV, Tag};
use crate::text::{decimal_spec, decimal_string};

verus! {

/// The HTML escape of one character.
pub open spec fn escape_char(c: char) -> Seq<char> {
    if c == '"' {
        "&quot;"@
    } else if c == '&' {
        "&amp;"@
    } else if c == '<' {
        "&lt;"@
    } else if c == '>' {
        "&gt;"@
    } else {
        seq![c]
    }
}

/// `s` with `"`, `&`, `<` and `>` escaped for HTML.
pub open spec fn html_escaped(s: Seq<char>) -> Seq<char>
    decreases s.len(),
{
    if s.len() == 0 {
        seq![]
    } else {
        escape_char(s[0]) + html_escaped(s.drop_first())
    }
}

/// Relies on `pulldown_cmark::escape::escape_html`, writing into a `String`
/// (which never fails): `"`, `&`, `<` and `>` become `&quot;`, `&amp;`,
/// `&lt;` and `&gt;`, every other character is kept.
#[verifier::external_body]
fn escape_html_string(s: &str) -> (r: String)
    ensures
        r@ == html_escaped(s@),
{
    let mut out = String::new();
    let _ = pulldown_cmark::escape::escape_html(&mut out, s);
    out
}

/// The opening HTML of a tag; empty for the tags this writer skips.
pub open spec fn start_tag_html(t: Tag) -> Seq<char> {
    match t {
        Tag::Heading(level) => if level <= 6 {
            "<h"@ + decimal_spec(level as nat) + ">"@
        } else {
            "<h6>"@
        },
        Tag::Paragraph => "<p>"@,
        Tag::List(Some(n)) => "<ol start=\""@ + decimal_spec(n as nat) + "\">"@,
        Tag::List(None) => "<ul>"@,
        Tag::Item => "<li>"@,
        _ => seq![],
    }
}

/// The closing HTML of a tag; empty for the tags this writer skips.
pub open spec fn end_tag_html(t: Tag) -> Seq<char> {
    match t {
        Tag::Heading(level) => if level <= 6 {
            "</h"@ + decimal_spec(level as nat) + ">"@
        } else {
            "</h6>"@
        },
        Tag::Paragraph => "</p>"@,
        Tag::List(Some(_)) => "</ol>"@,
        Tag::List(None) => "</ul>"@,
        Tag::Item => "</li>"@,
        _ => seq![],
    }
}

/// The HTML of one event; an end tag is followed by a line break.
pub open spec fn event_html(e: EventV) -> Seq<char> {
    match e {
        EventV::Start(t) => start_tag_html(t),
        EventV::End(t) => end_tag_html(t) + "\n"@,
        EventV::Text(s) => html_escaped(s),
        EventV::Code(s) => "<code>"@ + html_escaped(s) + "</code>"@,
        EventV::SoftBreak => "\n"@,
        _ => seq![],
    }
}

fn concat3(a: &str, b: &str, c: &str) -> (r: String)
    ensures
        r@ == a@ + b@ + c@,
{
    let mut r = a.to_owned();
    r.append(b);
    r.append(c);
    r
}

/// Writes HTML for events, keeping the stack of open tags.
pub struct Convert {
    context: Vec<Tag>,
}

impl Convert {
    /// The tags opened and not closed yet, innermost last.
    pub closed spec fn open_tags(&self) -> Seq<Tag> {
        self.context@
    }

    pub fn new() -> (r: Self)
        ensures
            r.open_tags().len() == 0,
    {
        Convert { context: Vec::new() }
    }

    /// The innermost open tag.
    pub fn innermost(&self) -> (r: Option<&Tag>)
        ensures
            r == (if self.open_tags().len() > 0 { Some(&self.open_tags().last()) } else { None }),
    {
        let n = self.context.len();
        if n > 0 {
            Some(&self.context[n - 1])
        } else {
            None
        }
    }

    pub fn start_heading(&self, level: u32) -> (r: String)
        ensures
            r@ == start_tag_html(Tag::Heading(level)),
    {
        if level <= 6 {
            let n = decimal_string(level as u64);
            concat3("<h", n.as_str(), ">")
        } else {
            "<h6>".to_owned()
        }
    }

    pub fn end_heading(&self, level: u32) -> (r: String)
        ensures
            r@ == end_tag_html(Tag::Heading(level)),
    {
        if level <= 6 {
            let n = decimal_string(level as u64);
            concat3("</h", n.as_str(), ">")
        } else {
            "</h6>".to_owned()
        }
    }

    pub fn start_paragraph(&self) -> (r: String)
        ensures
            r@ == start_tag_html(Tag::Paragraph),
    {
        "<p>".to_owned()
    }

    pub fn end_paragraph(&self) -> (r: String)
        ensures
            r@ == end_tag_html(Tag::Paragraph),
    {
        "</p>".to_owned()
    }

    pub fn start_list(&self, number: Option<u64>) -> (r: String)
        ensures
            r@ == start_tag_html(Tag::List(number)),
    {
        match number {
            Some(n) => {
                let d = decimal_string(n);
                concat3("<ol start=\"", d.as_str(), "\">")
            },
            None => "<ul>".to_owned(),
        }
    }

    pub fn end_list(&self, number: Option<u64>) -> (r: String)
        ensures
            r@ == end_tag_html(Tag::List(number)),
    {
        match number {
            Some(_) => "</ol>".to_owned(),
            None => "</ul>".to_owned(),
        }
    }

    pub fn start_list_item(&self) -> (r: String)
        ensures
            r@ == start_tag_html(Tag::Item),
    {
        "<li>".to_owned()
    }

    pub fn end_list_item(&self) -> (r: String)
        ensures
            r@ == end_tag_html(Tag::Item),
    {
        "</li>".to_owned()
    }

    pub fn start_tag(&self, tag: &Tag) -> (r: String)
        ensures
            r@ == start_tag_html(*tag),
    {
        match tag {
            Tag::Heading(level) => self.start_heading(*level),
            Tag::Paragraph => self.start_paragraph(),
            Tag::List(number) => self.start_list(*number),
            Tag::Item => self.start_list_item(),
            _ => String::new(),
        }
    }

    pub fn end_tag(&self, tag: &Tag) -> (r: String)
        ensures
            r@ == end_tag_html(*tag),
    {
        match tag {
            Tag::Heading(level) => self.end_heading(*level),
            Tag::Paragraph => self.end_paragraph(),
            Tag::List(number) => self.end_list(*number),
            Tag::Item => self.end_list_item(),
            _ => String::new(),
        }
    }

    pub fn text(&self, text: &str) -> (r: String)
        ensures
            r@ == html_escaped(text@),
    {
        escape_html_string(text)
    }

    pub fn code(&self, code: &str) -> (r: String)
        ensures
            r@ == "<code>"@ + html_escaped(code@) + "</code>"@,
    {
        let escaped = escape_html_string(code);
        concat3("<code>", escaped.as_str(), "</code>")
    }

    pub fn softbreak(&self) -> (r: String)
        ensures
            r@ == "\n"@,
    {
        "\n".to_owned()
    }

    /// The HTML of `event`. A start tag is pushed on the stack of open
    /// tags; an end tag must close the innermost open tag, which it pops.
    pub fn event(&mut self, event: Event) -> (r: String)
        requires
            event matches Event::End(t) ==> old(self).open_tags().len() > 0 && old(self).open_tags().last() == t,
        ensures
            r@ == event_html(event@),
            final(self).open_tags() == match event {
                Event::Start(t) => old(self).open_tags().push(t),
                Event::End(_) => old(self).open_tags().drop_last(),
                _ => old(self).open_tags(),
            },
    {
        match event {
            Event::Start(tag) => {
                let html = self.start_tag(&tag);
                self.context.push(tag);
                html
            },
            Event::End(tag) => {
                let _open = self.context.pop();
                let mut html = self.end_tag(&tag);
                html.append("\n");
                html
            },
            Event::Text(text) => self.text(text.as_str()),
            Event::Code(code) => self.code(code.as_str()),
            Event::SoftBreak => self.softbreak(),
            _ => String::new(),
        }
    }
}

} // verus!
