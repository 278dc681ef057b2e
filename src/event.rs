//! The markup events that the engine consumes and produces, and their
//! mathematical model.
use vstd::prelude::*;

verus! {

#[derive(Clone, Copy, Debug, PartialEq, Eq)]
pub enum Alignment {
    Unaligned,
    Left,
    Center,
    Right,
}

#[derive(Clone, Copy, Debug, PartialEq, Eq)]
pub enum LinkType {
    Inline,
    Reference,
    ReferenceUnknown,
    Collapsed,
    CollapsedUnknown,
    Shortcut,
    ShortcutUnknown,
    Autolink,
    Email,
}

/// A block or inline container of the markup.
#[derive(Clone, Debug, PartialEq, Eq)]
pub enum Tag {
    Paragraph,
    Heading(u32),
    BlockQuote,
    /// `None` for an indented block, else the info string of a fenced one.
    CodeBlock(Option<String>),
    List(Option<u64>),
    Item,
    FootnoteDefinition(String),
    Table(Vec<Alignment>),
    TableHead,
    TableRow,
    TableCell,
    Emphasis,
    Strong,
    Strikethrough,
    Link(LinkType, String, String),
    Image(LinkType, String, String),
}

/// One event of a markup stream.
#[derive(Clone, Debug, PartialEq, Eq)]
pub enum Event {
    Start(Tag),
    End(Tag),
    Text(String),
    Code(String),
    Html(String),
    FootnoteReference(String),
    SoftBreak,
    HardBreak,
    Rule,
    TaskListMarker(bool),
}

/// The model of an [`Event`]: strings are character sequences.
pub enum EventV {
    Start(Tag),
    End(Tag),
    Text(Seq<char>),
    Code(Seq<char>),
    Html(Seq<char>),
    FootnoteReference(Seq<char>),
    SoftBreak,
    HardBreak,
    Rule,
    TaskListMarker(bool),
}

impl View for Event {
    type V = EventV;

    open spec fn view(&self) -> EventV {
        match self {
            Event::Start(t) => EventV::Start(*t),
            Event::End(t) => EventV::End(*t),
            Event::Text(s) => EventV::Text(s@),
            Event::Code(s) => EventV::Code(s@),
            Event::Html(s) => EventV::Html(s@),
            Event::FootnoteReference(s) => EventV::FootnoteReference(s@),
            Event::SoftBreak => EventV::SoftBreak,
            Event::HardBreak => EventV::HardBreak,
            Event::Rule => EventV::Rule,
            Event::TaskListMarker(b) => EventV::TaskListMarker(*b),
        }
    }
}

/// The models of a sequence of events.
pub open spec fn events_view(s: Seq<Event>) -> Seq<EventV> {
    s.map_values(|e: Event| e@)
}

/// An event that carries no markup of the dialect: everything but text,
/// soft breaks, raw HTML and paragraph boundaries.
pub open spec fn is_structural(e: EventV) -> bool {
    match e {
        EventV::Start(t) => !(t is Paragraph),
        EventV::End(t) => !(t is Paragraph),
        EventV::Text(_) => false,
        EventV::Html(_) => false,
        EventV::SoftBreak => false,
        _ => true,
    }
}

pub open spec fn structural_pred() -> spec_fn(EventV) -> bool {
    |e: EventV| is_structural(e)
}

/// The structural events of `s`, in order.
pub open spec fn structural(s: Seq<EventV>) -> Seq<EventV> {
    s.filter(structural_pred())
}

pub proof fn lemma_structural_add(a: Seq<EventV>, b: Seq<EventV>)
    ensures
        structural(a + b) == structural(a) + structural(b),
{
    Seq::filter_distributes_over_add(a, b, structural_pred());
}

/// Two sequences that agree on their structural events, position by
/// position, have the same structural events.
pub proof fn lemma_same_structure(a: Seq<EventV>, b: Seq<EventV>)
    requires
        a.len() == b.len(),
        forall|i: int| 0 <= i < a.len() ==> is_structural(#[trigger] a[i]) == is_structural(b[i]),
        forall|i: int| 0 <= i < a.len() && is_structural(#[trigger] a[i]) ==> a[i] == b[i],
    ensures
        structural(a) == structural(b),
    decreases a.len(),
{
    reveal(Seq::filter);
    if a.len() > 0 {
        lemma_same_structure(a.drop_last(), b.drop_last());
        assert(is_structural(a.last()) == is_structural(b.last()));
    }
}

/// A sequence without structural events has none to keep.
pub proof fn lemma_no_structure(a: Seq<EventV>)
    requires
        forall|i: int| 0 <= i < a.len() ==> !is_structural(#[trigger] a[i]),
    ensures
        structural(a) == Seq::<EventV>::empty(),
    decreases a.len(),
{
    reveal(Seq::filter);
    if a.len() > 0 {
        lemma_no_structure(a.drop_last());
        assert(!is_structural(a.last()));
    }
}

pub proof fn lemma_structural_one(e: EventV)
    ensures
        structural(seq![e]) == (if is_structural(e) { seq![e] } else { Seq::<EventV>::empty() }),
{
    reveal(Seq::filter);
    let p = structural_pred();
    assert(seq![e].drop_last() =~= Seq::<EventV>::empty());
    assert(seq![e].last() == e);
    assert(Seq::<EventV>::empty().filter(p) =~= Seq::<EventV>::empty());
    assert(Seq::<EventV>::empty().push(e) =~= seq![e]);
}

pub open spec fn is_text(e: EventV) -> bool {
    e is Text
}

pub open spec fn non_text_pred() -> spec_fn(EventV) -> bool {
    |e: EventV| !is_text(e)
}

/// The events of `s` that are not text, in order.
pub open spec fn non_text(s: Seq<EventV>) -> Seq<EventV> {
    s.filter(non_text_pred())
}

pub proof fn lemma_non_text_add(a: Seq<EventV>, b: Seq<EventV>)
    ensures
        non_text(a + b) == non_text(a) + non_text(b),
{
    Seq::filter_distributes_over_add(a, b, non_text_pred());
}

pub proof fn lemma_no_non_text(a: Seq<EventV>)
    requires
        forall|i: int| 0 <= i < a.len() ==> is_text(#[trigger] a[i]),
    ensures
        non_text(a) == Seq::<EventV>::empty(),
    decreases a.len(),
{
    reveal(Seq::filter);
    if a.len() > 0 {
        lemma_no_non_text(a.drop_last());
        assert(is_text(a.last()));
    }
}

pub proof fn lemma_non_text_one(e: EventV)
    ensures
        non_text(seq![e]) == (if !is_text(e) { seq![e] } else { Seq::<EventV>::empty() }),
{
    reveal(Seq::filter);
    let p = non_text_pred();
    assert(seq![e].drop_last() =~= Seq::<EventV>::empty());
    assert(seq![e].last() == e);
    assert(Seq::<EventV>::empty().filter(p) =~= Seq::<EventV>::empty());
    assert(Seq::<EventV>::empty().push(e) =~= seq![e]);
}

/// Appends `e` to `events`.
pub fn push_event(events: &mut Vec<Event>, e: Event)
    ensures
        final(events)@ == old(events)@.push(e),
        events_view(final(events)@) == events_view(old(events)@).push(e@),
{
    events.push(e);
    assert(events_view(events@) =~= events_view(old(events)@).push(e@));
}

/// Moves the events of `other` to the end of `events`.
pub fn append_events(events: &mut Vec<Event>, other: Vec<Event>)
    ensures
        events_view(final(events)@) == events_view(old(events)@) + events_view(other@),
{
    let mut other = other;
    let ghost o = other@;
    events.append(&mut other);
    assert(events_view(events@) =~= events_view(old(events)@) + events_view(o));
}

} // verus!
