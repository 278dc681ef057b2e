//! Rendering of speeches, directions and plain lines into markup events.
use vstd::prelude::*;
use vstd::string::StringExecFns;
use crate::event::{
    append_events, events_view, is_structural, lemma_no_structure, lemma_same_structure, lemma_structural_add,
    lemma_structural_one, push_event, structural, Event, EventV,
};
use crate::speech::{inlines_view, Direction, Heading, Inline, InlineV, Speech, HeadingV, SpeechV};
use crate::speech::{flat_inlines, inline_events, into_deque, lemma_flat_add, lemma_flat_one};
use crate::text::{decimal_spec, decimal_string, trim_end_spec, trim_end_string, trim_start_spec, trim_start_string};

verus! {

broadcast use vstd::std_specs::vecdeque::group_vec_dequeue_axioms;

/// Renders speeches to HTML fragments. The heading counter numbers the
/// anchors of the headings, from 0 up.
#[derive(Debug)]
pub struct HtmlRenderer {
    pub speech_class: &'static str,
    pub character_class: &'static str,
    pub direction_class: &'static str,
    pub heading_anchor_class: &'static str,
    pub heading_id_counter: usize,
    pub replace_softbreak: Option<String>,
}

impl Default for HtmlRenderer {
    fn default() -> (r: Self)
        ensures
            r.speech_class@ == "speech"@,
            r.character_class@ == "character"@,
            r.direction_class@ == "direction"@,
            r.heading_anchor_class@ == "header"@,
            r.heading_id_counter == 0,
            r.replace_softbreak matches Some(s) && s@ == " "@,
    {
        HtmlRenderer {
            speech_class: "speech",
            character_class: "character",
            direction_class: "direction",
            heading_anchor_class: "header",
            heading_id_counter: 0,
            replace_softbreak: Some(" ".to_owned()),
        }
    }
}

pub open spec fn opt_view(o: Option<String>) -> Option<Seq<char>> {
    match o {
        Some(s) => Some(s@),
        None => None,
    }
}

/// `<span class="cls">`
pub open spec fn span_open(cls: Seq<char>) -> Seq<char> {
    "<span class=\""@ + cls + "\">"@
}

/// `<div class="cls">`
pub open spec fn div_open(cls: Seq<char>) -> Seq<char> {
    "<div class=\""@ + cls + "\">"@
}

/// `<h5 id="D{id}">`
pub open spec fn h5_open(id: nat) -> Seq<char> {
    "<h5 id=\"D"@ + decimal_spec(id) + "\">"@
}

/// `<a class="cls" href="#D{id}">`
pub open spec fn anchor_open(cls: Seq<char>, id: nat) -> Seq<char> {
    "<a class=\""@ + cls + "\" href=\"#D"@ + decimal_spec(id) + "\">"@
}

/// The `i`-th event of a rendered direction: the first text loses its
/// leading whitespace when `trim_start` is set, the last text its trailing
/// whitespace.
pub open spec fn direction_item(d: Seq<EventV>, i: int, trim_start: bool) -> EventV {
    match d[i] {
        EventV::Text(s) => {
            let a = if i == 0 && trim_start { trim_start_spec(s) } else { s };
            EventV::Text(if i + 1 == d.len() { trim_end_spec(a) } else { a })
        },
        e => e,
    }
}

/// A direction rendered in a span of class `cls`; nothing when it is empty.
pub open spec fn direction_html(d: Seq<EventV>, trim_start: bool, cls: Seq<char>) -> Seq<EventV> {
    if d.len() == 0 {
        seq![]
    } else {
        seq![EventV::Html(span_open(cls))] + Seq::new(d.len(), |i: int| direction_item(d, i, trim_start))
            + seq![EventV::Html("</span>"@)]
    }
}

/// A heading: its anchor, the character, then the direction.
pub open spec fn heading_html(
    h: HeadingV,
    id: nat,
    anchor_cls: Seq<char>,
    char_cls: Seq<char>,
    dir_cls: Seq<char>,
) -> Seq<EventV> {
    seq![
        EventV::Html(h5_open(id)),
        EventV::Html(anchor_open(anchor_cls, id)),
        EventV::Html(span_open(char_cls)),
        EventV::Text(h.character),
        EventV::Html("</span>"@),
    ] + direction_html(h.direction, false, dir_cls) + seq![
        EventV::Html("</a>"@),
        EventV::Html("</h5>"@),
    ]
}

/// Soft breaks of a body replaced by the text `rep`, if there is one.
pub open spec fn replace_softbreaks_spec(inls: Seq<InlineV>, rep: Option<Seq<char>>) -> Seq<InlineV> {
    inls.map_values(|x: InlineV| match (x, rep) {
        (InlineV::Event(EventV::SoftBreak), Some(s)) => InlineV::Event(EventV::Text(s)),
        _ => x,
    })
}

/// Soft breaks of a line replaced by the text `rep`, if there is one.
pub open spec fn replace_softbreak_events(evs: Seq<EventV>, rep: Option<Seq<char>>) -> Seq<EventV> {
    evs.map_values(|e: EventV| match (e, rep) {
        (EventV::SoftBreak, Some(s)) => EventV::Text(s),
        _ => e,
    })
}

/// The state of rendering a body: what was emitted so far, whether the
/// next text follows a direction, and how many events the open plain span
/// holds.
pub struct BodyAcc {
    pub out: Seq<EventV>,
    pub trim_next: bool,
    pub count: nat,
}

/// `out` with trailing whitespace removed from its last event, if that is
/// a text.
pub open spec fn trim_end_last(out: Seq<EventV>) -> Seq<EventV> {
    if out.len() > 0 {
        match out.last() {
            EventV::Text(s) => out.drop_last().push(EventV::Text(trim_end_spec(s))),
            _ => out,
        }
    } else {
        out
    }
}

pub open spec fn open_span_if(count: nat) -> Seq<EventV> {
    if count == 0 { seq![EventV::Html("<span>"@)] } else { seq![] }
}

pub open spec fn close_span_if(count: nat) -> Seq<EventV> {
    if count > 0 { seq![EventV::Html("</span>"@)] } else { seq![] }
}

/// One inline of a body rendered after the state `acc`.
pub open spec fn body_step(acc: BodyAcc, x: InlineV, dir_cls: Seq<char>) -> BodyAcc {
    match x {
        InlineV::Event(EventV::Text(s)) => if acc.trim_next {
            BodyAcc {
                out: acc.out + open_span_if(acc.count) + seq![EventV::Text(trim_start_spec(s))],
                trim_next: false,
                count: acc.count + 1,
            }
        } else {
            BodyAcc {
                out: acc.out + open_span_if(acc.count) + seq![x->Event_0],
                trim_next: acc.trim_next,
                count: acc.count + 1,
            }
        },
        InlineV::Event(e) => BodyAcc {
            out: acc.out + open_span_if(acc.count) + seq![e],
            trim_next: acc.trim_next,
            count: acc.count + 1,
        },
        InlineV::Direction(d) => BodyAcc {
            out: trim_end_last(acc.out) + close_span_if(acc.count) + direction_html(d, true, dir_cls),
            trim_next: true,
            count: 0,
        },
    }
}

pub open spec fn body_fold(inls: Seq<InlineV>, acc: BodyAcc, dir_cls: Seq<char>) -> BodyAcc
    decreases inls.len(),
{
    if inls.len() == 0 {
        acc
    } else {
        body_fold(inls.drop_first(), body_step(acc, inls[0], dir_cls), dir_cls)
    }
}

/// A body in a paragraph: runs of plain inlines in plain spans, directions
/// in their own spans, whitespace trimmed on both sides of each direction.
pub open spec fn body_html(inls: Seq<InlineV>, dir_cls: Seq<char>) -> Seq<EventV> {
    let acc = body_fold(inls, BodyAcc { out: seq![EventV::Html("<p>"@)], trim_next: false, count: 0 }, dir_cls);
    acc.out + close_span_if(acc.count) + seq![EventV::Html("</p>"@)]
}

/// The counter after one more heading (it stops at `usize::MAX`).
pub open spec fn counter_next(c: usize) -> usize {
    if c < usize::MAX { (c + 1) as usize } else { c }
}

/// A whole speech in a `div` of class `speech_cls`.
pub open spec fn speech_html(sp: SpeechV, id: nat, r: HtmlRenderer) -> Seq<EventV> {
    seq![EventV::Html(div_open(r.speech_class@))]
        + heading_html(sp.heading, id, r.heading_anchor_class@, r.character_class@, r.direction_class@)
        + body_html(replace_softbreaks_spec(sp.body, opt_view(r.replace_softbreak)), r.direction_class@)
        + seq![EventV::Html("</div>"@)]
}

pub proof fn lemma_trim_end_last_structure(out: Seq<EventV>)
    ensures
        structural(trim_end_last(out)) == structural(out),
{
    let t = trim_end_last(out);
    assert(t.len() == out.len());
    assert forall|i: int| 0 <= i < out.len() implies is_structural(#[trigger] t[i]) == is_structural(out[i])
        && (is_structural(t[i]) ==> t[i] == out[i]) by {
        if i == out.len() - 1 {
        } else {
            assert(t[i] == out[i]);
        }
    }
    lemma_same_structure(t, out);
}

/// A rendered direction has the structural events of the direction.
pub proof fn lemma_direction_structure(d: Seq<EventV>, trim_start: bool, cls: Seq<char>)
    ensures
        structural(direction_html(d, trim_start, cls)) == structural(d),
{
    if d.len() > 0 {
        let items = Seq::new(d.len(), |i: int| direction_item(d, i, trim_start));
        assert forall|i: int| 0 <= i < items.len() implies is_structural(#[trigger] items[i]) == is_structural(d[i])
            && (is_structural(items[i]) ==> items[i] == d[i]) by {
        }
        lemma_same_structure(items, d);
        let open = seq![EventV::Html(span_open(cls))];
        let close = seq![EventV::Html("</span>"@)];
        lemma_structural_add(open + items, close);
        lemma_structural_add(open, items);
        lemma_structural_one(EventV::Html(span_open(cls)));
        lemma_structural_one(EventV::Html("</span>"@));
        assert(structural(open) + structural(items) + structural(close) =~= structural(items));
    } else {
        lemma_no_structure(d);
        lemma_no_structure(direction_html(d, trim_start, cls));
    }
}

pub proof fn lemma_replace_inlines_structure(inls: Seq<InlineV>, rep: Option<Seq<char>>)
    ensures
        structural(flat_inlines(replace_softbreaks_spec(inls, rep))) == structural(flat_inlines(inls)),
    decreases inls.len(),
{
    if inls.len() > 0 {
        let r = replace_softbreaks_spec(inls, rep);
        let rest = inls.drop_first();
        assert(r.drop_first() =~= replace_softbreaks_spec(rest, rep));
        lemma_replace_inlines_structure(rest, rep);
        lemma_structural_add(inline_events(r[0]), flat_inlines(r.drop_first()));
        lemma_structural_add(inline_events(inls[0]), flat_inlines(rest));
        match inls[0] {
            InlineV::Event(e) => {
                lemma_structural_one(e);
                lemma_structural_one(r[0]->Event_0);
            },
            _ => {},
        }
    }
}

pub proof fn lemma_open_close_structure(count: nat)
    ensures
        structural(open_span_if(count)) == Seq::<EventV>::empty(),
        structural(close_span_if(count)) == Seq::<EventV>::empty(),
{
    lemma_no_structure(open_span_if(count));
    lemma_no_structure(close_span_if(count));
}

/// Rendering the rest of a body adds the structural events of the rest.
pub proof fn lemma_body_fold_structure(inls: Seq<InlineV>, acc: BodyAcc, cls: Seq<char>)
    ensures
        structural(body_fold(inls, acc, cls).out) == structural(acc.out) + structural(flat_inlines(inls)),
    decreases inls.len(),
{
    if inls.len() == 0 {
        assert(structural(flat_inlines(inls)) == Seq::<EventV>::empty()) by {
            lemma_no_structure(flat_inlines(inls));
        }
        assert(structural(acc.out) + Seq::<EventV>::empty() =~= structural(acc.out));
    } else {
        let x = inls[0];
        let next = body_step(acc, x, cls);
        lemma_body_fold_structure(inls.drop_first(), next, cls);
        lemma_structural_add(inline_events(x), flat_inlines(inls.drop_first()));
        lemma_open_close_structure(acc.count);
        match x {
            InlineV::Event(e) => {
                lemma_structural_one(e);
                let added: Seq<EventV> = if acc.trim_next && e is Text {
                    seq![EventV::Text(trim_start_spec(e->Text_0))]
                } else {
                    seq![e]
                };
                assert(next.out == acc.out + open_span_if(acc.count) + added);
                lemma_structural_add(acc.out + open_span_if(acc.count), added);
                lemma_structural_add(acc.out, open_span_if(acc.count));
                lemma_structural_one(added[0]);
                assert(added == seq![added[0]]);
                assert(structural(next.out) =~= structural(acc.out) + structural(seq![e]));
            },
            InlineV::Direction(d) => {
                lemma_trim_end_last_structure(acc.out);
                lemma_direction_structure(d, true, cls);
                lemma_structural_add(trim_end_last(acc.out) + close_span_if(acc.count), direction_html(d, true, cls));
                lemma_structural_add(trim_end_last(acc.out), close_span_if(acc.count));
                assert(structural(next.out) =~= structural(acc.out) + structural(d));
            },
        }
    }
}

/// A rendered body has the structural events of the body.
pub proof fn lemma_body_html_structure(inls: Seq<InlineV>, cls: Seq<char>)
    ensures
        structural(body_html(inls, cls)) == structural(flat_inlines(inls)),
{
    let init = BodyAcc { out: seq![EventV::Html("<p>"@)], trim_next: false, count: 0 };
    let acc = body_fold(inls, init, cls);
    lemma_body_fold_structure(inls, init, cls);
    lemma_structural_one(EventV::Html("<p>"@));
    lemma_structural_one(EventV::Html("</p>"@));
    lemma_open_close_structure(acc.count);
    lemma_structural_add(acc.out + close_span_if(acc.count), seq![EventV::Html("</p>"@)]);
    lemma_structural_add(acc.out, close_span_if(acc.count));
    assert(Seq::<EventV>::empty() + structural(flat_inlines(inls)) =~= structural(flat_inlines(inls)));
    assert(structural(body_html(inls, cls)) =~= structural(flat_inlines(inls)));
}

/// `events` with trailing whitespace removed from its last event, if that
/// is a text.
fn trim_end_of_last(events: &mut Vec<Event>)
    ensures
        events_view(final(events)@) == trim_end_last(events_view(old(events)@)),
{
    let ghost v = events_view(events@);
    match events.pop() {
        Some(Event::Text(s)) => {
            assert(events_view(events@) =~= v.drop_last());
            let t = trim_end_string(s.as_str());
            push_event(events, Event::Text(t));
        },
        Some(event) => {
            assert(events_view(events@) =~= v.drop_last());
            push_event(events, event);
            assert(events_view(events@) =~= v);
        },
        None => {},
    }
}

/// Replaces each soft break of a body by the text `s`, if `s` is given.
pub fn replace_softbreaks(inlines: &mut Vec<Inline>, s: Option<&String>)
    ensures
        inlines_view(final(inlines)@) == replace_softbreaks_spec(
            inlines_view(old(inlines)@),
            match s {
                Some(x) => Some(x@),
                None => None,
            },
        ),
{
    let ghost rep = match s {
        Some(x) => Some(x@),
        None => None::<Seq<char>>,
    };
    let ghost all = inlines_view(inlines@);
    let n = inlines.len();
    let mut i: usize = 0;
    while i < n
        invariant
            n == inlines@.len(),
            all.len() == n,
            i <= n,
            rep == match s {
                Some(x) => Some(x@),
                None => None::<Seq<char>>,
            },
            forall|k: int| 0 <= k < i ==> #[trigger] inlines_view(inlines@)[k] == replace_softbreaks_spec(all, rep)[k],
            forall|k: int| i <= k < n ==> #[trigger] inlines_view(inlines@)[k] == all[k],
        decreases n - i,
    {
        let ghost prev = inlines@;
        let is_soft = match &inlines[i] {
            Inline::Event(Event::SoftBreak) => true,
            _ => false,
        };
        match s {
            Some(text) => {
                if is_soft {
                    inlines.set(i, Inline::Event(Event::Text(text.clone())));
                }
            },
            None => {},
        }
        proof {
            assert(inlines_view(prev)[i as int] == all[i as int]);
            assert(inlines_view(inlines@)[i as int] == replace_softbreaks_spec(all, rep)[i as int]);
            assert forall|k: int| 0 <= k < n && k != i implies #[trigger] inlines_view(inlines@)[k] == inlines_view(prev)[k] by {
                assert(inlines@[k] == prev[k]);
            }
        }
        i = i + 1;
    }
    assert(inlines_view(inlines@) =~= replace_softbreaks_spec(all, rep));
}

fn open_tag(before: &str, cls: &str, after: &str) -> (r: String)
    ensures
        r@ == before@ + cls@ + after@,
{
    let mut r = before.to_owned();
    r.append(cls);
    r.append(after);
    r
}

impl HtmlRenderer {
    /// Renders a direction in a span; the first text loses its leading
    /// whitespace when `trim_start` is set, the last its trailing
    /// whitespace. An empty direction renders as nothing.
    pub fn render_direction(&self, direction: Direction, trim_start: bool, events: &mut Vec<Event>)
        ensures
            events_view(final(events)@) == events_view(old(events)@) + direction_html(
                direction@,
                trim_start,
                self.direction_class@,
            ),
    {
        let ghost d = direction@;
        let len = direction.0.len();
        if len == 0 {
            assert(events_view(events@) =~= events_view(events@) + Seq::<EventV>::empty());
            return;
        }
        let ghost start = events_view(events@);
        push_event(events, html(open_tag("<span class=\"", self.direction_class, "\">")));
        let mut q = into_deque(direction.0);
        let mut index: usize = 0;
        while index < len
            invariant
                len == d.len(),
                index <= len,
                q@.len() == len - index,
                events_view(q@) == d.skip(index as int),
                events_view(events@) == start + seq![EventV::Html(span_open(self.direction_class@))]
                    + Seq::new(index as nat, |i: int| direction_item(d, i, trim_start)),
            decreases len - index,
        {
            let ghost before = events_view(events@);
            let ghost q_old = q@;
            let inline = q.pop_front().unwrap();
            proof {
                assert(q@ == q_old.drop_first());
                assert(events_view(q_old)[0] == d[index as int]);
                assert(inline@ == d[index as int]);
                assert(events_view(q@) =~= events_view(q_old).drop_first());
                assert(events_view(q@) =~= d.skip(index + 1));
            }
            match inline {
                Event::Text(s) => {
                    let a = if index == 0 && trim_start {
                        trim_start_string(s.as_str())
                    } else {
                        s
                    };
                    let b = if index + 1 == len {
                        trim_end_string(a.as_str())
                    } else {
                        a
                    };
                    push_event(events, Event::Text(b));
                },
                event => {
                    push_event(events, event);
                },
            }
            proof {
                assert(events_view(events@) =~= start + seq![EventV::Html(span_open(self.direction_class@))]
                    + Seq::new((index + 1) as nat, |i: int| direction_item(d, i, trim_start)));
            }
            index = index + 1;
        }
        push_event(events, html(literal_string("</span>")));
    }

    /// Renders a body in a paragraph, after soft-break replacement: plain
    /// runs in plain spans, each direction in its own span, with the text
    /// that touches a direction trimmed on that side.
    pub fn render_body(&self, body: Vec<Inline>, events: &mut Vec<Event>)
        ensures
            events_view(final(events)@) == events_view(old(events)@) + body_html(
                replace_softbreaks_spec(inlines_view(body@), opt_view(self.replace_softbreak)),
                self.direction_class@,
            ),
    {
        let mut body = body;
        replace_softbreaks(&mut body, self.replace_softbreak.as_ref());
        let ghost all = inlines_view(body@);
        let ghost cls = self.direction_class@;
        let ghost init = BodyAcc { out: seq![EventV::Html("<p>"@)], trim_next: false, count: 0 };
        let mut out: Vec<Event> = Vec::new();
        push_event(&mut out, html(literal_string("<p>")));
        let mut to_be_trimmed_start = false;
        let mut event_count: usize = 0;
        let mut q = into_deque(body);
        let n = q.len();
        let mut k: usize = 0;
        assert(events_view(out@) =~= seq![EventV::Html("<p>"@)]);
        while q.len() > 0
            invariant
                cls == self.direction_class@,
                n == all.len(),
                k <= n,
                q@.len() == n - k,
                event_count <= k,
                inlines_view(q@) == all.skip(k as int),
                body_fold(all, init, cls) == body_fold(
                    inlines_view(q@),
                    BodyAcc { out: events_view(out@), trim_next: to_be_trimmed_start, count: event_count as nat },
                    cls,
                ),
            decreases q@.len(),
        {
            let ghost rest = inlines_view(q@);
            let ghost acc = BodyAcc { out: events_view(out@), trim_next: to_be_trimmed_start, count: event_count as nat };
            let ghost q_old = q@;
            let inline = q.pop_front().unwrap();
            proof {
                assert(q@ == q_old.drop_first());
                assert(rest[0] == inline@);
                assert(inlines_view(q@) =~= rest.drop_first());
                assert(all.skip(k as int).drop_first() =~= all.skip(k + 1));
            }
            match inline {
                Inline::Event(Event::Text(s)) if to_be_trimmed_start => {
                    if event_count == 0 {
                        push_event(&mut out, html(literal_string("<span>")));
                    }
                    let t = trim_start_string(s.as_str());
                    push_event(&mut out, Event::Text(t));
                    proof {
                        assert(rest[0] == InlineV::Event(EventV::Text(s@)));
                        assert(events_view(out@) =~= acc.out + open_span_if(acc.count) + seq![EventV::Text(trim_start_spec(s@))]);
                        assert(events_view(out@) =~= body_step(acc, rest[0], cls).out);
                    }
                    to_be_trimmed_start = false;
                    event_count = event_count + 1;
                },
                Inline::Event(event) => {
                    if event_count == 0 {
                        push_event(&mut out, html(literal_string("<span>")));
                    }
                    let ghost ev = event@;
                    push_event(&mut out, event);
                    proof {
                        assert(rest[0] == InlineV::Event(ev));
                        assert(events_view(out@) =~= acc.out + open_span_if(acc.count) + seq![ev]);
                        assert(events_view(out@) =~= body_step(acc, rest[0], cls).out);
                    }
                    event_count = event_count + 1;
                },
                Inline::Direction(direction) => {
                    let ghost dv = direction@;
                    trim_end_of_last(&mut out);
                    if event_count > 0 {
                        push_event(&mut out, html(literal_string("</span>")));
                    }
                    assert(events_view(out@) =~= trim_end_last(acc.out) + close_span_if(acc.count));
                    let ghost mid = events_view(out@);
                    self.render_direction(direction, true, &mut out);
                    proof {
                        assert(events_view(out@) == mid + direction_html(dv, true, cls));
                        assert(rest[0] == InlineV::Direction(dv));
                        assert(body_step(acc, InlineV::Direction(dv), cls).out == trim_end_last(acc.out) + close_span_if(acc.count) + direction_html(dv, true, cls));
                        assert(events_view(out@) =~= body_step(acc, rest[0], cls).out);
                    }
                    to_be_trimmed_start = true;
                    event_count = 0;
                },
            }
            proof {
                let next = body_step(acc, rest[0], cls);
                assert(events_view(out@) =~= next.out);
                assert(to_be_trimmed_start == next.trim_next);
                assert(event_count == next.count);
            }
            k = k + 1;
        }
        if event_count > 0 {
            push_event(&mut out, html(literal_string("</span>")));
        }
        push_event(&mut out, html(literal_string("</p>")));
        append_events(events, out);
    }

    /// Renders a heading: an anchored `h5` numbered by the heading counter,
    /// which then moves on by one.
    pub fn render_heading(&mut self, heading: Heading, events: &mut Vec<Event>)
        ensures
            events_view(final(events)@) == events_view(old(events)@) + heading_html(
                heading@,
                old(self).heading_id_counter as nat,
                old(self).heading_anchor_class@,
                old(self).character_class@,
                old(self).direction_class@,
            ),
            final(self).heading_id_counter == counter_next(old(self).heading_id_counter),
            final(self).speech_class == old(self).speech_class,
            final(self).character_class == old(self).character_class,
            final(self).direction_class == old(self).direction_class,
            final(self).heading_anchor_class == old(self).heading_anchor_class,
            final(self).replace_softbreak == old(self).replace_softbreak,
    {
        let ghost start = events_view(events@);
        let counter = self.heading_id_counter;
        let id = decimal_string(counter as u64);
        let mut h_start = literal_string("<h5 id=\"D");
        h_start.append(id.as_str());
        h_start.append("\">");
        let mut a_start = open_tag("<a class=\"", self.heading_anchor_class, "\" href=\"#D");
        a_start.append(id.as_str());
        a_start.append("\">");
        let span_start = open_tag("<span class=\"", self.character_class, "\">");
        if self.heading_id_counter < usize::MAX {
            self.heading_id_counter = self.heading_id_counter + 1;
        }
        push_event(events, html(h_start));
        push_event(events, html(a_start));
        push_event(events, html(span_start));
        push_event(events, Event::Text(heading.character));
        push_event(events, html(literal_string("</span>")));
        let ghost mid = events_view(events@);
        self.render_direction(heading.direction, false, events);
        push_event(events, html(literal_string("</a>")));
        push_event(events, html(literal_string("</h5>")));
        proof {
            assert(events_view(events@) =~= start + heading_html(
                heading@,
                counter as nat,
                self.heading_anchor_class@,
                self.character_class@,
                self.direction_class@,
            ));
        }
    }

    /// Renders a speech: its heading and body in a `div`.
    pub fn render_speech(&mut self, speech: Speech, events: &mut Vec<Event>)
        ensures
            events_view(final(events)@) == events_view(old(events)@) + speech_html(
                speech@,
                old(self).heading_id_counter as nat,
                *old(self),
            ),
            final(self).heading_id_counter == counter_next(old(self).heading_id_counter),
            final(self).speech_class == old(self).speech_class,
            final(self).character_class == old(self).character_class,
            final(self).direction_class == old(self).direction_class,
            final(self).heading_anchor_class == old(self).heading_anchor_class,
            final(self).replace_softbreak == old(self).replace_softbreak,
    {
        let ghost start = events_view(events@);
        push_event(events, html(open_tag("<div class=\"", self.speech_class, "\">")));
        self.render_heading(speech.heading, events);
        self.render_body(speech.body, events);
        push_event(events, html(literal_string("</div>")));
        proof {
            assert(events_view(events@) =~= start + speech_html(
                speech@,
                old(self).heading_id_counter as nat,
                *old(self),
            ));
        }
    }

    /// Passes the events of a line through, soft breaks replaced.
    pub fn render_events(&self, events: Vec<Event>, output: &mut Vec<Event>)
        ensures
            events_view(final(output)@) == events_view(old(output)@) + replace_softbreak_events(
                events_view(events@),
                opt_view(self.replace_softbreak),
            ),
    {
        let ghost start = events_view(output@);
        let ghost all = events_view(events@);
        let ghost rep = opt_view(self.replace_softbreak);
        let mut q = into_deque(events);
        let n = q.len();
        let mut k: usize = 0;
        while q.len() > 0
            invariant
                n == all.len(),
                k <= n,
                q@.len() == n - k,
                events_view(q@) == all.skip(k as int),
                rep == opt_view(self.replace_softbreak),
                events_view(output@) == start + replace_softbreak_events(all.take(k as int), rep),
            decreases q@.len(),
        {
            let ghost q_old = q@;
            let e = q.pop_front().unwrap();
            proof {
                assert(q@ == q_old.drop_first());
                assert(events_view(q_old)[0] == all[k as int]);
                assert(e@ == all[k as int]);
                assert(events_view(q@) =~= events_view(q_old).drop_first());
                assert(events_view(q@) =~= all.skip(k + 1));
            }
            match (e, &self.replace_softbreak) {
                (Event::SoftBreak, Some(s)) => {
                    push_event(output, Event::Text(s.clone()));
                },
                (e, _) => {
                    push_event(output, e);
                },
            }
            proof {
                assert(all.take(k + 1) == all.take(k as int).push(all[k as int]));
                assert(events_view(output@) =~= start + replace_softbreak_events(all.take(k + 1), rep));
            }
            k = k + 1;
        }
        assert(all.take(n as int) == all);
    }
}

fn html(s: String) -> (r: Event)
    ensures
        r@ == EventV::Html(s@),
{
    Event::Html(s)
}

fn literal_string(s: &str) -> (r: String)
    ensures
        r@ == s@,
{
    s.to_owned()
}

} // verus!
