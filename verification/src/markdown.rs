use vstd::prelude::*;

use pulldown_cmark::{Event, Options, Parser, Tag, TagEnd};

use crate::text::{
    escape_markup, escape_text, has_prefix, is_markup_char, lemma_escape_inert, push_char, trim,
    trim_spec,
};

verus! {

#[verifier::external_type_specification]
#[verifier::external_body]
pub struct ExEvent<'a>(pulldown_cmark::Event<'a>);

#[verifier::external_type_specification]
#[verifier::external_body]
pub struct ExTag<'a>(pulldown_cmark::Tag<'a>);

#[verifier::external_type_specification]
#[verifier::external_body]
pub struct ExTagEnd(pulldown_cmark::TagEnd);

/// The opening of a Markdown element, as far as the markup conversion tells them apart.
#[derive(Clone, Debug, PartialEq, Eq)]
pub enum MdStart {
    Heading,
    Paragraph,
    Item,
    Emphasis,
    Strong,
    Strikethrough,
    /// A link, with its destination.
    Link(String),
    Image,
    CodeBlock,
    Other,
}

/// The close of a Markdown element.
#[derive(Clone, Debug, PartialEq, Eq)]
pub enum MdEnd {
    Heading,
    Paragraph,
    Item,
    Emphasis,
    Strong,
    Strikethrough,
    Link,
    Image,
    CodeBlock,
    Other,
}

/// One event of a Markdown document, as the parser reports them in order.
#[derive(Clone, Debug, PartialEq, Eq)]
pub enum MdEvent {
    Start(MdStart),
    End(MdEnd),
    Text(String),
    Code(String),
    Html(String),
    InlineHtml(String),
    SoftBreak,
    HardBreak,
    Rule,
    TaskListMarker(bool),
    Other,
}

/// The events that pulldown-cmark reports for `markdown`, parsed with strikethrough
/// enabled.
pub uninterp spec fn markdown_events(markdown: Seq<char>) -> Seq<MdEvent>;

/// Reads the opening of an element of pulldown-cmark as an `MdStart`.
#[verifier::external_body]
fn md_start(tag: Tag) -> MdStart {
    match tag {
        Tag::Heading { .. } => MdStart::Heading,
        Tag::Paragraph => MdStart::Paragraph,
        Tag::Item => MdStart::Item,
        Tag::Emphasis => MdStart::Emphasis,
        Tag::Strong => MdStart::Strong,
        Tag::Strikethrough => MdStart::Strikethrough,
        Tag::Link { dest_url, .. } => MdStart::Link(dest_url.into_string()),
        Tag::Image { .. } => MdStart::Image,
        Tag::CodeBlock(_) => MdStart::CodeBlock,
        _ => MdStart::Other,
    }
}

/// Reads the close of an element of pulldown-cmark as an `MdEnd`.
#[verifier::external_body]
fn md_end(end: TagEnd) -> MdEnd {
    match end {
        TagEnd::Heading(_) => MdEnd::Heading,
        TagEnd::Paragraph => MdEnd::Paragraph,
        TagEnd::Item => MdEnd::Item,
        TagEnd::Emphasis => MdEnd::Emphasis,
        TagEnd::Strong => MdEnd::Strong,
        TagEnd::Strikethrough => MdEnd::Strikethrough,
        TagEnd::Link => MdEnd::Link,
        TagEnd::Image => MdEnd::Image,
        TagEnd::CodeBlock => MdEnd::CodeBlock,
        _ => MdEnd::Other,
    }
}

/// Reads an event of pulldown-cmark as an `MdEvent`.
#[verifier::external_body]
fn md_event(event: Event) -> MdEvent {
    match event {
        Event::Start(tag) => MdEvent::Start(md_start(tag)),
        Event::End(end) => MdEvent::End(md_end(end)),
        Event::Text(text) => MdEvent::Text(text.into_string()),
        Event::Code(text) => MdEvent::Code(text.into_string()),
        Event::Html(text) => MdEvent::Html(text.into_string()),
        Event::InlineHtml(text) => MdEvent::InlineHtml(text.into_string()),
        Event::SoftBreak => MdEvent::SoftBreak,
        Event::HardBreak => MdEvent::HardBreak,
        Event::Rule => MdEvent::Rule,
        Event::TaskListMarker(checked) => MdEvent::TaskListMarker(checked),
        _ => MdEvent::Other,
    }
}

/// Runs pulldown-cmark's `Parser::new_ext` with strikethrough enabled over `markdown`
/// and collects its events. The events are a function of the text alone, named
/// `markdown_events`.
#[verifier::external_body]
fn parse_markdown(markdown: &str) -> (events: Vec<MdEvent>)
    ensures
        events@ == markdown_events(markdown@),
{
    Parser::new_ext(markdown, Options::ENABLE_STRIKETHROUGH).map(md_event).collect()
}

/// A link destination that a markup viewer may open: an http or https URL.
pub open spec fn is_web_destination(destination: Seq<char>) -> bool {
    "https://"@.is_prefix_of(destination) || "http://"@.is_prefix_of(destination)
}

/// The markup that opens an element, and the stack of open links after it (one
/// entry per open link: whether it was opened as a web link).
pub open spec fn start_markup(start: MdStart, links: Seq<bool>) -> (Seq<char>, Seq<bool>) {
    match start {
        MdStart::Heading => ("<span size=\"large\"><b>"@, links),
        MdStart::Paragraph => (Seq::empty(), links),
        MdStart::Item => ("\u{2022}  "@, links),
        MdStart::Emphasis => ("<i>"@, links),
        MdStart::Strong => ("<b>"@, links),
        MdStart::Strikethrough => ("<s>"@, links),
        MdStart::Link(destination) => if is_web_destination(destination@) {
            ("<a href=\""@ + escape_text(destination@) + "\">"@, links.push(true))
        } else {
            ("<u>"@, links.push(false))
        },
        MdStart::Image => ("[Image: "@, links),
        MdStart::CodeBlock => ("<tt>"@, links),
        MdStart::Other => (Seq::empty(), links),
    }
}

/// The markup that closes an element; a link closes the innermost open link.
pub open spec fn end_markup(end: MdEnd, links: Seq<bool>) -> (Seq<char>, Seq<bool>) {
    match end {
        MdEnd::Heading => ("</b></span>\n"@, links),
        MdEnd::Paragraph => ("\n\n"@, links),
        MdEnd::Item => (seq!['\n'], links),
        MdEnd::Emphasis => ("</i>"@, links),
        MdEnd::Strong => ("</b>"@, links),
        MdEnd::Strikethrough => ("</s>"@, links),
        MdEnd::Link => if links.len() > 0 {
            (
                if links.last() {
                    "</a>"@
                } else {
                    "</u>"@
                },
                links.drop_last(),
            )
        } else {
            ("</u>"@, links)
        },
        MdEnd::Image => (seq![']'], links),
        MdEnd::CodeBlock => ("</tt>\n"@, links),
        MdEnd::Other => (Seq::empty(), links),
    }
}

/// The markup of one event, and the stack of open links after it.
pub open spec fn event_markup(event: MdEvent, links: Seq<bool>) -> (Seq<char>, Seq<bool>) {
    match event {
        MdEvent::Start(start) => start_markup(start, links),
        MdEvent::End(end) => end_markup(end, links),
        MdEvent::Text(text) => (escape_text(text@), links),
        MdEvent::Code(text) => ("<tt>"@ + escape_text(text@) + "</tt>"@, links),
        MdEvent::Html(text) => (escape_text(text@), links),
        MdEvent::InlineHtml(text) => (escape_text(text@), links),
        MdEvent::SoftBreak => (seq!['\n'], links),
        MdEvent::HardBreak => (seq!['\n'], links),
        MdEvent::Rule => ("\u{2500}\u{2500}\u{2500}\u{2500}\u{2500}\u{2500}\u{2500}\u{2500}\n"@, links),
        MdEvent::TaskListMarker(checked) => (
            if checked {
                "\u{2611} "@
            } else {
                "\u{2610} "@
            },
            links,
        ),
        MdEvent::Other => (Seq::empty(), links),
    }
}

/// The markup of a sequence of events, untrimmed, and the links left open.
pub open spec fn render_events(events: Seq<MdEvent>) -> (Seq<char>, Seq<bool>)
    decreases events.len(),
{
    if events.len() == 0 {
        (Seq::empty(), Seq::empty())
    } else {
        let before = render_events(events.drop_last());
        let step = event_markup(events.last(), before.1);
        (before.0 + step.0, step.1)
    }
}

/// The Pango markup of a sequence of Markdown events: their markup, trimmed.
pub open spec fn pango_markup(events: Seq<MdEvent>) -> Seq<char> {
    trim_spec(render_events(events).0)
}

fn append_start(output: &mut String, links: &mut Vec<bool>, start: &MdStart)
    ensures
        (final(output)@, final(links)@) == ({
            let step = start_markup(*start, old(links)@);
            (old(output)@ + step.0, step.1)
        }),
{
    match start {
        MdStart::Heading => output.append("<span size=\"large\"><b>"),
        MdStart::Paragraph => {
            assert(output@ + Seq::<char>::empty() == output@);
        },
        MdStart::Item => output.append("\u{2022}  "),
        MdStart::Emphasis => output.append("<i>"),
        MdStart::Strong => output.append("<b>"),
        MdStart::Strikethrough => output.append("<s>"),
        MdStart::Link(destination) => {
            let external = has_prefix(destination.as_str(), "https://") || has_prefix(
                destination.as_str(),
                "http://",
            );
            links.push(external);
            if external {
                output.append("<a href=\"");
                let escaped = escape_markup(destination.as_str());
                output.append(escaped.as_str());
                output.append("\">");
            } else {
                output.append("<u>");
            }
        },
        MdStart::Image => output.append("[Image: "),
        MdStart::CodeBlock => output.append("<tt>"),
        MdStart::Other => {
            assert(output@ + Seq::<char>::empty() == output@);
        },
    }
}

fn append_end(output: &mut String, links: &mut Vec<bool>, end: &MdEnd)
    ensures
        (final(output)@, final(links)@) == ({
            let step = end_markup(*end, old(links)@);
            (old(output)@ + step.0, step.1)
        }),
{
    match end {
        MdEnd::Heading => output.append("</b></span>\n"),
        MdEnd::Paragraph => output.append("\n\n"),
        MdEnd::Item => push_char(output, '\n'),
        MdEnd::Emphasis => output.append("</i>"),
        MdEnd::Strong => output.append("</b>"),
        MdEnd::Strikethrough => output.append("</s>"),
        MdEnd::Link => {
            let external = match links.pop() {
                Some(external) => external,
                None => false,
            };
            output.append(
                if external {
                    "</a>"
                } else {
                    "</u>"
                },
            );
        },
        MdEnd::Image => push_char(output, ']'),
        MdEnd::CodeBlock => output.append("</tt>\n"),
        MdEnd::Other => {
            assert(output@ + Seq::<char>::empty() == output@);
        },
    }
}

fn append_event(output: &mut String, links: &mut Vec<bool>, event: &MdEvent)
    ensures
        (final(output)@, final(links)@) == ({
            let step = event_markup(*event, old(links)@);
            (old(output)@ + step.0, step.1)
        }),
{
    match event {
        MdEvent::Start(start) => append_start(output, links, start),
        MdEvent::End(end) => append_end(output, links, end),
        MdEvent::Text(text) => {
            let escaped = escape_markup(text.as_str());
            output.append(escaped.as_str());
        },
        MdEvent::Code(text) => {
            output.append("<tt>");
            let escaped = escape_markup(text.as_str());
            output.append(escaped.as_str());
            output.append("</tt>");
        },
        MdEvent::Html(text) => {
            let escaped = escape_markup(text.as_str());
            output.append(escaped.as_str());
        },
        MdEvent::InlineHtml(text) => {
            let escaped = escape_markup(text.as_str());
            output.append(escaped.as_str());
        },
        MdEvent::SoftBreak => push_char(output, '\n'),
        MdEvent::HardBreak => push_char(output, '\n'),
        MdEvent::Rule => output.append(
            "\u{2500}\u{2500}\u{2500}\u{2500}\u{2500}\u{2500}\u{2500}\u{2500}\n",
        ),
        MdEvent::TaskListMarker(checked) => output.append(
            if *checked {
                "\u{2611} "
            } else {
                "\u{2610} "
            },
        ),
        MdEvent::Other => {
            assert(output@ + Seq::<char>::empty() == output@);
        },
    }
}

/// Converts parsed Markdown events to inert Pango markup: text is escaped, only
/// http(s) links become anchors, images are named rather than loaded.
pub fn pango_from_events(events: &Vec<MdEvent>) -> (markup: String)
    ensures
        markup@ == pango_markup(events@),
{
    let mut output = String::new();
    let mut links: Vec<bool> = Vec::new();
    let mut i: usize = 0;
    while i < events.len()
        invariant
            i <= events@.len(),
            (output@, links@) == render_events(events@.take(i as int)),
        decreases events@.len() - i,
    {
        proof {
            assert(events@.take(i + 1).drop_last() == events@.take(i as int));
        }
        append_event(&mut output, &mut links, &events[i]);
        i = i + 1;
    }
    proof {
        assert(events@.take(events@.len() as int) == events@);
    }
    trim(output.as_str())
}

/// Converts the supported GitHub Markdown subset to inert Pango markup.
pub fn markdown_to_pango(markdown: &str) -> (markup: String)
    ensures
        markup@ == pango_markup(markdown_events(markdown@)),
{
    let events = parse_markdown(markdown);
    pango_from_events(&events)
}


/// Text, HTML blocks and inline HTML of the document come out as escaped text: their
/// markup holds no `<`, `>`, `"` or `'`, and they leave the open links as they were.
pub proof fn lemma_document_text_inert(event: MdEvent, links: Seq<bool>)
    requires
        event is Text || event is Html || event is InlineHtml,
    ensures
        event_markup(event, links).1 == links,
        forall|i: int|
            0 <= i < event_markup(event, links).0.len() ==> !is_markup_char(
                #[trigger] event_markup(event, links).0[i],
            ),
{
    match event {
        MdEvent::Text(text) => lemma_escape_inert(text@),
        MdEvent::Html(text) => lemma_escape_inert(text@),
        MdEvent::InlineHtml(text) => lemma_escape_inert(text@),
        _ => {},
    }
}

/// Opening a link and closing it again leaves the open links as they were; a web
/// destination opens and closes an anchor, any other one is only underlined.
pub proof fn lemma_link_open_close(destination: String, links: Seq<bool>)
    ensures
        ({
            let opened = start_markup(MdStart::Link(destination), links);
            let closed = end_markup(MdEnd::Link, opened.1);
            &&& closed.1 == links
            &&& is_web_destination(destination@) ==> closed.0 == "</a>"@
            &&& !is_web_destination(destination@) ==> opened.0 == "<u>"@ && closed.0 == "</u>"@
        }),
{
    let opened = start_markup(MdStart::Link(destination), links);
    assert(opened.1.drop_last() == links);
}


/// The events of a list whose items are the plain texts `items`.
pub open spec fn item_events(items: Seq<String>) -> Seq<MdEvent>
    decreases items.len(),
{
    if items.len() == 0 {
        Seq::empty()
    } else {
        item_events(items.drop_last()) + seq![
            MdEvent::Start(MdStart::Item),
            MdEvent::Text(items.last()),
            MdEvent::End(MdEnd::Item),
        ]
    }
}

/// One bulleted line per item: the bullet, the escaped text, a line break.
pub open spec fn bullet_lines(items: Seq<String>) -> Seq<char>
    decreases items.len(),
{
    if items.len() == 0 {
        Seq::empty()
    } else {
        bullet_lines(items.drop_last()) + "\u{2022}  "@ + escape_text(items.last()@) + seq!['\n']
    }
}

proof fn lemma_render_push(events: Seq<MdEvent>, event: MdEvent)
    ensures
        render_events(events.push(event)) == ({
            let before = render_events(events);
            let step = event_markup(event, before.1);
            (before.0 + step.0, step.1)
        }),
{
    assert(events.push(event).drop_last() == events);
}

/// A list puts each item on a line of its own: after any events, the items of a
/// list add a bullet, the item's text and a line break each, in order, and leave
/// the open links as they were.
pub proof fn lemma_list_items_one_per_line(prefix: Seq<MdEvent>, items: Seq<String>)
    ensures
        render_events(prefix + item_events(items)).0 == render_events(prefix).0 + bullet_lines(
            items,
        ),
        render_events(prefix + item_events(items)).1 == render_events(prefix).1,
    decreases items.len(),
{
    if items.len() == 0 {
        assert(prefix + item_events(items) == prefix);
        assert(render_events(prefix).0 + bullet_lines(items) == render_events(prefix).0);
    } else {
        let head = items.drop_last();
        lemma_list_items_one_per_line(prefix, head);
        let p = prefix + item_events(head);
        let a = MdEvent::Start(MdStart::Item);
        let b = MdEvent::Text(items.last());
        let c = MdEvent::End(MdEnd::Item);
        assert(prefix + item_events(items) == p.push(a).push(b).push(c));
        lemma_render_push(p, a);
        lemma_render_push(p.push(a), b);
        lemma_render_push(p.push(a).push(b), c);
        assert(render_events(p).0 + "\u{2022}  "@ + escape_text(items.last()@) + seq!['\n']
            == render_events(prefix).0 + bullet_lines(items));
    }
}

} // verus!
