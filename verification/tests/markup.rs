use strata::markdown::{markdown_to_pango, pango_from_events, MdEnd, MdEvent, MdStart};
use strata::text::{escape_markup, has_prefix, trim};

#[test]
fn escaping_replaces_each_special_character() {
    assert_eq!(escape_markup("a&b<c>d\"e'f"), "a&amp;b&lt;c&gt;d&quot;e&apos;f");
    assert_eq!(escape_markup("plain text ☑"), "plain text ☑");
    assert_eq!(escape_markup(""), "");
}

#[test]
fn escaped_text_holds_no_markup_syntax() {
    let escaped = escape_markup("<b onclick='x'>\"&\"</b>");
    assert!(!escaped.contains('<') && !escaped.contains('>'));
    assert!(!escaped.contains('"') && !escaped.contains('\''));
}

#[test]
fn trimming_removes_unicode_whitespace() {
    assert_eq!(trim(" \t\u{3000}text\u{a0}\n"), "text");
    assert_eq!(trim("a b"), "a b");
    assert_eq!(trim(" \u{2009} "), "");
    assert_eq!(trim(&trim("  x  ")), trim("  x  "));
}

#[test]
fn prefixes_are_recognised() {
    assert!(has_prefix("https://x", "https://"));
    assert!(!has_prefix("http", "https://"));
    assert!(has_prefix("abc", ""));
}

#[test]
fn events_render_in_order() {
    let events = vec![
        MdEvent::Start(MdStart::Paragraph),
        MdEvent::Start(MdStart::Link("http://a.test/?q=<1>".to_owned())),
        MdEvent::Start(MdStart::Link("file:///etc".to_owned())),
        MdEvent::Text("x".to_owned()),
        MdEvent::End(MdEnd::Link),
        MdEvent::End(MdEnd::Link),
        MdEvent::End(MdEnd::Link),
        MdEvent::TaskListMarker(true),
        MdEvent::TaskListMarker(false),
        MdEvent::Rule,
        MdEvent::Start(MdStart::Strikethrough),
        MdEvent::Html("<i>".to_owned()),
        MdEvent::End(MdEnd::Strikethrough),
        MdEvent::SoftBreak,
        MdEvent::Other,
        MdEvent::End(MdEnd::Paragraph),
    ];
    assert_eq!(
        pango_from_events(&events),
        "<a href=\"http://a.test/?q=&lt;1&gt;\"><u>x</u></a></u>☑ ☐ ────────\n<s>&lt;i&gt;</s>"
    );
}

#[test]
fn markdown_parser_feeds_the_conversion() {
    assert_eq!(markdown_to_pango("*x* ~~y~~"), "<i>x</i> <s>y</s>");
    assert_eq!(markdown_to_pango("# Title"), "<span size=\"large\"><b>Title</b></span>");
    assert_eq!(markdown_to_pango("a\n\n---\n\nb"), "a\n\n────────\nb");
    assert_eq!(markdown_to_pango("    code\n"), "<tt>code\n</tt>");
}
