//! The textual form of XML events, and the trusted writers that produce it.
//!
//! The spec functions here say, character for character, what a start tag, an
//! end tag, an empty-element tag and escaped character data look like. The
//! executable writers call `quick_xml`'s event writer and are trusted to
//! append exactly that text.

use quick_xml::events::{BytesEnd, BytesStart, BytesText, Event};
use quick_xml::Writer;
use vstd::prelude::*;

verus! {

/// The replacement `quick_xml` makes for one character inside text content:
/// `<`, `>`, `&`, `'`, `"` and carriage return become entity references,
/// every other character stands as it is.
pub open spec fn text_escape_char(c: char) -> Seq<char> {
    if c == '<' {
        seq!['&', 'l', 't', ';']
    } else if c == '>' {
        seq!['&', 'g', 't', ';']
    } else if c == '&' {
        seq!['&', 'a', 'm', 'p', ';']
    } else if c == '\'' {
        seq!['&', 'a', 'p', 'o', 's', ';']
    } else if c == '"' {
        seq!['&', 'q', 'u', 'o', 't', ';']
    } else if c == '\r' {
        seq!['&', '#', '1', '3', ';']
    } else {
        seq![c]
    }
}

/// Entity-escaping of text content, applied character by character.
pub open spec fn text_escape(s: Seq<char>) -> Seq<char>
    decreases s.len(),
{
    if s.len() == 0 {
        Seq::empty()
    } else {
        text_escape_char(s[0]) + text_escape(s.skip(1))
    }
}

/// The replacement made for one character inside an attribute value: the text
/// replacements, and additionally newline and tab, which attribute-value
/// normalization would otherwise turn into spaces.
pub open spec fn attr_escape_char(c: char) -> Seq<char> {
    if c == '\n' {
        seq!['&', '#', '1', '0', ';']
    } else if c == '\t' {
        seq!['&', '#', '9', ';']
    } else {
        text_escape_char(c)
    }
}

/// Entity-escaping of an attribute value, applied character by character.
pub open spec fn attr_escape(s: Seq<char>) -> Seq<char>
    decreases s.len(),
{
    if s.len() == 0 {
        Seq::empty()
    } else {
        attr_escape_char(s[0]) + attr_escape(s.skip(1))
    }
}

/// The text of an attribute list: one leading space before each attribute,
/// the name, `="`, the escaped value, and a closing quote.
pub open spec fn attrs_text(attrs: Seq<(Seq<char>, Seq<char>)>) -> Seq<char>
    decreases attrs.len(),
{
    if attrs.len() == 0 {
        Seq::empty()
    } else {
        seq![' '] + attrs[0].0 + seq!['=', '"'] + attr_escape(attrs[0].1) + seq!['"']
            + attrs_text(attrs.skip(1))
    }
}

/// A start tag: `<name a="v" ...>`.
pub open spec fn start_tag(name: Seq<char>, attrs: Seq<(Seq<char>, Seq<char>)>) -> Seq<char> {
    seq!['<'] + name + attrs_text(attrs) + seq!['>']
}

/// An empty-element tag: `<name a="v" .../>`.
pub open spec fn empty_tag(name: Seq<char>, attrs: Seq<(Seq<char>, Seq<char>)>) -> Seq<char> {
    seq!['<'] + name + attrs_text(attrs) + seq!['/', '>']
}

/// An end tag: `</name>`.
pub open spec fn end_tag(name: Seq<char>) -> Seq<char> {
    seq!['<', '/'] + name + seq!['>']
}

/// The view of an executable attribute list as the pairs of character
/// sequences the tag spec functions speak of.
pub open spec fn attrs_view(attrs: Seq<(String, String)>) -> Seq<(Seq<char>, Seq<char>)> {
    attrs.map_values(|p: (String, String)| (p.0@, p.1@))
}

/// Relies on `quick_xml::Writer` with `Event::Start`: it writes `<`, the tag
/// name, each attribute as ` key="value"` with the value escaped as
/// `escape_attribute` escapes it, then `>`.
#[verifier::external_body]
pub(crate) fn write_start(out: &mut String, name: &str, attrs: &Vec<(String, String)>)
    ensures
        final(out)@ == old(out)@ + start_tag(name@, attrs_view(attrs@)),
{
    let mut buf: Vec<u8> = Vec::new();
    let mut writer = Writer::new(&mut buf);
    let mut elem = BytesStart::new(name);
    elem.extend_attributes(attrs.iter().map(|a| (a.0.as_str(), a.1.as_str())));
    let _ = writer.write_event(Event::Start(elem));
    out.push_str(&String::from_utf8(buf).unwrap_or_default());
}

/// Relies on `quick_xml::Writer` with `Event::Empty`: as a start tag, but
/// closed with `/>` (the writer's default puts no space before the slash).
#[verifier::external_body]
pub(crate) fn write_empty(out: &mut String, name: &str, attrs: &Vec<(String, String)>)
    ensures
        final(out)@ == old(out)@ + empty_tag(name@, attrs_view(attrs@)),
{
    let mut buf: Vec<u8> = Vec::new();
    let mut writer = Writer::new(&mut buf);
    let mut elem = BytesStart::new(name);
    elem.extend_attributes(attrs.iter().map(|a| (a.0.as_str(), a.1.as_str())));
    let _ = writer.write_event(Event::Empty(elem));
    out.push_str(&String::from_utf8(buf).unwrap_or_default());
}

/// Relies on `quick_xml::Writer` with `Event::End`: it writes `</name>`.
#[verifier::external_body]
pub(crate) fn write_end(out: &mut String, name: &str)
    ensures
        final(out)@ == old(out)@ + end_tag(name@),
{
    let mut buf: Vec<u8> = Vec::new();
    let mut writer = Writer::new(&mut buf);
    let _ = writer.write_event(Event::End(BytesEnd::new(name)));
    out.push_str(&String::from_utf8(buf).unwrap_or_default());
}

/// Relies on `quick_xml::Writer` with `Event::Text` built by
/// `BytesText::new`: the text is written with `<`, `>`, `&`, `'`, `"` and
/// carriage return replaced by entity references.
#[verifier::external_body]
pub(crate) fn write_text(out: &mut String, text: &str)
    ensures
        final(out)@ == old(out)@ + text_escape(text@),
{
    let mut buf: Vec<u8> = Vec::new();
    let mut writer = Writer::new(&mut buf);
    let _ = writer.write_event(Event::Text(BytesText::new(text)));
    out.push_str(&String::from_utf8(buf).unwrap_or_default());
}

/// Relies on `quick_xml::Writer` with `Event::Text` built by
/// `BytesText::from_escaped`: the markup is written verbatim, so a child
/// fragment is embedded without a second round of escaping.
#[verifier::external_body]
pub(crate) fn write_raw(out: &mut String, markup: &str)
    ensures
        final(out)@ == old(out)@ + markup@,
{
    let mut buf: Vec<u8> = Vec::new();
    let mut writer = Writer::new(&mut buf);
    let _ = writer.write_event(Event::Text(BytesText::from_escaped(markup)));
    out.push_str(&String::from_utf8(buf).unwrap_or_default());
}

/// Relies on std's `String::push`: it appends the one character.
#[verifier::external_body]
pub(crate) fn push_char(out: &mut String, c: char)
    ensures
        final(out)@ == old(out)@ + seq![c],
{
    out.push(c);
}

} // verus!
