//! The markup events of an XML document, read with `quick_xml`.

use anyhow::Error;
use quick_xml::events::Event;
use quick_xml::Reader;
use vstd::prelude::*;
use vstd::utf8::{decode_utf8, valid_utf8};

use crate::errors::{text_result, ErrorModel, ErrorText};

verus! {

/// One markup event, with the bytes of its name or its content as they stand in the document.
#[derive(Debug)]
pub enum XmlEvent {
    /// An opening tag, with its name.
    Start(Vec<u8>),
    /// An element without content (`<name/>`), with its name.
    Empty(Vec<u8>),
    /// Character data between tags, still escaped.
    Text(Vec<u8>),
    /// The content of a CDATA section.
    CData(Vec<u8>),
    /// A closing tag, with its name.
    End(Vec<u8>),
    /// A declaration, a comment, a processing instruction or a document type.
    Other,
    /// The end of the document.
    Eof,
    /// The document is not well-formed here, with the texts that say why.
    Fault(ErrorText),
}

/// What an [`XmlEvent`] stands for.
pub enum Token {
    Start(Seq<u8>),
    Empty(Seq<u8>),
    Text(Seq<u8>),
    CData(Seq<u8>),
    End(Seq<u8>),
    Other,
    Eof,
    Fault(ErrorModel),
}

impl View for XmlEvent {
    type V = Token;

    open spec fn view(&self) -> Token {
        match *self {
            XmlEvent::Start(name) => Token::Start(name@),
            XmlEvent::Empty(name) => Token::Empty(name@),
            XmlEvent::Text(bytes) => Token::Text(bytes@),
            XmlEvent::CData(bytes) => Token::CData(bytes@),
            XmlEvent::End(name) => Token::End(name@),
            XmlEvent::Other => Token::Other,
            XmlEvent::Eof => Token::Eof,
            XmlEvent::Fault(text) => Token::Fault(text@),
        }
    }
}

/// The views of a sequence of events.
pub open spec fn tokens(events: Seq<XmlEvent>) -> Seq<Token> {
    events.map_values(|e: XmlEvent| e@)
}

/// No event follows this one.
pub open spec fn is_last_token(token: Token) -> bool {
    token is Eof || token is Fault
}

/// The sequence ends with the end of the document or with a fault, and neither stands before.
pub open spec fn is_complete(events: Seq<Token>) -> bool {
    &&& events.len() > 0
    &&& is_last_token(events.last())
    &&& forall|i: int| 0 <= i < events.len() - 1 ==> !is_last_token(#[trigger] events[i])
}

#[verifier::external_type_specification]
#[verifier::external_body]
#[verifier::reject_recursive_types(R)]
pub struct ExReader<R>(quick_xml::Reader<R>);

/// The events that `quick_xml` finds in a document, up to its end or to the first fault.
pub uninterp spec fn xml_events(xml: Seq<u8>) -> Seq<Token>;

/// The events that a reader has still to deliver.
pub uninterp spec fn pending_events(reader: Reader<&[u8]>) -> Seq<Token>;

/// `quick_xml::Reader::from_reader`, with text left untrimmed: the new reader has all events of
/// the document before it, and they are finite in number.
#[verifier::external_body]
fn open_reader(xml: &[u8]) -> (reader: Reader<&[u8]>)
    ensures
        pending_events(reader) == xml_events(xml@),
        is_complete(pending_events(reader)),
{
    let mut reader = Reader::from_reader(xml);
    reader.config_mut().trim_text(false);
    reader
}

/// `quick_xml::Reader::read_event_into`: delivers the next event and, unless that is the last one,
/// moves behind it. An error is delivered as a fault with the error's text and with the text that
/// `anyhow::Error` shows of the error and its causes in the alternate form.
#[verifier::external_body]
fn next_event(reader: &mut Reader<&[u8]>) -> (event: XmlEvent)
    requires
        pending_events(*old(reader)).len() > 0,
    ensures
        event@ == pending_events(*old(reader))[0],
        !is_last_token(event@) ==> pending_events(*final(reader)) == pending_events(
            *old(reader),
        ).drop_first(),
{
    let mut buf = Vec::new();
    match reader.read_event_into(&mut buf) {
        Ok(Event::Start(tag)) => XmlEvent::Start(tag.name().0.to_vec()),
        Ok(Event::Empty(tag)) => XmlEvent::Empty(tag.name().0.to_vec()),
        Ok(Event::Text(text)) => XmlEvent::Text(text.to_vec()),
        Ok(Event::CData(text)) => XmlEvent::CData(text.to_vec()),
        Ok(Event::End(tag)) => XmlEvent::End(tag.name().0.to_vec()),
        Ok(Event::Eof) => XmlEvent::Eof,
        Ok(_) => XmlEvent::Other,
        Err(error) => XmlEvent::Fault(ErrorText {
            message: error.to_string(),
            chain: format!("{:#}", Error::from(error)),
        }),
    }
}

/// Reads all events of a document, up to its end or to the first fault.
pub fn read_events(xml: &[u8]) -> (events: Vec<XmlEvent>)
    ensures
        tokens(events@) == xml_events(xml@),
        is_complete(tokens(events@)),
{
    let mut reader = open_reader(xml);
    let mut events: Vec<XmlEvent> = Vec::new();
    let ghost all = pending_events(reader);
    assert(tokens(events@) + pending_events(reader) =~= all);
    loop
        invariant_except_break
            tokens(events@) + pending_events(reader) == all,
            pending_events(reader).len() > 0,
        invariant
            is_complete(all),
        ensures
            tokens(events@) == all,
        decreases pending_events(reader).len(),
    {
        let ghost before = events@;
        let ghost pending = pending_events(reader);
        let event = next_event(&mut reader);
        assert(event@ == all[before.len() as int]);
        let last = match &event {
            XmlEvent::Eof => true,
            XmlEvent::Fault(_) => true,
            _ => false,
        };
        events.push(event);
        assert(tokens(events@) =~= tokens(before).push(event@));
        assert(tokens(events@) + pending.drop_first() =~= all);
        if last {
            assert(events@.len() == all.len());
            assert(tokens(events@) =~= all);
            break;
        }
    }
    events
}

/// The text that `quick_xml` makes of escaped character data, or what its error says.
pub uninterp spec fn xml_unescaped(text: Seq<char>) -> Result<Seq<char>, ErrorModel>;

/// The text as it is, and no error.
pub open spec fn unchanged(text: Seq<char>) -> Result<Seq<char>, ErrorModel> {
    Ok(text)
}

/// `quick_xml::escape::unescape`: replaces the entity and character references of a text, or says
/// which one it does not know. A text without `&` is left as it is. The error comes with the text
/// that `anyhow::Error` shows of it and its causes in the alternate form.
#[verifier::external_body]
pub(crate) fn unescape(text: &str) -> (r: Result<String, ErrorText>)
    ensures
        text_result(r) == xml_unescaped(text@),
        !text@.contains('&') ==> text_result(r) == unchanged(text@),
{
    match quick_xml::escape::unescape(text) {
        Ok(plain) => Ok(plain.into_owned()),
        Err(error) => Err(ErrorText {
            message: error.to_string(),
            chain: format!("{:#}", Error::from(error)),
        }),
    }
}

/// The text of the error that `std::str::from_utf8` gives for bytes that are not valid UTF-8.
pub uninterp spec fn utf8_fault(bytes: Seq<u8>) -> Seq<char>;

/// `std::str::from_utf8`: the characters that the bytes encode, or the text of its error where they
/// are not valid UTF-8.
#[verifier::external_body]
pub(crate) fn utf8_text(bytes: &[u8]) -> (r: Result<String, String>)
    ensures
        r is Ok == valid_utf8(bytes@),
        r matches Ok(text) ==> text@ == decode_utf8(bytes@),
        r matches Err(fault) ==> fault@ == utf8_fault(bytes@),
{
    match std::str::from_utf8(bytes) {
        Ok(text) => Ok(text.to_owned()),
        Err(error) => Err(error.to_string()),
    }
}

/// The text that `String::from_utf8_lossy` makes of bytes.
pub uninterp spec fn utf8_lossy(bytes: Seq<u8>) -> Seq<char>;

/// `String::from_utf8_lossy`: the characters that the bytes encode, with replacement characters
/// in place of what is not valid UTF-8.
#[verifier::external_body]
pub(crate) fn lossy_text(bytes: &[u8]) -> (r: String)
    ensures
        r@ == utf8_lossy(bytes@),
        valid_utf8(bytes@) ==> r@ == decode_utf8(bytes@),
{
    String::from_utf8_lossy(bytes).into_owned()
}

} // verus!
