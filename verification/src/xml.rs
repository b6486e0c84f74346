//! Events of an XML document.
//!
//! Tokens come from `quick_xml`. Their parts are decoded here into plain values,
//! and everything else in this crate works on those: [`XmlEvent`],
//! [`XmlElement`] and [`XmlAttribute`]. A part that cannot be decoded is held as
//! the error that reading it gives, so that it is only reported where it is used.

use quick_xml::encoding::EncodingError;
use quick_xml::escape::EscapeError;
use quick_xml::events::attributes::Attribute;
use quick_xml::events::{BytesCData, BytesEnd, BytesRef, BytesStart, BytesText, Event};
use quick_xml::{Error as XmlError, Reader};
use vstd::prelude::*;

use crate::error::ErrorView;
use crate::text;

verus! {

// Types of `quick_xml` that are carried through.

#[verifier::external_type_specification]
#[verifier::external_body]
#[verifier::reject_recursive_types(R)]
pub struct ExReader<R>(Reader<R>);

#[verifier::external_type_specification]
#[verifier::external_body]
pub struct ExBytesStart<'a>(BytesStart<'a>);

#[verifier::external_type_specification]
#[verifier::external_body]
pub struct ExBytesEnd<'a>(BytesEnd<'a>);

#[verifier::external_type_specification]
#[verifier::external_body]
pub struct ExBytesText<'a>(BytesText<'a>);

#[verifier::external_type_specification]
#[verifier::external_body]
pub struct ExBytesCData<'a>(BytesCData<'a>);

#[verifier::external_type_specification]
#[verifier::external_body]
pub struct ExBytesRef<'a>(BytesRef<'a>);

#[verifier::external_type_specification]
#[verifier::external_body]
pub struct ExAttribute<'a>(Attribute<'a>);

#[verifier::external_type_specification]
#[verifier::external_body]
pub struct ExXmlError(XmlError);

#[verifier::external_type_specification]
#[verifier::external_body]
pub struct ExEncodingError(EncodingError);

#[verifier::external_type_specification]
#[verifier::external_body]
pub struct ExEscapeError(EscapeError);

/// Cloning a `quick_xml::Error` gives an equal error.
pub assume_specification[ <XmlError as Clone>::clone ](error: &XmlError) -> (copy:
    XmlError)
    ensures
        copy == *error,
;

// Tokens, as `quick_xml` reads them.

/// An attribute before decoding: the bytes of its local name and of its value.
pub struct RawAttribute {
    pub name: Seq<u8>,
    pub value: Seq<u8>,
}

/// An opening or empty tag before decoding: the bytes of its local name, and its
/// attributes in document order.
pub struct RawTag {
    pub name: Seq<u8>,
    pub attributes: Seq<Result<RawAttribute, XmlError>>,
}

/// A token of a document before decoding.
pub enum RawToken {
    Start(RawTag),
    Empty(RawTag),
    End(Seq<u8>),
    Text(Seq<u8>),
    CData(Seq<u8>),
    Reference(Seq<u8>),
    Comment,
    Declaration,
    Instruction,
    DocumentType,
    Eof,
}

/// A token with its parts still in the hands of `quick_xml`.
enum Token<'a> {
    Start(BytesStart<'a>),
    Empty(BytesStart<'a>),
    End(BytesEnd<'a>),
    Text(BytesText<'a>),
    CData(BytesCData<'a>),
    Reference(BytesRef<'a>),
    Comment,
    Declaration,
    Instruction,
    DocumentType,
    Eof,
}

/// What the calls of `read_event` on a reader made of `source` return, one after the
/// other, through the first that is an error or the end of the document.
pub uninterp spec fn document_tokens(source: Seq<u8>) -> Seq<Result<RawToken, XmlError>>;

/// What the calls of `read_event` on `reader` will return, one after the other, through
/// the first that is an error or the end of the document.
pub uninterp spec fn pending_tokens(reader: &Reader<&[u8]>) -> Seq<
    Result<RawToken, XmlError>,
>;

/// The bytes of a tag's local name.
pub uninterp spec fn tag_name(tag: &BytesStart) -> Seq<u8>;

/// The attributes of a tag.
pub uninterp spec fn tag_attributes(tag: &BytesStart) -> Seq<
    Result<RawAttribute, XmlError>,
>;

/// The bytes of an attribute's local name.
pub uninterp spec fn attribute_name(attribute: &Attribute) -> Seq<u8>;

/// The bytes of an attribute's value.
pub uninterp spec fn attribute_bytes(attribute: &Attribute) -> Seq<u8>;

/// The bytes of a closing tag's local name.
pub uninterp spec fn end_name(tag: &BytesEnd) -> Seq<u8>;

/// The bytes of a text.
pub uninterp spec fn text_bytes(text: &BytesText) -> Seq<u8>;

/// The bytes of a CDATA section.
pub uninterp spec fn cdata_bytes(section: &BytesCData) -> Seq<u8>;

/// The bytes of a reference, between its ampersand and its semicolon.
pub uninterp spec fn reference_bytes(reference: &BytesRef) -> Seq<u8>;

/// What `Attribute::decode_and_unescape_value` returns for a value of these bytes, which
/// hold a reference or are not valid UTF-8.
pub uninterp spec fn escaped_attribute_value(bytes: Seq<u8>) -> Result<Seq<char>, XmlError>;

/// The error of `BytesText::xml_content` for a text of these bytes, which are not valid
/// UTF-8.
pub uninterp spec fn text_error(bytes: Seq<u8>) -> EncodingError;

/// The error of `BytesCData::decode` for a section of these bytes, which are not valid
/// UTF-8.
pub uninterp spec fn cdata_error(bytes: Seq<u8>) -> EncodingError;

/// The error of `BytesRef::decode` for a reference of these bytes, which are not valid
/// UTF-8.
pub uninterp spec fn reference_error(bytes: Seq<u8>) -> EncodingError;

/// What `unescape` returns for this text, which holds references.
pub uninterp spec fn unescaped_references(raw: Seq<char>) -> Result<Seq<char>, EscapeError>;

/// What `String::from_utf8_lossy` returns for these bytes, which are not valid UTF-8.
pub uninterp spec fn replaced_text(bytes: Seq<u8>) -> Seq<char>;

/// Whether nothing is read after this: the end of the document or an error.
pub open spec fn is_last(token: Result<RawToken, XmlError>) -> bool {
    token is Err || token->Ok_0 is Eof
}

/// The view of a decoded text.
pub open spec fn decoded<E>(text: Result<String, E>) -> Result<Seq<char>, E> {
    match text {
        Ok(text) => Ok(text@),
        Err(error) => Err(error),
    }
}

/// `s` with each line end, which is a carriage return and line feed, a carriage return
/// and next line, or one of carriage return, next line and line separator alone, made a
/// line feed.
pub open spec fn normalized_line_ends(s: Seq<char>) -> Seq<char>
    decreases s.len(),
{
    if s.len() == 0 {
        s
    } else if s.len() > 1 && s[0] == '\r' && (s[1] == '\n' || s[1] == '\u{85}') {
        seq!['\n'] + normalized_line_ends(s.skip(2))
    } else if s[0] == '\r' || s[0] == '\u{85}' || s[0] == '\u{2028}' {
        seq!['\n'] + normalized_line_ends(s.skip(1))
    } else {
        seq![s[0]] + normalized_line_ends(s.skip(1))
    }
}

/// What a predefined entity stands for, by its name.
pub open spec fn predefined(name: Seq<char>) -> Option<Seq<char>> {
    if name == "lt"@ {
        Some(seq!['<'])
    } else if name == "gt"@ {
        Some(seq!['>'])
    } else if name == "amp"@ {
        Some(seq!['&'])
    } else if name == "apos"@ {
        Some(seq!['\''])
    } else if name == "quot"@ {
        Some(seq!['"'])
    } else {
        None
    }
}

/// What lies between the first and the last character of a text.
pub open spec fn inner(s: Seq<char>) -> Seq<char> {
    s.subrange(1, s.len() - 1)
}

/// Whether a text is a single reference to a predefined entity.
pub open spec fn is_predefined_reference(raw: Seq<char>) -> bool {
    raw.len() >= 2 && raw[0] == '&' && raw.last() == ';' && predefined(inner(raw)) is Some
}

/// The text of a value of these bytes, or the error that decoding it gives. Valid UTF-8
/// without an ampersand is kept as it is.
pub open spec fn attribute_value(bytes: Seq<u8>) -> Result<Seq<char>, XmlError> {
    if vstd::utf8::valid_utf8(bytes) && !bytes.contains(0x26) {
        Ok(vstd::utf8::decode_utf8(bytes))
    } else {
        escaped_attribute_value(bytes)
    }
}

/// The content of a text of these bytes, with its line ends normalized, or the error that
/// decoding it gives.
pub open spec fn text_content(bytes: Seq<u8>) -> Result<Seq<char>, EncodingError> {
    if vstd::utf8::valid_utf8(bytes) {
        Ok(normalized_line_ends(vstd::utf8::decode_utf8(bytes)))
    } else {
        Err(text_error(bytes))
    }
}

/// The content of a CDATA section of these bytes, or the error that decoding it gives.
pub open spec fn cdata_content(bytes: Seq<u8>) -> Result<Seq<char>, EncodingError> {
    if vstd::utf8::valid_utf8(bytes) {
        Ok(vstd::utf8::decode_utf8(bytes))
    } else {
        Err(cdata_error(bytes))
    }
}

/// What a reference of these bytes holds, or the error that decoding it gives.
pub open spec fn reference_content(bytes: Seq<u8>) -> Result<Seq<char>, EncodingError> {
    if vstd::utf8::valid_utf8(bytes) {
        Ok(vstd::utf8::decode_utf8(bytes))
    } else {
        Err(reference_error(bytes))
    }
}

/// A text with its references replaced by what they stand for, or the error that this
/// gives.
pub open spec fn unescaped(raw: Seq<char>) -> Result<Seq<char>, EscapeError> {
    if !raw.contains('&') {
        Ok(raw)
    } else if is_predefined_reference(raw) {
        Ok(predefined(inner(raw))->0)
    } else {
        unescaped_references(raw)
    }
}

/// The text of these bytes, with replacement characters for what is not valid UTF-8.
pub open spec fn lossy_text(bytes: Seq<u8>) -> Seq<char> {
    if vstd::utf8::valid_utf8(bytes) {
        vstd::utf8::decode_utf8(bytes)
    } else {
        replaced_text(bytes)
    }
}

spec fn raw_attribute(attribute: Result<Attribute, XmlError>) -> Result<
    RawAttribute,
    XmlError,
> {
    match attribute {
        Ok(attribute) => Ok(
            RawAttribute {
                name: attribute_name(&attribute),
                value: attribute_bytes(&attribute),
            },
        ),
        Err(error) => Err(error),
    }
}

spec fn raw_tag(tag: &BytesStart) -> RawTag {
    RawTag { name: tag_name(tag), attributes: tag_attributes(tag) }
}

spec fn raw_token(token: Result<Token, XmlError>) -> Result<RawToken, XmlError> {
    match token {
        Ok(Token::Start(tag)) => Ok(RawToken::Start(raw_tag(&tag))),
        Ok(Token::Empty(tag)) => Ok(RawToken::Empty(raw_tag(&tag))),
        Ok(Token::End(tag)) => Ok(RawToken::End(end_name(&tag))),
        Ok(Token::Text(text)) => Ok(RawToken::Text(text_bytes(&text))),
        Ok(Token::CData(section)) => Ok(RawToken::CData(cdata_bytes(&section))),
        Ok(Token::Reference(reference)) => Ok(RawToken::Reference(reference_bytes(&reference))),
        Ok(Token::Comment) => Ok(RawToken::Comment),
        Ok(Token::Declaration) => Ok(RawToken::Declaration),
        Ok(Token::Instruction) => Ok(RawToken::Instruction),
        Ok(Token::DocumentType) => Ok(RawToken::DocumentType),
        Ok(Token::Eof) => Ok(RawToken::Eof),
        Err(error) => Err(error),
    }
}

/// `Reader::from_reader` makes a reader of the bytes of a document. White space in text
/// is kept. What the reader will return depends on the bytes alone: tokens, and at the end,
/// for the first time, the end of the document or an error. It takes at least one byte for
/// each token before its last.
#[verifier::external_body]
fn make_reader(source: &[u8]) -> (reader: Reader<&[u8]>)
    ensures
        pending_tokens(&reader) == document_tokens(source@),
        0 < pending_tokens(&reader).len() <= source@.len() + 1,
        is_last(pending_tokens(&reader).last()),
        forall|i: int|
            0 <= i < pending_tokens(&reader).len() - 1 ==> !is_last(
                #[trigger] pending_tokens(&reader)[i],
            ),
{
    let mut reader = Reader::from_reader(source);
    reader.config_mut().trim_text(false);
    reader
}

/// `Reader::read_event` returns the next token of the document. There always is one:
/// the document ends with an error or with the token for its end. After any other token
/// the reader goes on with the one that follows.
#[verifier::external_body]
fn read_token<'a>(reader: &mut Reader<&'a [u8]>) -> (token: Result<Token<'a>, XmlError>)
    ensures
        pending_tokens(old(reader)).len() > 0,
        raw_token(token) == pending_tokens(old(reader))[0],
        !is_last(raw_token(token)) ==> pending_tokens(final(reader)) == pending_tokens(
            old(reader),
        ).skip(1) && pending_tokens(final(reader)).len() > 0,
{
    Ok(match reader.read_event()? {
        Event::Start(tag) => Token::Start(tag),
        Event::Empty(tag) => Token::Empty(tag),
        Event::End(tag) => Token::End(tag),
        Event::Text(text) => Token::Text(text),
        Event::CData(section) => Token::CData(section),
        Event::GeneralRef(reference) => Token::Reference(reference),
        Event::Comment(_) => Token::Comment,
        Event::Decl(_) => Token::Declaration,
        Event::PI(_) => Token::Instruction,
        Event::DocType(_) => Token::DocumentType,
        Event::Eof => Token::Eof,
    })
}

/// `BytesStart::local_name` returns the bytes of the tag's local name.
#[verifier::external_body]
fn local_name(tag: &BytesStart) -> (name: Vec<u8>)
    ensures
        name@ == tag_name(tag),
{
    tag.local_name().as_ref().to_vec()
}

/// `BytesEnd::local_name` returns the bytes of the closing tag's local name.
#[verifier::external_body]
fn local_end_name(tag: &BytesEnd) -> (name: Vec<u8>)
    ensures
        name@ == end_name(tag),
{
    tag.local_name().as_ref().to_vec()
}

/// `BytesStart::attributes`, without the check that names are unique, hands out the
/// attributes of the tag in document order.
#[verifier::external_body]
fn attributes<'t>(tag: &'t BytesStart) -> (list: Vec<Result<Attribute<'t>, XmlError>>)
    ensures
        list@.len() == tag_attributes(tag).len(),
        forall|i: int|
            0 <= i < list@.len() ==> raw_attribute(#[trigger] list@[i]) == tag_attributes(tag)[i],
{
    tag.attributes().with_checks(false).map(|item| item.map_err(XmlError::from)).collect()
}

/// `QName::local_name` returns the bytes of the attribute's local name.
#[verifier::external_body]
fn local_attribute_name(attribute: &Attribute) -> (name: Vec<u8>)
    ensures
        name@ == attribute_name(attribute),
{
    attribute.key.local_name().as_ref().to_vec()
}

/// `Attribute::decode_and_unescape_value` decodes the value of an attribute and replaces
/// its references, with the reader's decoder, which is always that for UTF-8. A value that
/// is valid UTF-8 without an ampersand is kept as it is; one that is not valid UTF-8 is an
/// error.
#[verifier::external_body]
fn unescaped_value(attribute: &Attribute, reader: &Reader<&[u8]>) -> (value: Result<
    String,
    XmlError,
>)
    ensures
        value is Ok ==> vstd::utf8::valid_utf8(attribute_bytes(attribute)),
        !vstd::utf8::valid_utf8(attribute_bytes(attribute)) || attribute_bytes(attribute).contains(
            0x26,
        ) ==> decoded(value) == escaped_attribute_value(attribute_bytes(attribute)),
        vstd::utf8::valid_utf8(attribute_bytes(attribute)) && !attribute_bytes(attribute).contains(
            0x26,
        ) ==> value is Ok && value->Ok_0@ == vstd::utf8::decode_utf8(attribute_bytes(attribute)),
{
    attribute.decode_and_unescape_value(reader.decoder()).map(|value| value.into_owned())
}

/// `BytesText::xml_content` decodes a text, which succeeds exactly where it is valid
/// UTF-8, and normalizes its line ends.
#[verifier::external_body]
fn content(text: &BytesText) -> (content: Result<String, EncodingError>)
    ensures
        content is Err ==> content->Err_0 == text_error(text_bytes(text)),
        content is Ok <==> vstd::utf8::valid_utf8(text_bytes(text)),
        content is Ok ==> content->Ok_0@ == normalized_line_ends(
            vstd::utf8::decode_utf8(text_bytes(text)),
        ),
{
    text.xml_content().map(|content| content.into_owned())
}

/// `BytesCData::decode` decodes a CDATA section, which succeeds exactly where it is valid
/// UTF-8.
#[verifier::external_body]
fn decode_cdata(section: &BytesCData) -> (content: Result<String, EncodingError>)
    ensures
        content is Err ==> content->Err_0 == cdata_error(cdata_bytes(section)),
        content is Ok <==> vstd::utf8::valid_utf8(cdata_bytes(section)),
        content is Ok ==> content->Ok_0@ == vstd::utf8::decode_utf8(cdata_bytes(section)),
{
    section.decode().map(|content| content.into_owned())
}

/// `BytesRef::decode` decodes what a reference holds, which succeeds exactly where it is
/// valid UTF-8.
#[verifier::external_body]
fn decode_reference(reference: &BytesRef) -> (content: Result<String, EncodingError>)
    ensures
        content is Err ==> content->Err_0 == reference_error(reference_bytes(reference)),
        content is Ok <==> vstd::utf8::valid_utf8(reference_bytes(reference)),
        content is Ok ==> content->Ok_0@ == vstd::utf8::decode_utf8(reference_bytes(reference)),
{
    reference.decode().map(|content| content.into_owned())
}

/// `unescape` replaces the references in a text by what they stand for. A text without an
/// ampersand is kept as it is, and a reference to a predefined entity alone gives its
/// character.
#[verifier::external_body]
fn unescape(raw: &str) -> (text: Result<String, EscapeError>)
    ensures
        raw@.contains('&') && !is_predefined_reference(raw@) ==> decoded(text)
            == unescaped_references(raw@),
        !raw@.contains('&') ==> text is Ok && text->Ok_0@ == raw@,
        is_predefined_reference(raw@) ==> text is Ok && text->Ok_0@ == predefined(inner(raw@))->0,
{
    quick_xml::escape::unescape(raw).map(|text| text.into_owned())
}

/// `String::from_utf8_lossy` decodes UTF-8, with a replacement character for what is not
/// valid.
#[verifier::external_body]
fn decode_lossy(bytes: &[u8]) -> (text: String)
    ensures
        !vstd::utf8::valid_utf8(bytes@) ==> text@ == replaced_text(bytes@),
        vstd::utf8::valid_utf8(bytes@) ==> text@ == vstd::utf8::decode_utf8(bytes@),
{
    String::from_utf8_lossy(bytes).into_owned()
}

// Decoded events.

/// An attribute: its local name, and its value or the error that decoding it gives.
#[derive(Debug)]
pub struct XmlAttribute {
    pub name: String,
    pub value: Result<String, XmlError>,
}

/// An opening or empty tag: its local name, and its attributes in document order. An
/// attribute that is not well-formed is an error in its place.
#[derive(Debug)]
pub struct XmlElement {
    pub name: String,
    pub attributes: Vec<Result<XmlAttribute, XmlError>>,
}

/// One event of a document.
#[derive(Debug)]
pub enum XmlEvent {
    /// An opening tag.
    Start(XmlElement),
    /// The tag of an element without content.
    Empty(XmlElement),
    /// A closing tag, by its local name.
    End(String),
    /// Text between tags.
    Text(Result<String, EncodingError>),
    /// The content of a CDATA section.
    CData(Result<String, EncodingError>),
    /// An entity or character reference in text, without its ampersand and semicolon.
    Reference(Result<String, EncodingError>),
    /// The end of the document.
    Eof,
    /// A comment, a declaration, a processing instruction or a document type.
    Other,
}

/// The view of an [`XmlAttribute`].
pub struct AttributeView {
    pub name: Seq<char>,
    pub value: Result<Seq<char>, XmlError>,
}

/// The view of an [`XmlElement`].
pub struct ElementView {
    pub name: Seq<char>,
    pub attributes: Seq<Result<AttributeView, XmlError>>,
}

/// The view of an [`XmlEvent`].
pub enum EventView {
    Start(ElementView),
    Empty(ElementView),
    End(Seq<char>),
    Text(Result<Seq<char>, EncodingError>),
    CData(Result<Seq<char>, EncodingError>),
    Reference(Result<Seq<char>, EncodingError>),
    Eof,
    Other,
}

impl View for XmlAttribute {
    type V = AttributeView;

    open spec fn view(&self) -> AttributeView {
        AttributeView { name: self.name@, value: decoded(self.value) }
    }
}

/// The view of an attribute in its place.
pub open spec fn attribute_view(
    attribute: Result<XmlAttribute, XmlError>,
) -> Result<AttributeView, XmlError> {
    match attribute {
        Ok(attribute) => Ok(attribute@),
        Err(error) => Err(error),
    }
}

impl View for XmlElement {
    type V = ElementView;

    open spec fn view(&self) -> ElementView {
        ElementView {
            name: self.name@,
            attributes: self.attributes@.map_values(
                |attribute: Result<XmlAttribute, XmlError>| attribute_view(attribute),
            ),
        }
    }
}

impl View for XmlEvent {
    type V = EventView;

    open spec fn view(&self) -> EventView {
        match *self {
            XmlEvent::Start(element) => EventView::Start(element@),
            XmlEvent::Empty(element) => EventView::Empty(element@),
            XmlEvent::End(name) => EventView::End(name@),
            XmlEvent::Text(content) => EventView::Text(decoded(content)),
            XmlEvent::CData(content) => EventView::CData(decoded(content)),
            XmlEvent::Reference(content) => EventView::Reference(decoded(content)),
            XmlEvent::Eof => EventView::Eof,
            XmlEvent::Other => EventView::Other,
        }
    }
}

/// The attribute that the bytes of a raw one stand for.
pub open spec fn decoded_attribute(
    attribute: Result<RawAttribute, XmlError>,
) -> Result<AttributeView, XmlError> {
    match attribute {
        Ok(attribute) => Ok(
            AttributeView {
                name: lossy_text(attribute.name),
                value: attribute_value(attribute.value),
            },
        ),
        Err(error) => Err(error),
    }
}

/// The element that the bytes of a tag stand for.
pub open spec fn decoded_tag(tag: RawTag) -> ElementView {
    ElementView {
        name: lossy_text(tag.name),
        attributes: tag.attributes.map_values(
            |attribute: Result<RawAttribute, XmlError>| decoded_attribute(attribute),
        ),
    }
}

/// The event that the bytes of a token stand for.
pub open spec fn decoded_token(token: Result<RawToken, XmlError>) -> Result<
    EventView,
    XmlError,
> {
    match token {
        Ok(RawToken::Start(tag)) => Ok(EventView::Start(decoded_tag(tag))),
        Ok(RawToken::Empty(tag)) => Ok(EventView::Empty(decoded_tag(tag))),
        Ok(RawToken::End(name)) => Ok(EventView::End(lossy_text(name))),
        Ok(RawToken::Text(bytes)) => Ok(EventView::Text(text_content(bytes))),
        Ok(RawToken::CData(bytes)) => Ok(EventView::CData(cdata_content(bytes))),
        Ok(RawToken::Reference(bytes)) => Ok(EventView::Reference(reference_content(bytes))),
        Ok(RawToken::Comment) | Ok(RawToken::Declaration) | Ok(RawToken::Instruction) | Ok(
            RawToken::DocumentType,
        ) => Ok(EventView::Other),
        Ok(RawToken::Eof) => Ok(EventView::Eof),
        Err(error) => Err(error),
    }
}

/// The events that tokens stand for.
pub open spec fn decoded_tokens(tokens: Seq<Result<RawToken, XmlError>>) -> Seq<
    Result<EventView, XmlError>,
> {
    tokens.map_values(|token: Result<RawToken, XmlError>| decoded_token(token))
}

/// The events of a document, through its end or the first error.
pub open spec fn document_events(source: Seq<u8>) -> Seq<Result<EventView, XmlError>> {
    decoded_tokens(document_tokens(source))
}

/// The events that a reader has still to return, through the end of the document or the
/// first error.
pub open spec fn pending_events(reader: &Reader<&[u8]>) -> Seq<
    Result<EventView, XmlError>,
> {
    decoded_tokens(pending_tokens(reader))
}

/// Whether events are those of a whole document: the last, and no other, is the end of the
/// document or an error.
pub open spec fn is_whole(events: Seq<Result<EventView, XmlError>>) -> bool {
    &&& events.len() > 0
    &&& events.last() is Err || events.last()->Ok_0 is Eof
    &&& forall|i: int|
        0 <= i < events.len() - 1 ==> (#[trigger] events[i]) is Ok && !(events[i]->Ok_0 is Eof)
}

/// The view of an event that was read.
pub open spec fn read_view(event: Result<XmlEvent, XmlError>) -> Result<
    EventView,
    XmlError,
> {
    match event {
        Ok(event) => Ok(event@),
        Err(error) => Err(error),
    }
}

/// Opens a document at its start.
pub(crate) fn open_document(source: &[u8]) -> (reader: Reader<&[u8]>)
    ensures
        pending_events(&reader) == document_events(source@),
        0 < pending_events(&reader).len() <= source@.len() + 1,
        is_whole(pending_events(&reader)),
{
    let reader = make_reader(source);
    proof {
        let tokens = pending_tokens(&reader);
        let events = pending_events(&reader);
        assert(events.last() == decoded_token(tokens.last()));
        assert forall|i: int| 0 <= i < events.len() - 1 implies (#[trigger] events[i]) is Ok && !(
        events[i]->Ok_0 is Eof) by {
            assert(!is_last(tokens[i]));
        }
    }
    reader
}

fn element(tag: &BytesStart, reader: &Reader<&[u8]>) -> (element: XmlElement)
    ensures
        element@ == decoded_tag(raw_tag(tag)),
{
    let name = decode_lossy(local_name(tag).as_slice());
    let list = attributes(tag);
    let mut decoded_list: Vec<Result<XmlAttribute, XmlError>> = Vec::new();
    let mut i: usize = 0;
    while i < list.len()
        invariant
            i <= list@.len() == tag_attributes(tag).len(),
            decoded_list@.len() == i,
            forall|k: int|
                0 <= k < list@.len() ==> raw_attribute(#[trigger] list@[k]) == tag_attributes(
                    tag,
                )[k],
            forall|k: int|
                0 <= k < i ==> attribute_view(#[trigger] decoded_list@[k]) == decoded_attribute(
                    tag_attributes(tag)[k],
                ),
        decreases list@.len() - i,
    {
        assert(raw_attribute(list@[i as int]) == tag_attributes(tag)[i as int]);
        let item = match &list[i] {
            Ok(attribute) => Ok(
                XmlAttribute {
                    name: decode_lossy(local_attribute_name(attribute).as_slice()),
                    value: unescaped_value(attribute, reader),
                },
            ),
            Err(error) => Err(error.clone()),
        };
        decoded_list.push(item);
        i += 1;
    }
    let element = XmlElement { name, attributes: decoded_list };
    assert(element@.attributes =~= decoded_tag(raw_tag(tag)).attributes);
    element
}

/// Reads the next event of a document. After an event that is not the last, the reader
/// goes on with the one that follows.
pub(crate) fn next_event(reader: &mut Reader<&[u8]>) -> (event: Result<XmlEvent, XmlError>)
    ensures
        pending_events(old(reader)).len() > 0,
        read_view(event) == pending_events(old(reader))[0],
        event is Ok && !(event->Ok_0 is Eof) ==> pending_events(final(reader)) == pending_events(
            old(reader),
        ).skip(1) && pending_events(final(reader)).len() > 0,
{
    let ghost before = pending_tokens(reader);
    let token = read_token(reader);
    proof {
        if !is_last(raw_token(token)) {
            assert(decoded_tokens(before.skip(1)) =~= decoded_tokens(before).skip(1));
        }
    }
    match token {
        Err(error) => Err(error),
        Ok(Token::Start(tag)) => Ok(XmlEvent::Start(element(&tag, reader))),
        Ok(Token::Empty(tag)) => Ok(XmlEvent::Empty(element(&tag, reader))),
        Ok(Token::End(tag)) => Ok(XmlEvent::End(decode_lossy(local_end_name(&tag).as_slice()))),
        Ok(Token::Text(text)) => Ok(XmlEvent::Text(content(&text))),
        Ok(Token::CData(section)) => Ok(XmlEvent::CData(decode_cdata(&section))),
        Ok(Token::Reference(reference)) => Ok(XmlEvent::Reference(decode_reference(&reference))),
        Ok(Token::Comment) | Ok(Token::Declaration) | Ok(Token::Instruction) | Ok(
            Token::DocumentType,
        ) => Ok(XmlEvent::Other),
        Ok(Token::Eof) => Ok(XmlEvent::Eof),
    }
}

/// The value of the first attribute of that name, where there is one. An attribute before
/// it that is not well-formed is an error, as is a value that cannot be decoded.
pub open spec fn found_attribute(
    attributes: Seq<Result<AttributeView, XmlError>>,
    name: Seq<char>,
) -> Result<Option<Seq<char>>, XmlError>
    decreases attributes.len(),
{
    if attributes.len() == 0 {
        Ok(None)
    } else {
        match attributes[0] {
            Err(error) => Err(error),
            Ok(attribute) => if attribute.name == name {
                match attribute.value {
                    Ok(value) => Ok(Some(value)),
                    Err(error) => Err(error),
                }
            } else {
                found_attribute(attributes.skip(1), name)
            },
        }
    }
}

/// The view of a value that was looked up.
pub open spec fn found_view(value: Result<Option<String>, XmlError>) -> Result<
    Option<Seq<char>>,
    XmlError,
> {
    match value {
        Ok(value) => Ok(text::optional(value)),
        Err(error) => Err(error),
    }
}

/// The value of an optional attribute.
pub open spec fn optional_value(element: ElementView, name: Seq<char>) -> Result<
    Option<Seq<char>>,
    ErrorView,
> {
    match found_attribute(element.attributes, name) {
        Ok(value) => Ok(value),
        Err(error) => Err(ErrorView::Xml(error)),
    }
}

/// Looks up the value of an attribute by its local name.
pub fn attribute(element: &XmlElement, name: &str) -> (value: Result<
    Option<String>,
    XmlError,
>)
    ensures
        found_view(value) == found_attribute(element@.attributes, name@),
{
    let ghost list = element@.attributes;
    let mut i: usize = 0;
    assert(list.skip(0) =~= list);
    while i < element.attributes.len()
        invariant
            i <= element.attributes@.len(),
            list == element@.attributes,
            found_attribute(list, name@) == found_attribute(list.skip(i as int), name@),
        decreases element.attributes@.len() - i,
    {
        assert(list.skip(i as int)[0] == attribute_view(element.attributes@[i as int]));
        assert(list.skip(i as int).skip(1) =~= list.skip(i + 1));
        match &element.attributes[i] {
            Err(error) => {
                return Err(error.clone());
            },
            Ok(found) => {
                if text::same(found.name.as_str(), name) {
                    return match &found.value {
                        Ok(value) => Ok(Some(value.clone())),
                        Err(error) => Err(error.clone()),
                    };
                }
            },
        }
        i += 1;
    }
    Ok(None)
}

/// What a reference in text stands for.
pub open spec fn resolved(reference: Seq<char>) -> Result<Seq<char>, EscapeError> {
    unescaped(seq!['&'] + reference + seq![';'])
}

/// A reference to a predefined entity stands for its character.
pub proof fn law_predefined_references(name: Seq<char>)
    requires
        predefined(name) is Some,
    ensures
        resolved(name) == Ok::<Seq<char>, EscapeError>(predefined(name)->0),
{
    let raw = seq!['&'] + name + seq![';'];
    assert(raw[0] == '&');
    assert(inner(raw) =~= name);
}

/// Replaces a reference in text by what it stands for.
pub fn resolve_reference(reference: &str) -> (text: Result<String, EscapeError>)
    ensures
        decoded(text) == resolved(reference@),
{
    let mut raw = String::new();
    raw.push('&');
    raw.append(reference);
    raw.push(';');
    assert(raw@ =~= seq!['&'] + reference@ + seq![';']);
    unescape(raw.as_str())
}

/// The attribute that counts is the first of its name: what stands before it has other names
/// and is well-formed, and what stands behind it makes no difference.
pub proof fn law_first_attribute(
    attributes: Seq<Result<AttributeView, XmlError>>,
    name: Seq<char>,
    i: int,
)
    requires
        0 <= i < attributes.len(),
        attributes[i] is Ok ==> attributes[i]->Ok_0.name == name,
        forall|j: int|
            0 <= j < i ==> (#[trigger] attributes[j]) is Ok && attributes[j]->Ok_0.name != name,
    ensures
        attributes[i] matches Err(error) ==> found_attribute(attributes, name) == Err::<
            Option<Seq<char>>,
            XmlError,
        >(error),
        attributes[i] matches Ok(attribute) ==> match attribute.value {
            Ok(value) => found_attribute(attributes, name) == Ok::<Option<Seq<char>>, XmlError>(
                Some(value),
            ),
            Err(error) => found_attribute(attributes, name) == Err::<Option<Seq<char>>, XmlError>(
                error,
            ),
        },
    decreases i,
{
    if i > 0 {
        assert(attributes[0] is Ok);
        let rest = attributes.skip(1);
        assert forall|j: int| 0 <= j < i - 1 implies (#[trigger] rest[j]) is Ok
            && rest[j]->Ok_0.name != name by {
            assert(attributes[j + 1] is Ok && attributes[j + 1]->Ok_0.name != name);
        }
        law_first_attribute(rest, name, i - 1);
    }
}

/// There is no attribute of a name exactly where all attributes are well-formed and none has
/// that name.
pub proof fn law_missing_attribute(
    attributes: Seq<Result<AttributeView, XmlError>>,
    name: Seq<char>,
)
    ensures
        found_attribute(attributes, name) == Ok::<Option<Seq<char>>, XmlError>(None) <==> forall|
            j: int,
        |
            0 <= j < attributes.len() ==> (#[trigger] attributes[j]) is Ok
                && attributes[j]->Ok_0.name != name,
    decreases attributes.len(),
{
    if attributes.len() > 0 {
        let rest = attributes.skip(1);
        law_missing_attribute(rest, name);
        if found_attribute(attributes, name) == Ok::<Option<Seq<char>>, XmlError>(None) {
            assert forall|j: int| 0 <= j < attributes.len() implies (
            #[trigger] attributes[j]) is Ok && attributes[j]->Ok_0.name != name by {
                if j > 0 {
                    assert(rest[j - 1] is Ok && rest[j - 1]->Ok_0.name != name);
                }
            }
        }
        if forall|j: int|
            0 <= j < attributes.len() ==> (#[trigger] attributes[j]) is Ok
                && attributes[j]->Ok_0.name != name {
            assert(attributes[0] is Ok);
            assert forall|j: int| 0 <= j < rest.len() implies (#[trigger] rest[j]) is Ok
                && rest[j]->Ok_0.name != name by {
                assert(attributes[j + 1] is Ok && attributes[j + 1]->Ok_0.name != name);
            }
        }
    }
}

/// The value of an attribute of an element is the one that is found among its attributes; an
/// error is one of the document.
pub proof fn law_optional_value(element: ElementView, name: Seq<char>)
    ensures
        found_attribute(element.attributes, name) matches Ok(value) ==> optional_value(
            element,
            name,
        ) == Ok::<Option<Seq<char>>, ErrorView>(value),
        found_attribute(element.attributes, name) matches Err(error) ==> optional_value(
            element,
            name,
        ) == Err::<Option<Seq<char>>, ErrorView>(ErrorView::Xml(error)),
{
}

/// An element has the name and all the attributes of its tag, in their order.
pub proof fn law_decoded_tag(tag: RawTag)
    ensures
        vstd::utf8::valid_utf8(tag.name) ==> decoded_tag(tag).name == vstd::utf8::decode_utf8(
            tag.name,
        ),
        decoded_tag(tag).attributes.len() == tag.attributes.len(),
        forall|i: int|
            0 <= i < tag.attributes.len() ==> match #[trigger] tag.attributes[i] {
                Err(error) => decoded_tag(tag).attributes[i] == Err::<AttributeView, XmlError>(
                    error,
                ),
                Ok(attribute) => {
                    &&& decoded_tag(tag).attributes[i] is Ok
                    &&& vstd::utf8::valid_utf8(attribute.name)
                        ==> decoded_tag(tag).attributes[i]->Ok_0.name == vstd::utf8::decode_utf8(
                        attribute.name,
                    )
                    &&& vstd::utf8::valid_utf8(attribute.value) && !attribute.value.contains(0x26)
                        ==> decoded_tag(tag).attributes[i]->Ok_0.value == Ok::<Seq<char>, XmlError>(
                        vstd::utf8::decode_utf8(attribute.value),
                    )
                },
            },
{
}

/// Each token of a document is one event of the same sort, in the same order.
pub proof fn law_document_events(source: Seq<u8>, i: int)
    requires
        0 <= i < document_tokens(source).len(),
    ensures
        document_events(source).len() == document_tokens(source).len(),
        match document_tokens(source)[i] {
            Err(error) => document_events(source)[i] == Err::<EventView, XmlError>(error),
            Ok(RawToken::Start(tag)) => document_events(source)[i] == Ok::<EventView, XmlError>(
                EventView::Start(decoded_tag(tag)),
            ),
            Ok(RawToken::Empty(tag)) => document_events(source)[i] == Ok::<EventView, XmlError>(
                EventView::Empty(decoded_tag(tag)),
            ),
            Ok(RawToken::End(_)) => document_events(source)[i] is Ok
                && document_events(source)[i]->Ok_0 is End,
            Ok(RawToken::Text(bytes)) => {
                &&& document_events(source)[i] is Ok && document_events(source)[i]->Ok_0 is Text
                &&& vstd::utf8::valid_utf8(bytes) ==> document_events(source)[i]->Ok_0
                    == EventView::Text(Ok(normalized_line_ends(vstd::utf8::decode_utf8(bytes))))
            },
            Ok(RawToken::CData(bytes)) => {
                &&& document_events(source)[i] is Ok && document_events(source)[i]->Ok_0 is CData
                &&& vstd::utf8::valid_utf8(bytes) ==> document_events(source)[i]->Ok_0
                    == EventView::CData(Ok(vstd::utf8::decode_utf8(bytes)))
            },
            Ok(RawToken::Reference(bytes)) => {
                &&& document_events(source)[i] is Ok
                    && document_events(source)[i]->Ok_0 is Reference
                &&& vstd::utf8::valid_utf8(bytes) ==> document_events(source)[i]->Ok_0
                    == EventView::Reference(Ok(vstd::utf8::decode_utf8(bytes)))
            },
            Ok(RawToken::Eof) => document_events(source)[i] == Ok::<EventView, XmlError>(
                EventView::Eof,
            ),
            Ok(_) => document_events(source)[i] == Ok::<EventView, XmlError>(EventView::Other),
        },
{
}

/// The predefined entities, one by one, and no others. A reference is resolved between its
/// ampersand and its semicolon.
pub proof fn law_predefined(name: Seq<char>)
    ensures
        predefined("lt"@) == Some(seq!['<']),
        predefined("gt"@) == Some(seq!['>']),
        predefined("amp"@) == Some(seq!['&']),
        predefined("apos"@) == Some(seq!['\'']),
        predefined("quot"@) == Some(seq!['"']),
        name != "lt"@ && name != "gt"@ && name != "amp"@ && name != "apos"@ && name != "quot"@
            ==> predefined(name) is None && resolved(name) == unescaped_references(
            seq!['&'] + name + seq![';'],
        ),
{
    reveal_strlit("lt");
    reveal_strlit("gt");
    reveal_strlit("amp");
    reveal_strlit("apos");
    reveal_strlit("quot");
    assert("lt"@.len() == 2 && "gt"@.len() == 2 && "amp"@.len() == 3 && "apos"@.len() == 4
        && "quot"@.len() == 4);
    assert("lt"@[0] == 'l' && "gt"@[0] == 'g' && "apos"@[0] == 'a' && "quot"@[0] == 'q');
    let raw = seq!['&'] + name + seq![';'];
    assert(raw[0] == '&');
    assert(inner(raw) =~= name);
}

/// The views of attributes, elements and events are their own, part for part.
pub proof fn law_views(element: XmlElement, event: XmlEvent, i: int)
    ensures
        element@.name == element.name@,
        element@.attributes.len() == element.attributes@.len(),
        0 <= i < element.attributes@.len() ==> match element.attributes@[i] {
            Err(error) => element@.attributes[i] == Err::<AttributeView, XmlError>(error),
            Ok(attribute) => {
                &&& element@.attributes[i] is Ok
                &&& element@.attributes[i]->Ok_0.name == attribute.name@
                &&& attribute.value matches Ok(value) ==> element@.attributes[i]->Ok_0.value
                    == Ok::<Seq<char>, XmlError>(value@)
                &&& attribute.value matches Err(error) ==> element@.attributes[i]->Ok_0.value
                    == Err::<Seq<char>, XmlError>(error)
            },
        },
        event matches XmlEvent::Start(element) ==> event@ == EventView::Start(element@),
        event matches XmlEvent::Empty(element) ==> event@ == EventView::Empty(element@),
        event matches XmlEvent::End(name) ==> event@ == EventView::End(name@),
        event matches XmlEvent::Text(Ok(content)) ==> event@ == EventView::Text(Ok(content@)),
        event matches XmlEvent::Text(Err(error)) ==> event@ == EventView::Text(Err(error)),
        event matches XmlEvent::CData(Ok(content)) ==> event@ == EventView::CData(Ok(content@)),
        event matches XmlEvent::CData(Err(error)) ==> event@ == EventView::CData(Err(error)),
        event matches XmlEvent::Reference(Ok(content)) ==> event@ == EventView::Reference(
            Ok(content@),
        ),
        event matches XmlEvent::Reference(Err(error)) ==> event@ == EventView::Reference(
            Err(error),
        ),
        event is Eof ==> event@ == EventView::Eof,
        event is Other ==> event@ == EventView::Other,
{
}

} // verus!
