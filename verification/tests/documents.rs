use quick_xml::Error as XmlError;
use scripture_lib::locale::{accept_locale, read_locale};
use scripture_lib::metadata::parse_metadata;
use scripture_lib::usx::{header_event, parse_usx_version, Header, VerseParser};
use scripture_lib::xml::{attribute, resolve_reference, XmlAttribute, XmlElement, XmlEvent};
use scripture_lib::{usx, BundleDraft, Error};

fn element(name: &str, attributes: &[(&str, &str)]) -> XmlElement {
    XmlElement {
        name: name.to_owned(),
        attributes: attributes
            .iter()
            .map(|(name, value)| {
                Ok(XmlAttribute {
                    name: (*name).to_owned(),
                    value: Ok((*value).to_owned()),
                })
            })
            .collect(),
    }
}

fn fault() -> XmlError {
    XmlError::from(quick_xml::escape::unescape("&nope;").unwrap_err())
}

#[test]
fn the_first_attribute_of_a_name_counts() {
    let mut tag = element("x", &[("a", "1"), ("b", "2"), ("a", "3")]);
    assert_eq!(attribute(&tag, "a").unwrap().as_deref(), Some("1"));
    assert_eq!(attribute(&tag, "b").unwrap().as_deref(), Some("2"));
    assert_eq!(attribute(&tag, "c").unwrap(), None);
    // A fault counts only where the search comes to it.
    tag.attributes.insert(1, Err(fault()));
    assert_eq!(attribute(&tag, "a").unwrap().as_deref(), Some("1"));
    assert!(attribute(&tag, "b").is_err());
    assert!(attribute(&tag, "c").is_err());
    tag.attributes[0] = Ok(XmlAttribute {
        name: "a".to_owned(),
        value: Err(fault()),
    });
    assert!(attribute(&tag, "a").is_err());
}

#[test]
fn references_are_resolved() {
    for (reference, expected) in [
        ("lt", "<"),
        ("gt", ">"),
        ("amp", "&"),
        ("apos", "'"),
        ("quot", "\""),
        ("#65", "A"),
        ("#x5d0", "\u{5d0}"),
    ] {
        assert_eq!(resolve_reference(reference).unwrap(), expected);
    }
    assert!(resolve_reference("nbsp").is_err());
    assert!(resolve_reference("#x110000").is_err());
    assert!(resolve_reference("").is_err());
}

#[test]
fn attribute_values_are_unescaped() {
    let source = "<usx version='2.0'><book code='A&amp;B' style='i&#100;'/></usx>";
    assert_eq!(usx::book_code(source.as_bytes()).unwrap(), "A&B");
    assert!(matches!(
        usx::book_code(b"<usx version='2.0'><book code='\xff' style='id'/></usx>"),
        Err(Error::Xml(_))
    ));
    // An attribute that is not well-formed is reported where the search comes to it.
    assert!(matches!(
        usx::book_code(b"<usx version='2.0'><book style='id' code=GEN/></usx>"),
        Err(Error::Xml(_))
    ));
    assert_eq!(
        usx::book_code(b"<usx version='2.0'><book style='id' code='GEN' x=y/></usx>").unwrap(),
        "GEN"
    );
}

#[test]
fn line_ends_are_white_space_of_a_verse() {
    let source = "<usx version='2.0'><book code='A' style='id'/><chapter number='1' style='c'/><verse number='1' style='v'/>a\rb\r\nc\u{85}d\u{2028}e<![CDATA[f\u{85}g]]></usx>";
    assert_eq!(
        usx::verses(source.as_bytes(), "A").unwrap()[0].text,
        "a b c d ef\u{85}g"
    );
}

#[test]
fn comments_and_declarations_are_skipped() {
    let source = "\u{feff}<?xml version='1.0'?><!DOCTYPE usx><usx version='2.0'><!-- <book/> --><?pi?><book code='RUT' style='id'/></usx>";
    assert_eq!(usx::book_code(source.as_bytes()).unwrap(), "RUT");
    assert!(usx::verses(source.as_bytes(), "RUT").unwrap().is_empty());
}

#[test]
fn events_can_be_given_one_by_one() {
    let mut parser = VerseParser::new("A");
    for event in [
        XmlEvent::Start(element("usx", &[("version", "3.0")])),
        XmlEvent::Empty(element("book", &[("code", "A"), ("style", "id")])),
        XmlEvent::Empty(element(
            "chapter",
            &[("number", "1"), ("style", "c"), ("sid", "A 1")],
        )),
        XmlEvent::Empty(element(
            "verse",
            &[("number", "1"), ("style", "v"), ("sid", "A 1:1")],
        )),
        XmlEvent::Text(Ok(" a ".to_owned())),
        XmlEvent::Other,
        XmlEvent::Reference(Ok("amp".to_owned())),
        XmlEvent::CData(Ok("b".to_owned())),
        XmlEvent::Empty(element("chapter", &[("eid", "A 1")])),
        XmlEvent::End("usx".to_owned()),
        XmlEvent::Eof,
    ] {
        parser = parser.event(event).unwrap();
    }
    let verses = parser.finish().unwrap();
    assert_eq!(verses.len(), 1);
    assert_eq!(verses[0].text, "a &b");
    assert_eq!(
        parse_usx_version(&element("usx", &[("version", "3.1")]))
            .unwrap()
            .major,
        3
    );
}

#[test]
fn locales_are_canonical() {
    assert_eq!(read_locale("en-us").unwrap().to_string(), "en-US");
    assert_eq!(read_locale("eng").unwrap().to_string(), "en");
    assert_eq!(read_locale("iw").unwrap().to_string(), "he");
    assert_eq!(
        accept_locale("ignored", "cmn-TW".parse()).unwrap().to_string(),
        "zh-TW"
    );
}

#[test]
fn invalid_locales_tell_the_reason() {
    let parsed = "x".parse::<icu_locale::Locale>();
    let message = parsed.as_ref().unwrap_err().to_string();
    match accept_locale("value", parsed) {
        Err(Error::InvalidLocale { value, reason }) => {
            assert_eq!(value, "value");
            assert_eq!(reason, message);
        }
        other => panic!("{other:?}"),
    }
    assert!(matches!(
        read_locale(""),
        Err(Error::InvalidLocale { .. })
    ));
}

#[test]
fn headers_can_be_given_event_by_event() {
    let version = XmlEvent::Empty(element("usx", &[("version", "2.0")]));
    let book = XmlEvent::Start(element("book", &[("style", "id"), ("code", "RUT")]));
    assert!(matches!(
        header_event(false, &version),
        Ok(Header::Open { has_version: true })
    ));
    assert!(matches!(
        header_event(false, &XmlEvent::Other),
        Ok(Header::Open { has_version: false })
    ));
    assert!(matches!(
        header_event(false, &book),
        Err(Error::MissingUsxField("usx/@version"))
    ));
    match header_event(true, &book) {
        Ok(Header::Found(code)) => assert_eq!(code, "RUT"),
        other => panic!("{other:?}"),
    }
    let long = XmlEvent::Start(element("book", &[("style", "id"), ("code", "GENX")]));
    match header_event(true, &long) {
        Err(Error::InvalidBookCode(code)) => assert_eq!(code, "GENX"),
        other => panic!("{other:?}"),
    }
    assert!(matches!(
        header_event(true, &XmlEvent::Eof),
        Err(Error::MissingUsxField("book/@code"))
    ));
}

#[test]
fn a_draft_takes_its_locale() {
    let metadata = parse_metadata(
        b"<DBLMetadata id='i'><identification><name>N</name><abbreviation>A</abbreviation></identification></DBLMetadata>",
    )
    .unwrap();
    let locale = read_locale("fr").unwrap();
    let draft = BundleDraft::with_locale("r".into(), metadata, locale).unwrap();
    let bundle = draft.finish().unwrap();
    assert_eq!(bundle.locale.to_string(), "fr");
    assert_eq!(bundle.id, "i");
    let metadata = parse_metadata(b"<DBLMetadata/>").unwrap();
    assert!(matches!(
        BundleDraft::with_locale("r".into(), metadata, read_locale("fr").unwrap()),
        Err(Error::MissingField("identification/abbreviation"))
    ));
}

#[test]
fn faults_of_documents_become_errors() {
    assert!(matches!(Error::from(fault()), Error::Xml(_)));
    let escape = resolve_reference("nope").unwrap_err();
    assert!(matches!(Error::from(escape), Error::XmlEscape(_)));
    let encoding = quick_xml::encoding::EncodingError::Utf8(
        String::from_utf8(vec![0xff]).unwrap_err().utf8_error(),
    );
    assert!(matches!(Error::from(encoding), Error::XmlEncoding(_)));
}
