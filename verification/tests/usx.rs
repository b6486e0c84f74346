use scripture_lib::usx::{
    self, identifier_matches, identifiers_agree, leading_number, verse_number_span,
};
use scripture_lib::{Error, Verse};

fn verses(body: &str, version: &str) -> Result<Vec<Verse>, Error> {
    let source = format!("<usx version=\"{version}\"><book code=\"MAT\" style=\"id\"/>{body}</usx>");
    usx::verses(source.as_bytes(), "MAT")
}

fn strict(body: &str) -> Result<Vec<Verse>, Error> {
    verses(body, "3.0")
}

fn lenient(body: &str) -> Result<Vec<Verse>, Error> {
    verses(body, "2.0")
}

fn texts(body: &str) -> Vec<String> {
    lenient(body)
        .unwrap()
        .into_iter()
        .map(|verse| verse.text)
        .collect()
}

#[test]
fn parses_usx_verse_number_sequences() {
    assert_eq!(verse_number_span("2-6a"), Some((2, 6)));
    assert_eq!(verse_number_span("18\u{200f},19"), Some((18, 19)));
    assert_eq!(verse_number_span("3b"), Some((3, 3)));
}

#[test]
fn spans_hold_the_least_and_the_greatest_number() {
    assert_eq!(verse_number_span("6-2"), Some((2, 6)));
    assert_eq!(verse_number_span("5,1-9,3"), Some((1, 9)));
    assert_eq!(verse_number_span("a-4"), Some((4, 4)));
    assert_eq!(verse_number_span("-7"), Some((7, 7)));
    assert_eq!(verse_number_span(""), None);
    assert_eq!(verse_number_span("a,b"), None);
    assert_eq!(verse_number_span("4294967296"), None);
    assert_eq!(verse_number_span("4294967295"), Some((u32::MAX, u32::MAX)));
    for n in [0, 1, 9, 10, 176, u32::MAX] {
        assert_eq!(verse_number_span(&n.to_string()), Some((n, n)));
    }
}

#[test]
fn leading_numbers_follow_padding() {
    assert_eq!(leading_number(" \t\u{200f}12b3"), Some(12));
    assert_eq!(leading_number("007"), Some(7));
    assert_eq!(leading_number("+7"), None);
    assert_eq!(leading_number("\u{a0}7"), None);
    assert_eq!(leading_number("x7"), None);
}

#[test]
fn identifiers_describe_their_place() {
    assert!(identifier_matches("MAT 1:2", "MAT", "1:2"));
    assert!(identifier_matches("MAT1:2", "MAT", "1:2"));
    assert!(identifier_matches("MAT 01:002", "MAT", "1:2"));
    assert!(identifier_matches("MAT 1:2\u{200f}-3", "MAT", "1:2-3"));
    assert!(identifier_matches("MAT 0", "MAT", "0"));
    // A location may begin with a space of its own.
    assert!(identifier_matches("MAT x", "MAT", " x"));
    assert!(identifier_matches("MAT  x", "MAT", " x"));
    assert!(!identifier_matches("MATx", "MAT", " x"));
    assert!(!identifier_matches("MAT   x", "MAT", " x"));
    assert!(identifier_matches("MAT", "MAT", ""));
    assert!(identifier_matches("MAT ", "MAT", ""));
    assert!(!identifier_matches("MAT 10", "MAT", "1"));
    assert!(!identifier_matches("MAT 1", "MAT", "10"));
    assert!(!identifier_matches("MAT  1:2", "MAT", "1:2"));
    assert!(!identifier_matches("MRK 1:2", "MAT", "1:2"));
    assert!(!identifier_matches("mat 1:2", "MAT", "1:2"));
    assert!(!identifier_matches("MAT 1:3", "MAT", "1:2"));
}

#[test]
fn identifiers_agree_on_one_place() {
    assert!(identifiers_agree("MAT 1:1", "MAT01:1", "MAT"));
    assert!(identifiers_agree("MAT01:1", "MAT 1:1", "MAT"));
    assert!(!identifiers_agree("MAT 1:1", "MAT 1:2", "MAT"));
    assert!(identifiers_agree("other", "other", "MAT"));
    assert!(!identifiers_agree("other", "MAT 1", "MAT"));
    assert!(!identifiers_agree("other 1", "other 01", "MAT"));
    assert!(!identifiers_agree("MAT x", "MAT  x", "MAT"));
    assert!(!identifiers_agree("MAT  x", "MAT x", "MAT"));
}

#[test]
fn verses_end_with_or_without_their_milestone() {
    let with = strict(
        r#"<chapter number="1" style="c" sid="MAT 1"/><verse number="1" style="v" sid="MAT 1:1"/>One.<verse eid="MAT 1:1"/><verse number="2" style="v" sid="MAT 1:2"/>Two.<verse eid="MAT 1:2"/><chapter eid="MAT 1"/>"#,
    )
    .unwrap();
    let without = strict(
        r#"<chapter number="1" style="c" sid="MAT 1"/><verse number="1" style="v" sid="MAT 1:1"/>One.<verse number="2" style="v" sid="MAT 1:2"/>Two.<chapter eid="MAT 1"/>"#,
    )
    .unwrap();
    assert_eq!(with, without);
    assert_eq!(with.len(), 2);
    assert_eq!(with[1].sid, "MAT 1:2");
    assert_eq!(with[1].number, "2");
    assert_eq!(with[1].chapter, 1);
    // The end of the document closes the last verse too.
    assert_eq!(
        texts(r#"<chapter number="1" style="c"/><verse number="1" style="v"/>Last."#
            .to_owned()
            .as_str()),
        ["Last."]
    );
}

#[test]
fn verse_ends_may_be_omitted_between_paragraphs() {
    let body = |end: &str, next: &str| {
        format!(
            r#"<chapter number="1" style="c"/><para style="p"><verse number="1" style="v"/>One.{end}
  </para><!-- x --><para style="q"><b/> {next}</para>"#
        )
    };
    for next in [
        r#"<verse number="2" style="v"/>Two."#,
        r#"<verse number="2" style="v"></verse>Two."#,
        r#"<chapter number="2" style="c"/>"#,
        r#"<chapter eid="MAT 1"></chapter>"#,
        "",
    ] {
        let without = lenient(&body("", next)).unwrap();
        assert_eq!(without[0].text, "One.");
        for end in [r#"<verse eid="MAT 1:1"/>"#, r#"<verse eid="MAT 1:1"></verse>"#] {
            assert_eq!(lenient(&body(end, next)).unwrap(), without);
        }
    }
}

#[test]
fn text_outside_verses_is_left_out() {
    assert_eq!(
        texts(
            r#"before<chapter number="1" style="c"/>heading<verse number="1" style="v"/>in<verse eid="MAT 1:1"/>between<verse number="2" style="v"/>more<chapter number="2" style="c"/>after"#
        ),
        ["in", "more"]
    );
}

#[test]
fn white_space_is_collapsed() {
    assert_eq!(
        texts("<chapter number=\"1\" style=\"c\"/><verse number=\"1\" style=\"v\"/>  a\r\n\tb &#32; c\u{a0}d <para style=\"p\"> e</para>"),
        ["a b c\u{a0}d e"]
    );
    assert_eq!(
        texts("<chapter number=\"1\" style=\"c\"/><verse number=\"1\" style=\"v\"/> \n "),
        [""]
    );
}

#[test]
fn references_and_cdata_are_text() {
    assert_eq!(
        texts(
            r#"<chapter number="1" style="c"/><verse number="1" style="v"/>&lt;&gt;&amp;&apos;&quot;&#x41;&#66;<![CDATA[<&amp;>]]>"#
        ),
        ["<>&'\"AB<&amp;>"]
    );
}

#[test]
fn notes_figures_and_sidebars_are_left_out() {
    let plain = texts(r#"<chapter number="1" style="c"/><verse number="1" style="v"/>a b"#);
    for name in ["note", "figure", "sidebar"] {
        let body = format!(
            r#"<chapter number="1" style="c"/><verse number="1" style="v"/>a<{name} vid="wrong"><char>x<b/>y</char>z&nope;<verse number="9" style="v"></verse><![CDATA[w]]></{name}> b"#
        );
        assert_eq!(texts(&body), plain);
    }
    assert_eq!(plain, ["a b"]);
    // They may stand in one another.
    assert_eq!(
        texts(
            r#"<chapter number="1" style="c"/><verse number="1" style="v"/>a<sidebar>x<note>y<figure>z</figure></note>w</sidebar> b"#
        ),
        plain
    );
}

#[test]
fn milestones_may_be_closed_by_a_tag_of_their_own() {
    let together = lenient(
        r#"<chapter number="1" style="c"/><verse number="1" style="v"/>a<verse eid="MAT 1:1"/>"#,
    )
    .unwrap();
    let apart = lenient(
        r#"<chapter number="1" style="c"></chapter><verse number="1" style="v"></verse>a<verse eid="MAT 1:1"></verse>"#,
    )
    .unwrap();
    assert_eq!(together, apart);
}

#[test]
fn milestones_hold_no_content() {
    assert!(matches!(
        lenient(r#"<chapter number="1" style="c">text</chapter>"#),
        Err(Error::NonEmptyUsxMilestone("chapter"))
    ));
    assert!(matches!(
        lenient(r#"<chapter number="1" style="c"/><verse number="1" style="v"><x/></verse>"#),
        Err(Error::NonEmptyUsxMilestone("verse"))
    ));
}

#[test]
fn missing_identifiers_are_made_before_version_three() {
    let found = lenient(r#"<chapter number="+2" style="c"/><verse number="3b" style="v"/>x"#).unwrap();
    assert_eq!(found[0].sid, "MAT 2:3b");
    assert_eq!(found[0].chapter, 2);
    // An identifier of its own is kept as it is.
    let found =
        lenient(r#"<chapter number="2" style="c"/><verse number="3" style="v" sid="any"/>x"#)
            .unwrap();
    assert_eq!(found[0].sid, "any");
    assert_eq!(found[0].alternate_number, None);
    assert_eq!(found[0].published_number, None);
}

#[test]
fn strict_identifiers_must_describe_their_milestone() {
    match strict(r#"<chapter number="1" style="c" sid="MAT 2"/>"#) {
        Err(Error::InvalidUsxIdentifier {
            attribute,
            expected,
            actual,
        }) => {
            assert_eq!(attribute, "chapter/@sid");
            assert_eq!(expected, "MAT 1");
            assert_eq!(actual, "MAT 2");
        }
        other => panic!("{other:?}"),
    }
    match strict(
        r#"<chapter number="1" style="c" sid="MAT 1"/><verse number="2" style="v" sid="MAT 1:3"/>"#,
    ) {
        Err(Error::InvalidUsxIdentifier {
            attribute,
            expected,
            actual,
        }) => {
            assert_eq!(attribute, "verse/@sid");
            assert_eq!(expected, "MAT 1:2");
            assert_eq!(actual, "MAT 1:3");
        }
        other => panic!("{other:?}"),
    }
    assert!(matches!(
        strict(
            r#"<chapter number="1" style="c" sid="MAT 1"/><verse number="2" style="v"/><chapter eid="MAT 1"/>"#
        ),
        Err(Error::MissingUsxField("verse/@sid"))
    ));
}

#[test]
fn strict_chapters_must_end() {
    assert!(matches!(
        strict(r#"<chapter number="1" style="c" sid="MAT 1"/>"#),
        Err(Error::MissingUsxField("chapter/@eid"))
    ));
    assert!(matches!(
        strict(
            r#"<chapter number="1" style="c" sid="MAT 1"/><chapter number="2" style="c" sid="MAT 2"/>"#
        ),
        Err(Error::MissingUsxField("chapter/@eid"))
    ));
}

#[test]
fn ends_must_match_what_is_open() {
    match lenient(r#"<chapter eid="MAT 1"/>"#) {
        Err(Error::UnexpectedChapterEnd(actual)) => assert_eq!(actual, "MAT 1"),
        other => panic!("{other:?}"),
    }
    match lenient(r#"<chapter number="1" style="c"/><verse eid="MAT 1:1"/>"#) {
        Err(Error::UnexpectedVerseEnd(actual)) => assert_eq!(actual, "MAT 1:1"),
        other => panic!("{other:?}"),
    }
    match lenient(
        r#"<chapter number="1" style="c"/><verse number="1" style="v"/><verse eid="MAT 1:2"/>"#,
    ) {
        Err(Error::MismatchedVerseEnd { expected, actual }) => {
            assert_eq!(expected, "MAT 1:1");
            assert_eq!(actual, "MAT 1:2");
        }
        other => panic!("{other:?}"),
    }
    match lenient(r#"<chapter number="1" style="c"/><chapter eid="MAT 2"/>"#) {
        Err(Error::MismatchedChapterEnd { expected, actual }) => {
            assert_eq!(expected, "MAT 1");
            assert_eq!(actual, "MAT 2");
        }
        other => panic!("{other:?}"),
    }
}

#[test]
fn continuations_must_match_the_open_verse() {
    match lenient(r#"<chapter number="1" style="c"/><para vid="MAT 1:1"/>"#) {
        Err(Error::MismatchedVerseContinuation { expected, actual }) => {
            assert_eq!(expected, "");
            assert_eq!(actual, "MAT 1:1");
        }
        other => panic!("{other:?}"),
    }
    match lenient(
        r#"<chapter number="1" style="c"/><verse number="1" style="v"/><para vid="MAT 1:2">x</para>"#,
    ) {
        Err(Error::MismatchedVerseContinuation { expected, actual }) => {
            assert_eq!(expected, "MAT 1:1");
            assert_eq!(actual, "MAT 1:2");
        }
        other => panic!("{other:?}"),
    }
    assert_eq!(
        texts(
            r#"<chapter number="1" style="c"/><verse number="1" style="v"/>a <para vid="MAT01:01">b</para>"#
        ),
        ["a b"]
    );
}

#[test]
fn chapter_numbers_are_positive() {
    for number in ["0", "00", "", "x", "-1", "4294967296"] {
        match lenient(&format!(r#"<chapter number="{number}" style="c"/>"#)) {
            Err(Error::InvalidChapterNumber(actual)) => assert_eq!(actual, number),
            other => panic!("{other:?}"),
        }
    }
    assert!(matches!(
        lenient(r#"<chapter style="c"/>"#),
        Err(Error::MissingUsxField("chapter/@number"))
    ));
    assert!(matches!(
        lenient(r#"<chapter number="1" style="c"/><verse style="v"/>"#),
        Err(Error::MissingUsxField("verse/@number"))
    ));
    assert!(matches!(
        lenient(r#"<verse number="1" style="v"/>"#),
        Err(Error::MissingUsxField("chapter/@number"))
    ));
}

#[test]
fn styles_are_checked() {
    match lenient(r#"<chapter number="1" style="p"/>"#) {
        Err(Error::InvalidUsxStyle {
            element,
            expected,
            actual,
        }) => {
            assert_eq!(element, "chapter");
            assert_eq!(expected, "c");
            assert_eq!(actual, "p");
        }
        other => panic!("{other:?}"),
    }
    assert!(matches!(
        lenient(r#"<chapter number="1"/>"#),
        Err(Error::MissingUsxField("element/@style"))
    ));
    assert!(matches!(
        lenient(r#"<chapter number="1" style="c"/><verse number="1" style="c"/>"#),
        Err(Error::InvalidUsxStyle {
            element: "verse",
            ..
        })
    ));
    assert!(matches!(
        usx::verses(b"<usx version='2.0'><book code='MAT' style='x'/></usx>", "MAT"),
        Err(Error::InvalidUsxStyle {
            element: "book",
            ..
        })
    ));
}

#[test]
fn versions_one_to_three_are_supported() {
    for version in ["1.0", "2.6", "3.0.8", "03.1", "0002.99999999999"] {
        assert!(verses("", version).is_ok());
    }
    for version in ["4.0", "0.9", "3", "3.", ".3", "3.0.0.0", "3.x", "+3.0", "", "300.0"] {
        match verses("", version) {
            Err(Error::UnsupportedUsxVersion(actual)) => assert_eq!(actual, version),
            other => panic!("{other:?}"),
        }
    }
    assert!(matches!(
        usx::verses(b"<usx><book code='MAT' style='id'/></usx>", "MAT"),
        Err(Error::MissingUsxField("usx/@version"))
    ));
    assert!(matches!(
        usx::verses(b"<book code='MAT' style='id'/>", "MAT"),
        Err(Error::MissingUsxField("usx/@version"))
    ));
    assert!(matches!(
        usx::verses(b"<chapter number='1' style='c'/>", "MAT"),
        Err(Error::MissingUsxField("usx/@version"))
    ));
}

#[test]
fn the_book_must_be_the_expected_one() {
    match usx::verses(b"<usx version='2.0'><book code='MRK' style='id'>x</book></usx>", "MAT") {
        Err(Error::MismatchedBookCode { expected, actual }) => {
            assert_eq!(expected, "MAT");
            assert_eq!(actual, "MRK");
        }
        other => panic!("{other:?}"),
    }
    assert!(matches!(
        usx::verses(b"<usx version='2.0'></usx>", "MAT"),
        Err(Error::MissingUsxField("book/@code"))
    ));
    assert!(matches!(
        usx::verses(b"<usx version='2.0'><book style='id'/></usx>", "MAT"),
        Err(Error::MissingUsxField("book/@code"))
    ));
}

#[test]
fn broken_documents_are_errors() {
    assert!(matches!(lenient("<para>"), Err(Error::Xml(_))));
    assert!(matches!(
        lenient(r#"<chapter number="1" style="c"/><verse number="1" style="v"/>&nope;"#),
        Err(Error::XmlEscape(_))
    ));
    assert!(matches!(
        usx::verses(
            b"<usx version='2.0'><book code='MAT' style='id'/><chapter number='1' style='c'/><verse number='1' style='v'/>\xff</usx>",
            "MAT"
        ),
        Err(Error::XmlEncoding(_))
    ));
    // Outside a verse nothing is decoded.
    assert!(usx::verses(
        b"<usx version='2.0'><book code='MAT' style='id'/>\xff&nope;</usx>",
        "MAT"
    )
    .is_ok());
    // An attribute is only read where it is needed.
    assert!(lenient(r#"<para other="&nope;"/>"#).is_ok());
    assert!(matches!(
        lenient(r#"<para vid="&nope;"/>"#),
        Err(Error::Xml(_))
    ));
}

#[test]
fn book_codes_have_three_characters() {
    for code in ["", "GE", "GENX", "\u{5d0}"] {
        let source = format!("<usx version='3.0'><book code='{code}' style='id'/></usx>");
        match usx::book_code(source.as_bytes()) {
            Err(Error::InvalidBookCode(actual)) => assert_eq!(actual, code),
            other => panic!("{other:?}"),
        }
    }
    for code in ["GEN", "1co", "\u{5d0}\u{5d1}\u{5d2}"] {
        let source = format!("<usx version='3.0'><book code='{code}' style='id'/></usx>");
        assert_eq!(usx::book_code(source.as_bytes()).unwrap(), code);
    }
}

#[test]
fn only_the_header_is_read_for_the_book_code() {
    let header = "<usx version='3.0'><book code='RUT' style='id'>";
    for rest in ["", "</book></usx>", "</other>", "<", "&nope;<usx version='9.0'/>"] {
        let source = format!("{header}{rest}");
        assert_eq!(usx::book_code(source.as_bytes()).unwrap(), "RUT");
    }
}

#[test]
fn the_header_gives_the_book_code() {
    assert_eq!(
        usx::book_code(b"<usx version='3.0'><book code='ruT' style='id'>rest is not read").unwrap(),
        "ruT"
    );
    assert_eq!(
        usx::book_code(b"<x/><usx version='3.0'/>text<book style='id' code='RUT'/>").unwrap(),
        "RUT"
    );
    assert!(matches!(
        usx::book_code(b"<book code='RUT' style='id'/>"),
        Err(Error::MissingUsxField("usx/@version"))
    ));
    assert!(matches!(
        usx::book_code(b"<usx version='9.0'>"),
        Err(Error::UnsupportedUsxVersion(_))
    ));
    assert!(matches!(
        usx::book_code(b"<usx version='3.0'><book code='RUT' style='p'/></usx>"),
        Err(Error::InvalidUsxStyle { .. })
    ));
    assert!(matches!(
        usx::book_code(b"<usx version='3.0'><book style='id'/></usx>"),
        Err(Error::MissingUsxField("book/@code"))
    ));
    assert!(matches!(
        usx::book_code(b""),
        Err(Error::MissingUsxField("book/@code"))
    ));
    assert!(matches!(usx::book_code(b"<usx"), Err(Error::Xml(_))));
}

#[test]
fn prefixes_of_names_do_not_count() {
    let source = b"<u:usx xmlns:u='x' u:version='2.0'><u:book u:code='MAT' u:style='id'/><u:chapter u:number='1' u:style='c'/><u:verse u:number='1' u:style='v'/>a</u:usx>";
    assert_eq!(usx::verses(source, "MAT").unwrap()[0].sid, "MAT 1:1");
    assert_eq!(usx::book_code(source).unwrap(), "MAT");
}

#[test]
fn each_verse_milestone_starts_one_verse() {
    let found = lenient(
        r#"<chapter number="1" style="c"/><verse number="1" style="v" altnumber="a" pubnumber="p"/>x<note><verse number="9" style="v"/>n</note><verse number="1" style="v" sid="own"></verse><verse eid="own"/><chapter number="3" style="c"/><sidebar><verse number="8" style="v"></verse></sidebar><verse number="2-4" style="v"/>"#,
    )
    .unwrap();
    let starts: Vec<(u32, &str, &str)> = found
        .iter()
        .map(|verse| (verse.chapter, verse.number.as_str(), verse.sid.as_str()))
        .collect();
    assert_eq!(
        starts,
        [(1, "1", "MAT 1:1"), (1, "1", "own"), (3, "2-4", "MAT 3:2-4")]
    );
    assert_eq!(found[0].alternate_number.as_deref(), Some("a"));
    assert_eq!(found[0].published_number.as_deref(), Some("p"));
    assert_eq!(found[1].alternate_number, None);
}
