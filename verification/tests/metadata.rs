use scripture_lib::metadata::parse_metadata;
use scripture_lib::{Error, ScriptDirection};

#[test]
fn parses_metadata_from_a_buffered_reader() {
    let source = r#"<DBLMetadata id="bundle-id" revision="3">
  <identification>
    <name>Example &amp; Test Bible</name>
    <abbreviation>EXAMPLE</abbreviation>
  </identification>
  <language><ldml>en-US</ldml><scriptDirection>LTR</scriptDirection></language>
  <names><name id="book-gen"><long>Genesis</long></name></names>
  <manifest><resource uri="release/USX_1/GEN.usx" /></manifest>
</DBLMetadata>"#;

    let metadata = parse_metadata(source.as_bytes()).unwrap();
    assert_eq!(metadata.id.as_deref(), Some("bundle-id"));
    assert_eq!(metadata.revision, Some(3));
    assert_eq!(metadata.name.as_deref(), Some("Example & Test Bible"));
    assert_eq!(metadata.ldml.as_deref(), Some("en-US"));
    assert_eq!(
        metadata.script_direction,
        Some(ScriptDirection::LeftToRight)
    );
    assert_eq!(
        metadata.names_of("GEN").unwrap().long.as_deref(),
        Some("Genesis")
    );
    assert_eq!(metadata.usx_resources, ["release/USX_1/GEN.usx"]);
}

#[test]
fn resources_are_listed_once_in_order() {
    let source = r#"<DBLMetadata>
  <manifest>
    <resource uri="release/USX_1/B.usx" />
    <resource uri="release/USX_1/A.usx" />
    <resource uri="release/USX_1/B.usx" />
    <resource uri="release/USX_1/styles.xml" />
    <resource uri="source/USX_1/C.usx" />
  </manifest>
  <resource uri="release/USX_1/outside.usx" />
  <content src="release/USX_2/D.usx" />
  <content src="release/USX_1/A.usx" />
  <content uri="release/USX_2/E.usx" />
</DBLMetadata>"#;
    let metadata = parse_metadata(source.as_bytes()).unwrap();
    assert_eq!(
        metadata.usx_resources,
        [
            "release/USX_1/B.usx",
            "release/USX_1/A.usx",
            "release/USX_2/D.usx"
        ]
    );
}

#[test]
fn texts_are_joined_and_trimmed() {
    let source = "<DBLMetadata id='  x '><identification><name>\n A <!-- c -->&lt;B&#62; \n</name><nameLocal></nameLocal><scope> \u{a0} </scope></identification></DBLMetadata>";
    let metadata = parse_metadata(source.as_bytes()).unwrap();
    assert_eq!(metadata.id.as_deref(), Some("x"));
    assert_eq!(metadata.name.as_deref(), Some("A <B>"));
    assert_eq!(metadata.local_name, None);
    assert_eq!(metadata.scope.as_deref(), Some(""));
}

#[test]
fn texts_count_only_at_their_path() {
    let source = "<DBLMetadata><name>wrong</name><identification><name>right<x>no</x></name></identification><other><language><iso>no</iso></language></other></DBLMetadata>";
    let metadata = parse_metadata(source.as_bytes()).unwrap();
    assert_eq!(metadata.name.as_deref(), Some("right"));
    assert_eq!(metadata.language_iso, None);
    let source = "<other id='a' revision='1'><DBLMetadata id='b' revision='2'/></other>";
    let metadata = parse_metadata(source.as_bytes()).unwrap();
    assert_eq!(metadata.id, None);
    assert_eq!(metadata.revision, None);
}

#[test]
fn book_names_are_kept_by_upper_case_code() {
    let source = "<DBLMetadata><names><name id='book-gen'><abbr> Gen </abbr><short>Ge</short></name><name id='other'><long>lost</long></name><name id='book-GEN'><long>Genesis</long><short>nesis</short><x>no</x></name></names></DBLMetadata>";
    let metadata = parse_metadata(source.as_bytes()).unwrap();
    let names = metadata.names_of("GEN").unwrap();
    assert_eq!(names.abbreviation.as_deref(), Some("Gen"));
    assert_eq!(names.short.as_deref(), Some("Genesis"));
    assert_eq!(names.long.as_deref(), Some("Genesis"));
    assert!(metadata.names_of("gen").is_none());
    assert_eq!(metadata.book_names.len(), 1);
}

#[test]
fn revisions_that_are_no_numbers_are_dropped() {
    for (value, expected) in [
        ("7", Some(7)),
        ("+7", Some(7)),
        ("007", Some(7)),
        ("4294967295", Some(u32::MAX)),
        ("4294967296", None),
        ("", None),
        ("+", None),
        ("-1", None),
        ("7 ", None),
    ] {
        let source = format!("<DBLMetadata revision='{value}'/>");
        assert_eq!(parse_metadata(source.as_bytes()).unwrap().revision, None);
        let source = format!("<DBLMetadata revision='{value}'></DBLMetadata>");
        assert_eq!(
            parse_metadata(source.as_bytes()).unwrap().revision,
            expected
        );
    }
}

#[test]
fn directions_are_read_without_regard_to_case() {
    for (value, expected) in [
        ("RTL", ScriptDirection::RightToLeft),
        (" rTl\n", ScriptDirection::RightToLeft),
        ("LTR", ScriptDirection::LeftToRight),
        ("other", ScriptDirection::LeftToRight),
    ] {
        let source = format!(
            "<DBLMetadata><language><scriptDirection>{value}</scriptDirection></language></DBLMetadata>"
        );
        assert_eq!(
            parse_metadata(source.as_bytes()).unwrap().script_direction,
            Some(expected)
        );
    }
    let metadata = parse_metadata(b"<DBLMetadata/>").unwrap();
    assert_eq!(metadata.script_direction, None);
}

#[test]
fn cdata_is_no_metadata() {
    let source = "<DBLMetadata><identification><name>a<![CDATA[b]]>c</name></identification></DBLMetadata>";
    let metadata = parse_metadata(source.as_bytes()).unwrap();
    assert_eq!(metadata.name.as_deref(), Some("ac"));
}

#[test]
fn malformed_metadata_is_an_error() {
    assert!(matches!(
        parse_metadata(b"<DBLMetadata></other>"),
        Err(Error::Xml(_))
    ));
    assert!(matches!(parse_metadata(b"<DBLMetadata"), Err(Error::Xml(_))));
    assert!(matches!(
        parse_metadata(b"<DBLMetadata id='&nope;'></DBLMetadata>"),
        Err(Error::Xml(_))
    ));
    assert!(matches!(
        parse_metadata(b"<DBLMetadata>&nope;</DBLMetadata>"),
        Err(Error::XmlEscape(_))
    ));
    assert!(matches!(
        parse_metadata(b"<DBLMetadata>\xff</DBLMetadata>"),
        Err(Error::XmlEncoding(_))
    ));
    assert!(matches!(
        parse_metadata(b"<DBLMetadata>&\xff;</DBLMetadata>"),
        Err(Error::XmlEncoding(_))
    ));
}

#[test]
fn trimming_twice_changes_nothing_more() {
    let source = "<DBLMetadata id=' i '><identification><name> N\n</name></identification><names><name id='book-gen'><long> L </long></name></names></DBLMetadata>";
    let mut metadata = parse_metadata(source.as_bytes()).unwrap();
    metadata.trim_metadata();
    assert_eq!(metadata.id.as_deref(), Some("i"));
    assert_eq!(metadata.name.as_deref(), Some("N"));
    assert_eq!(
        metadata.names_of("GEN").unwrap().long.as_deref(),
        Some("L")
    );
}
