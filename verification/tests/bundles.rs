use std::path::{Path, PathBuf};

use scripture_lib::{
    usx, Book, BundleDraft, DblBundle, Directory, DirectoryEntry, Error, PassageRange,
    PassageRequest, ScriptDirection, ScriptureLibrary,
};

const METADATA: &str = r#"<?xml version="1.0" encoding="utf-8"?>
<DBLMetadata id="bundle-id" revision="3">
  <identification>
    <name>Example &amp; Test Bible</name>
    <nameLocal>Example Bible</nameLocal>
    <abbreviation>EXAMPLE</abbreviation>
    <abbreviationLocal>LOCAL</abbreviationLocal>
    <scope>New Testament</scope>
  </identification>
  <language>
    <iso>eng</iso>
    <ldml>en-US</ldml>
    <scriptDirection>LTR</scriptDirection>
  </language>
  <names>
    <name id="book-gen"><abbr>Gen.</abbr><short>Genesis</short><long>Genesis</long></name>
    <name id="book-exo"><abbr>Ex.</abbr><short>Exodus</short><long>Exodus</long></name>
  </names>
  <manifest>
    <resource mimeType="application/xml" uri="scripture.usx" />
    <resource mimeType="application/xml" uri="release/styles.xml" />
  </manifest>
  <publications>
    <publication id="p1" default="true">
      <structure>
        <content src="release/USX_1/scripture.usx" role="GEN" />
        <content src="release/USX_1/EXO.usx" role="EXO" />
      </structure>
    </publication>
  </publications>
</DBLMetadata>"#;

const GENESIS: &str = r#"<usx version="2.6">
  <book code="GEN" style="id">Genesis</book>
  <chapter number="1" style="c" />
  <para style="p">
    <verse number="1" style="v" />First &amp; <char style="add">added</char>.<note style="f">Ignored note</note>
    <verse number="2" style="v" />Second.
    <verse number="3" style="v" />Third, with no end.
    <verse number="4" style="v" />Fourth, with neither milestone.
    <verse number="5-6" style="v" />Fifth and sixth.
  </para>
  <chapter number="2" style="c" />
  <para style="p">
    <verse number="1" style="v" />Chapter two, first.
    <verse number="2" style="v" />Chapter two, second.
    <verse number="3" style="v" />Chapter two, third.
  </para>
</usx>"#;

const EXODUS: &str = r#"<usx version="3.0">
  <book code="EXO" style="id" />
  <chapter number="1" style="c" sid="EXO 1" />
  <para style="p">
    <verse number="1" altnumber="1a" pubnumber="I" style="v" sid="EXO 1:1" />Official
    <char style="add">verse</char> text
  </para>
  <para style="q1" vid="EXO 1:1">continues here.<note caller="+" style="f"><char style="ft">Not verse text.</char></note>
    <verse eid="EXO 1:1" />
    <verse number="2" style="v" sid="EXO 1:2" />Recovered missing end.
  </para>
  <chapter eid="EXO 1" />
</usx>"#;

/// The document of the folder at a path.
fn document(path: &Path) -> Option<&'static str> {
    if path.ends_with("metadata.xml") {
        Some(METADATA)
    } else if path.ends_with("release/USX_1/scripture.usx") {
        Some(GENESIS)
    } else if path.ends_with("release/USX_1/EXO.usx") {
        Some(EXODUS)
    } else {
        None
    }
}

fn open(root: &PathBuf) -> Result<DblBundle, Error> {
    let metadata = document(&root.join("metadata.xml"));
    let mut draft = DblBundle::open(root, metadata.map(str::as_bytes))?;
    while let Some(path) = draft.next_path() {
        let content = document(&path).unwrap();
        draft = draft.add_book(content.as_bytes())?;
    }
    draft.finish()
}

fn entry(root: &str, name: &str, is_directory: bool, has_metadata: bool) -> DirectoryEntry {
    DirectoryEntry {
        name: name.as_bytes().to_vec(),
        path: Path::new(root).join(name),
        is_directory,
        has_metadata,
    }
}

fn library(root: &str, directory: Directory) -> ScriptureLibrary {
    let mut discovery = ScriptureLibrary::discover(PathBuf::from(root), directory);
    while let Some(root) = discovery.next_root().cloned() {
        discovery = discovery.add(open(&root).unwrap());
    }
    discovery.finish()
}

fn read(book: &Book) -> &'static str {
    document(book.path()).unwrap()
}

fn passage(bundle: &DblBundle, request: &PassageRequest) -> Result<scripture_lib::Passage, Error> {
    let content = read(bundle.requested_book(request)?);
    bundle.passage(request, content.as_bytes())
}

#[test]
fn passage_requests_are_valid_by_construction() {
    assert!(PassageRequest::chapter("", 1).is_err());
    assert!(PassageRequest::chapter("Genesis", 0).is_err());
    assert!(PassageRequest::chapters("Genesis", 2, 1).is_err());
    assert!(PassageRequest::verse("Genesis", 1, 0).is_err());
    assert!(PassageRequest::verses("Genesis", 1, 5, 4).is_err());
    assert!(PassageRequest::verse_range("Genesis", 2, 1, 1, 10).is_err());

    let request = PassageRequest::verse_range("Genesis", 1, 4, 2, 3).unwrap();
    assert_eq!(request.book(), "Genesis");
    let PassageRange::Verses { start, end } = request.range() else {
        panic!("expected a verse range");
    };
    assert_eq!((start.chapter(), start.verse()), (1, 4));
    assert_eq!((end.chapter(), end.verse()), (2, 3));
}

#[test]
fn discovers_and_reads_a_dbl_folder() {
    let patch_version = r#"<usx version="3.0.8">
  <book code="MAT" style="id" />
  <para style="mt1">Matthew</para>
  <chapter number="01" style="c" sid="MAT 01"></chapter>
  <para style="p"><verse number="1{RLM}-2" style="v" sid="MAT 01:1-2"></verse>Text</para>
  <para style="q" vid="MAT01:1-2">continued.<verse eid="MAT01:1-2"></verse></para>
  <chapter eid="MAT01"></chapter>
</usx>"#
        .replace("{RLM}", "\u{200f}");
    let missing_chapter_sid = r#"<usx version="3.1">
  <book code="MAT" style="id" />
  <chapter number="1" style="c" />
</usx>"#;
    let mismatched_chapter_end = r#"<usx version="3.1">
  <book code="MAT" style="id" />
  <chapter number="1" style="c" sid="MAT 1" />
  <chapter eid="MAT 2" />
</usx>"#;

    let library = library(
        "folder",
        Directory::Folder(vec![entry("folder", "example", true, true)]),
    );
    assert_eq!(library.bundles().len(), 1);

    let bundle = library.get("local").unwrap();
    assert_eq!(bundle.name, "Example & Test Bible");
    assert_eq!(bundle.abbreviation, "LOCAL");
    assert_eq!(bundle.metadata_abbreviation, "EXAMPLE");
    assert_eq!(bundle.local_abbreviation.as_deref(), Some("LOCAL"));
    assert!(library.get("example").is_some());
    assert_eq!(bundle.locale.to_string(), "en-US");
    assert_eq!(bundle.script_direction, ScriptDirection::LeftToRight);
    assert_eq!(bundle.books().len(), 2);

    let genesis = bundle.book("gen").unwrap();
    assert_eq!(genesis.names.long.as_deref(), Some("Genesis"));
    assert!(read(genesis).contains("<usx"));
    assert_eq!(usx::book_code(read(genesis).as_bytes()).unwrap(), "GEN");
    assert_eq!(usx::book_code(patch_version.as_bytes()).unwrap(), "MAT");
    let patch_version_verses = usx::verses(patch_version.as_bytes(), "MAT").unwrap();
    assert_eq!(patch_version_verses.len(), 1);
    assert_eq!(patch_version_verses[0].chapter, 1);
    assert_eq!(patch_version_verses[0].number, "1\u{200f}-2");
    assert_eq!(patch_version_verses[0].text, "Text continued.");
    assert!(matches!(
        usx::verses(missing_chapter_sid.as_bytes(), "MAT"),
        Err(Error::MissingUsxField("chapter/@sid"))
    ));
    assert!(matches!(
        usx::verses(mismatched_chapter_end.as_bytes(), "MAT"),
        Err(Error::MismatchedChapterEnd { .. })
    ));

    let verses = genesis.verses(read(genesis).as_bytes()).unwrap();
    assert_eq!(usx::verses(read(genesis).as_bytes(), "GEN").unwrap(), verses);
    assert_eq!(verses.len(), 8);
    assert_eq!(verses[0].sid, "GEN 1:1");
    assert_eq!(verses[0].text, "First & added.");
    assert_eq!(verses[1].text, "Second.");
    assert_eq!(verses[2].text, "Third, with no end.");
    assert_eq!(verses[3].sid, "GEN 1:4");
    assert_eq!(verses[3].text, "Fourth, with neither milestone.");

    let exodus = bundle.book("EXO").unwrap();
    let official = exodus.verses(read(exodus).as_bytes()).unwrap();
    assert_eq!(official.len(), 2);
    assert_eq!(official[0].alternate_number.as_deref(), Some("1a"));
    assert_eq!(official[0].published_number.as_deref(), Some("I"));
    assert_eq!(official[0].text, "Official verse text continues here.");
    assert_eq!(official[1].text, "Recovered missing end.");

    assert_eq!(
        passage(bundle, &PassageRequest::chapter("Genesis", 1).unwrap())
            .unwrap()
            .verses
            .len(),
        5
    );
    assert_eq!(
        passage(bundle, &PassageRequest::chapters("Genesis", 1, 2).unwrap())
            .unwrap()
            .verses
            .len(),
        8
    );
    assert_eq!(
        passage(bundle, &PassageRequest::verse("GEN", 1, 4).unwrap())
            .unwrap()
            .text(),
        "Fourth, with neither milestone."
    );
    assert_eq!(
        passage(bundle, &PassageRequest::verses("Genesis", 1, 4, 5).unwrap())
            .unwrap()
            .verses
            .len(),
        2
    );
    assert_eq!(
        passage(bundle, &PassageRequest::verse("Genesis", 1, 6).unwrap())
            .unwrap()
            .verses[0]
            .number,
        "5-6"
    );
    let cross_chapter = passage(
        bundle,
        &PassageRequest::verse_range("Genesis", 1, 4, 2, 3).unwrap(),
    )
    .unwrap();
    assert_eq!(cross_chapter.verses.len(), 5);
    assert_eq!(cross_chapter.verses.first().unwrap().sid, "GEN 1:4");
    assert_eq!(cross_chapter.verses.last().unwrap().sid, "GEN 2:3");
}

#[test]
fn bundle_carries_its_metadata() {
    let root = PathBuf::from("folder/example");
    let bundle = open(&root).unwrap();
    assert_eq!(bundle.root(), &root);
    assert_eq!(bundle.id, "bundle-id");
    assert_eq!(bundle.revision, Some(3));
    assert_eq!(bundle.local_name.as_deref(), Some("Example Bible"));
    assert_eq!(bundle.scope.as_deref(), Some("New Testament"));
    let codes: Vec<&str> = bundle.books().iter().map(|book| book.code.as_str()).collect();
    assert_eq!(codes, ["GEN", "EXO"]);
    assert_eq!(
        bundle.books()[1].path(),
        &root.join("release/USX_1/EXO.usx")
    );
    assert_eq!(bundle.books()[1].names.abbreviation.as_deref(), Some("Ex."));
}

#[test]
fn bundles_come_in_path_order() {
    let listed = vec![
        entry("r", "b", true, true),
        entry("r", "ab", true, true),
        entry("r", "file", false, true),
        entry("r", "a", true, true),
        entry("r", "plain", true, false),
        entry("r", "B", true, true),
    ];
    let discovery = ScriptureLibrary::discover(PathBuf::from("r"), Directory::Folder(listed));
    assert_eq!(discovery.next_root(), Some(&PathBuf::from("r/B")));

    let library = library(
        "r",
        Directory::Folder(vec![
            entry("r", "b", true, true),
            entry("r", "ab", true, true),
            entry("r", "file", false, true),
            entry("r", "a", true, true),
            entry("r", "plain", true, false),
            entry("r", "B", true, true),
        ]),
    );
    let roots: Vec<&PathBuf> = library.bundles().iter().map(DblBundle::root).collect();
    let mut expected = vec![
        PathBuf::from("r/b"),
        PathBuf::from("r/ab"),
        PathBuf::from("r/a"),
        PathBuf::from("r/B"),
    ];
    expected.sort();
    assert_eq!(roots, expected.iter().collect::<Vec<_>>());
    // All four share their abbreviations, so the first is found.
    assert_eq!(library.get("LoCaL").unwrap().root(), &PathBuf::from("r/B"));
    assert!(library.get("other").is_none());
}

#[test]
fn listing_order_makes_no_difference() {
    let one = library(
        "r",
        Directory::Folder(vec![entry("r", "x", true, true), entry("r", "y", true, true)]),
    );
    let other = library(
        "r",
        Directory::Folder(vec![entry("r", "y", true, true), entry("r", "x", true, true)]),
    );
    assert_eq!(one.bundles()[0].root(), other.bundles()[0].root());
    assert_eq!(one.bundles()[1].root(), other.bundles()[1].root());
}

#[test]
fn a_bundle_is_its_own_library() {
    let library = library("r/only", Directory::Bundle);
    assert_eq!(library.bundles().len(), 1);
    assert_eq!(library.bundles()[0].root(), &PathBuf::from("r/only"));
}

#[test]
fn an_empty_folder_is_an_empty_library() {
    let library = library("r", Directory::Folder(Vec::new()));
    assert!(library.bundles().is_empty());
    assert!(library.get("LOCAL").is_none());
}

#[test]
fn opening_needs_metadata() {
    let root = PathBuf::from("nowhere");
    match DblBundle::open(&root, None) {
        Err(Error::MissingMetadata(path)) => assert_eq!(path, root),
        other => panic!("{other:?}"),
    }
}

fn draft_of(metadata: &str) -> Result<BundleDraft, Error> {
    DblBundle::open(&PathBuf::from("r"), Some(metadata.as_bytes()))
}

#[test]
fn opening_needs_a_language() {
    let metadata = "<DBLMetadata><identification><abbreviation>A</abbreviation></identification></DBLMetadata>";
    assert!(matches!(
        draft_of(metadata),
        Err(Error::MissingField("language/ldml or language/iso"))
    ));
}

#[test]
fn opening_falls_back_to_the_iso_language() {
    let metadata = "<DBLMetadata id='i'><identification><name>N</name><abbreviation>A</abbreviation></identification><language><iso> eng </iso></language></DBLMetadata>";
    let bundle = draft_of(metadata).unwrap().finish().unwrap();
    assert_eq!(bundle.locale.to_string(), "en");
    assert_eq!(bundle.script_direction, ScriptDirection::LeftToRight);
    assert_eq!(bundle.abbreviation, "A");
    assert_eq!(bundle.local_abbreviation, None);
}

#[test]
fn opening_rejects_an_invalid_locale() {
    let metadata = "<DBLMetadata><language><ldml>not a locale</ldml></language></DBLMetadata>";
    match draft_of(metadata) {
        Err(Error::InvalidLocale { value, reason }) => {
            assert_eq!(value, "not a locale");
            assert!(!reason.is_empty());
        }
        other => panic!("{other:?}"),
    }
}

#[test]
fn opening_needs_an_abbreviation_an_id_and_a_name() {
    let metadata = "<DBLMetadata><language><ldml>en</ldml></language></DBLMetadata>";
    assert!(matches!(
        draft_of(metadata),
        Err(Error::MissingField("identification/abbreviation"))
    ));
    let metadata = "<DBLMetadata><identification><abbreviation>A</abbreviation></identification><language><ldml>en</ldml></language></DBLMetadata>";
    assert!(matches!(
        draft_of(metadata).unwrap().finish(),
        Err(Error::MissingField("DBLMetadata/@id"))
    ));
    let metadata = "<DBLMetadata id='i'><identification><abbreviation>A</abbreviation></identification><language><ldml>en</ldml></language></DBLMetadata>";
    assert!(matches!(
        draft_of(metadata).unwrap().finish(),
        Err(Error::MissingField("identification/name"))
    ));
}

#[test]
fn books_without_declared_names_have_none() {
    let metadata = "<DBLMetadata id='i'><identification><name>N</name><abbreviation>A</abbreviation></identification><language><ldml>ar</ldml><scriptDirection> rtl </scriptDirection></language><manifest><resource uri='release/USX_1/x.usx'/></manifest></DBLMetadata>";
    let draft = draft_of(metadata).unwrap();
    assert_eq!(draft.next_resource(), Some("release/USX_1/x.usx"));
    let path = Path::new("r").join("release/USX_1/x.usx");
    assert_eq!(draft.next_path(), Some(path.clone()));
    let draft = draft.add_book(GENESIS.as_bytes()).unwrap();
    assert_eq!(draft.next_resource(), None);
    assert_eq!(draft.next_path(), None);
    let bundle = draft.finish().unwrap();
    assert_eq!(bundle.script_direction, ScriptDirection::RightToLeft);
    assert_eq!(bundle.books().len(), 1);
    assert_eq!(bundle.books()[0].names.short, None);
    assert_eq!(bundle.books()[0].path(), &path);
    assert!(bundle.book("gEn").is_some());
    assert!(bundle.book("EXO").is_none());
}

#[test]
fn a_broken_book_stops_the_bundle() {
    let metadata = "<DBLMetadata id='i'><identification><name>N</name><abbreviation>A</abbreviation></identification><language><ldml>en</ldml></language><manifest><resource uri='release/USX_1/x.usx'/></manifest></DBLMetadata>";
    let draft = draft_of(metadata).unwrap();
    assert!(matches!(
        draft.add_book(b"<usx version='3.0'></usx>"),
        Err(Error::MissingUsxField("book/@code"))
    ));
}

#[test]
fn books_answer_to_all_their_names() {
    let bundle = open(&PathBuf::from("r")).unwrap();
    for name in ["GEN", "gen", "Gen.", "gen.", "GENESIS", "genesis"] {
        let request = PassageRequest::chapter(name, 2).unwrap();
        assert_eq!(bundle.requested_book(&request).unwrap().code, "GEN");
        assert_eq!(passage(&bundle, &request).unwrap().verses.len(), 3);
    }
    let request = PassageRequest::chapter("Exodus", 1).unwrap();
    assert_eq!(bundle.requested_book(&request).unwrap().code, "EXO");
}

#[test]
fn unknown_books_and_passages_are_refused() {
    let bundle = open(&PathBuf::from("r")).unwrap();
    let request = PassageRequest::chapter("Leviticus", 1).unwrap();
    match bundle.passage(&request, GENESIS.as_bytes()) {
        Err(Error::BookNotFound(name)) => assert_eq!(name, "Leviticus"),
        other => panic!("{other:?}"),
    }
    let request = PassageRequest::verse("Genesis", 1, 7).unwrap();
    match bundle.passage(&request, GENESIS.as_bytes()) {
        Err(Error::PassageNotFound(asked)) => assert_eq!(asked, request),
        other => panic!("{other:?}"),
    }
    // The document of another book.
    let request = PassageRequest::chapter("Genesis", 1).unwrap();
    assert!(matches!(
        bundle.passage(&request, EXODUS.as_bytes()),
        Err(Error::MismatchedBookCode { .. })
    ));
}

#[test]
fn passages_keep_document_order() {
    let bundle = open(&PathBuf::from("r")).unwrap();
    let request = PassageRequest::verse_range("Gen.", 1, 2, 1, 3).unwrap();
    let found = passage(&bundle, &request).unwrap();
    assert_eq!(found.request, request);
    assert_eq!(found.text(), "Second. Third, with no end.");
}

#[test]
fn an_invalid_request_becomes_an_error() {
    let invalid = PassageRequest::chapter(" ", 1).unwrap_err();
    match Error::from(invalid) {
        Error::InvalidPassageRequest(inner) => {
            assert_eq!(inner.reason(), "the book name must not be empty")
        }
        other => panic!("{other:?}"),
    }
}

#[test]
fn the_first_book_of_a_code_is_found() {
    let metadata = "<DBLMetadata id='i'><identification><name>N</name><abbreviation>A</abbreviation></identification><language><ldml>en</ldml></language><manifest><resource uri='release/USX_1/x.usx'/><resource uri='release/USX_1/y.usx'/></manifest></DBLMetadata>";
    let draft = draft_of(metadata).unwrap();
    let draft = draft
        .add_book(b"<usx version='2.0'><book code='gen' style='id'/></usx>")
        .unwrap();
    let draft = draft.add_book(GENESIS.as_bytes()).unwrap();
    let bundle = draft.finish().unwrap();
    assert_eq!(bundle.books().len(), 2);
    assert_eq!(bundle.book("GEN").unwrap().code, "gen");
    assert!(bundle.book("GE").is_none());
}
