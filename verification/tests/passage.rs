use scripture_lib::{
    InvalidPassageRequest, Passage, PassageRange, PassageRequest, Verse,
};

fn verse(chapter: u32, number: &str, text: &str) -> Verse {
    Verse {
        sid: format!("GEN {chapter}:{number}"),
        chapter,
        number: number.to_owned(),
        alternate_number: None,
        published_number: None,
        text: text.to_owned(),
    }
}

fn reason(request: Result<PassageRequest, InvalidPassageRequest>) -> &'static str {
    request.unwrap_err().reason()
}

#[test]
fn invalid_requests_tell_the_reason() {
    assert_eq!(
        reason(PassageRequest::chapter(" \u{a0}\n", 0)),
        "the book name must not be empty"
    );
    assert_eq!(
        reason(PassageRequest::chapters("Gen", 0, 1)),
        "chapter numbers must be greater than zero"
    );
    assert_eq!(
        reason(PassageRequest::chapters("Gen", 1, 0)),
        "chapter numbers must be greater than zero"
    );
    assert_eq!(
        reason(PassageRequest::chapters("Gen", 3, 2)),
        "the start chapter must not follow the end chapter"
    );
    assert_eq!(
        reason(PassageRequest::verse_range("Gen", 1, 1, 1, 0)),
        "chapter and verse numbers must be greater than zero"
    );
    assert_eq!(
        reason(PassageRequest::verse_range("", 1, 1, 1, 0)),
        "the book name must not be empty"
    );
    assert_eq!(
        reason(PassageRequest::verses("Gen", 1, 2, 1)),
        "the start verse must not follow the end verse"
    );
}

#[test]
fn requests_keep_book_and_range() {
    let request = PassageRequest::chapters(" 1 Samuel ", 2, 4).unwrap();
    assert_eq!(request.book(), " 1 Samuel ");
    assert_eq!(request.range(), PassageRange::Chapters { start: 2, end: 4 });
    assert_eq!(
        PassageRequest::chapter("Gen", 2).unwrap(),
        PassageRequest::chapters("Gen", 2, 2).unwrap()
    );
    assert_eq!(
        PassageRequest::verse("Gen", 2, 3).unwrap(),
        PassageRequest::verse_range("Gen", 2, 3, 2, 3).unwrap()
    );
    assert_eq!(
        PassageRequest::verses("Gen", 2, 3, 5).unwrap(),
        PassageRequest::verse_range("Gen", 2, 3, 2, 5).unwrap()
    );
    assert_eq!(request.clone(), request);
}

#[test]
fn chapter_requests_include_whole_chapters() {
    let request = PassageRequest::chapters("Gen", 2, 3).unwrap();
    assert!(!request.includes(&verse(1, "31", "")));
    assert!(request.includes(&verse(2, "1", "")));
    assert!(request.includes(&verse(3, "24b", "")));
    assert!(!request.includes(&verse(4, "1", "")));
    // A verse without a number lies in no range.
    assert!(!request.includes(&verse(2, "a", "")));
    // The range covers what its two halves cover.
    let first = PassageRequest::chapter("Gen", 2).unwrap();
    let second = PassageRequest::chapter("Gen", 3).unwrap();
    for chapter in 1..5 {
        let found = verse(chapter, "7", "");
        assert_eq!(
            request.includes(&found),
            first.includes(&found) || second.includes(&found)
        );
    }
}

#[test]
fn verse_requests_include_bridges_that_they_touch() {
    let request = PassageRequest::verse("Gen", 1, 5).unwrap();
    for (number, expected) in [
        ("4", false),
        ("5", true),
        ("6", false),
        ("3-5", true),
        ("5-9", true),
        ("3-9", true),
        ("1-4", false),
        ("6-7", false),
        ("3,9", true),
    ] {
        assert_eq!(request.includes(&verse(1, number, "")), expected);
        assert!(!request.includes(&verse(2, number, "")));
    }
}

#[test]
fn verse_ranges_span_chapters() {
    let request = PassageRequest::verse_range("Gen", 1, 30, 3, 2).unwrap();
    assert!(!request.includes(&verse(1, "29", "")));
    assert!(request.includes(&verse(1, "30", "")));
    assert!(request.includes(&verse(2, "99", "")));
    assert!(request.includes(&verse(3, "2-4", "")));
    assert!(!request.includes(&verse(3, "3", "")));
    // A wider range includes it too.
    let wider = PassageRequest::verse_range("Gen", 1, 29, 3, 3).unwrap();
    assert!(wider.includes(&verse(1, "30", "")));
    assert!(wider.includes(&verse(1, "29", "")));
}

#[test]
fn selection_keeps_the_order() {
    let request = PassageRequest::verses("Gen", 1, 2, 3).unwrap();
    let verses = vec![
        verse(1, "3", "c"),
        verse(1, "1", "a"),
        verse(1, "2", "b"),
        verse(2, "2", "z"),
    ];
    let passage = Passage::select(&request, verses).unwrap();
    assert_eq!(passage.request, request);
    assert_eq!(passage.verses, [verse(1, "3", "c"), verse(1, "2", "b")]);
    assert_eq!(passage.text(), "c b");
    assert!(Passage::select(&request, vec![verse(1, "1", "a")]).is_none());
    assert!(Passage::select(&request, Vec::new()).is_none());
}

#[test]
fn passage_text_joins_verses_with_spaces() {
    let request = PassageRequest::chapter("Gen", 1).unwrap();
    let passage = Passage {
        request: request.clone(),
        verses: vec![verse(1, "1", "a"), verse(1, "2", ""), verse(1, "3", "b")],
    };
    assert_eq!(passage.text(), "a  b");
    let empty = Passage {
        request,
        verses: Vec::new(),
    };
    assert_eq!(empty.text(), "");
}
