//! The verses of a USX document with their text, told from its events.
//!
//! What stands here does not follow the parser of [`crate::usx`] from event to
//! event. It looks ahead from the start of a verse for the text that belongs to
//! it.

use vstd::prelude::*;

use crate::passage::VerseView;
use crate::text;
use crate::usx::{self, Progress};
use crate::xml::{self, ElementView, EventView};

verus! {

/// The text that an event holds: that of a text or a CDATA section, or what a reference
/// stands for.
pub open spec fn text_of(event: EventView) -> Seq<char> {
    match event {
        EventView::Text(Ok(content)) | EventView::CData(Ok(content)) => content,
        EventView::Reference(Ok(reference)) => match xml::unescaped(
            seq!['&'] + reference + seq![';'],
        ) {
            Ok(content) => content,
            Err(_) => seq![],
        },
        _ => seq![],
    }
}

/// All the text from the first of `events` to the milestone that completes the verse, or to
/// the end of the document, without that of notes, figures and sidebars.
pub open spec fn verse_text(
    events: Seq<Result<EventView, quick_xml::Error>>,
    depth: nat,
    milestone: Option<ElementView>,
) -> Seq<char>
    decreases events.len(),
{
    if events.len() == 0 {
        seq![]
    } else {
        match events[0] {
            Err(_) => seq![],
            Ok(event) => if event is Eof || usx::milestone_met(depth, milestone, event) is Some {
                seq![]
            } else {
                (if depth == 0 {
                    text_of(event)
                } else {
                    seq![]
                }) + verse_text(
                    events.skip(1),
                    usx::depth_after(depth, milestone, event),
                    usx::milestone_after(milestone, event),
                )
            },
        }
    }
}

/// The verses that start in `events`, in document order and each with its text.
pub open spec fn verses_told(
    events: Seq<Result<EventView, quick_xml::Error>>,
    depth: nat,
    milestone: Option<ElementView>,
    chapter: Option<u32>,
    book_code: Seq<char>,
) -> Seq<VerseView>
    decreases events.len(),
{
    if events.len() == 0 {
        seq![]
    } else {
        match events[0] {
            Err(_) => seq![],
            Ok(event) => if event is Eof {
                seq![]
            } else {
                let next_depth = usx::depth_after(depth, milestone, event);
                let next_milestone = usx::milestone_after(milestone, event);
                match usx::milestone_met(depth, milestone, event) {
                    None => verses_told(
                        events.skip(1),
                        next_depth,
                        next_milestone,
                        chapter,
                        book_code,
                    ),
                    Some(element) => with_text(
                        usx::verses_begun(element, chapter, book_code),
                        text::collapsed(verse_text(events.skip(1), next_depth, next_milestone)),
                    ) + verses_told(
                        events.skip(1),
                        next_depth,
                        next_milestone,
                        usx::chapter_after(chapter, element),
                        book_code,
                    ),
                }
            },
        }
    }
}

/// Verses with a text put in.
pub open spec fn with_text(verses: Seq<VerseView>, text: Seq<char>) -> Seq<VerseView> {
    verses.map_values(|verse: VerseView| VerseView { text, ..verse })
}

/// The verses of a document, in document order and each with its text.
pub open spec fn document_scripture(source: Seq<u8>, book_code: Seq<char>) -> Seq<VerseView> {
    verses_told(xml::document_events(source), 0, None, None, book_code)
}

spec fn open_chapter(progress: Progress) -> Option<u32> {
    match progress.chapter {
        Some(chapter) => Some(chapter.number),
        None => None,
    }
}

/// The open verse, if there is one, with the text that it has and the text to come.
spec fn finished(current: Option<VerseView>, rest: Seq<char>) -> Seq<VerseView> {
    match current {
        Some(verse) => seq![VerseView { text: text::collapsed(verse.text + rest), ..verse }],
        None => seq![],
    }
}

proof fn lemma_marked_verses(progress: Progress, element: ElementView, next: Progress)
    requires
        usx::is_milestone_name(element.name),
        progress.marked(element) == Ok::<Progress, crate::error::ErrorView>(next),
    ensures
        next.verses == progress.verse_closed().verses,
        usx::verses_begun(element, open_chapter(progress), progress.book_code) == (
        match next.current {
            Some(verse) => seq![verse],
            None => seq![],
        }),
        next.current is Some ==> next.current->0.text.len() == 0,
        open_chapter(next) == usx::chapter_after(open_chapter(progress), element),
{
    usx::lemma_element_names();
    let begun = usx::verses_begun(element, open_chapter(progress), progress.book_code);
    if element.name == "chapter"@ {
        assert(begun =~= seq![]);
    } else {
        match xml::optional_value(element, "eid"@) {
            Ok(Some(_)) => {
                assert(begun =~= seq![]);
            },
            _ => {
                assert(begun =~= seq![next.current->0]);
            },
        }
    }
}

proof fn lemma_met(progress: Progress, event: EventView, next: Progress, element: ElementView)
    requires
        progress.milestone is Some ==> usx::is_milestone_name(progress.milestone->0.name),
        progress.step(event) == Ok::<Progress, crate::error::ErrorView>(next),
        usx::milestone_met(progress.excluded_depth, progress.milestone, event) == Some(element),
    ensures
        next.verses == progress.verse_closed().verses,
        usx::verses_begun(element, open_chapter(progress), progress.book_code) == (
        match next.current {
            Some(verse) => seq![verse],
            None => seq![],
        }),
        next.current is Some ==> next.current->0.text.len() == 0,
        open_chapter(next) == usx::chapter_after(open_chapter(progress), element),
{
    usx::lemma_element_names();
    let free = Progress { milestone: None, ..progress };
    assert(free.verse_closed().verses == progress.verse_closed().verses);
    match progress.milestone {
        Some(_) => lemma_marked_verses(free, element, next),
        None => lemma_marked_verses(progress, element, next),
    }
}

proof fn lemma_unmet(progress: Progress, event: EventView, next: Progress)
    requires
        progress.milestone is Some ==> usx::is_milestone_name(progress.milestone->0.name),
        progress.step(event) == Ok::<Progress, crate::error::ErrorView>(next),
        event !is Eof,
        usx::milestone_met(progress.excluded_depth, progress.milestone, event) is None,
    ensures
        next.verses == progress.verses,
        open_chapter(next) == open_chapter(progress),
        match progress.current {
            Some(verse) => next.current == Some(
                VerseView {
                    text: verse.text + (if progress.excluded_depth == 0 {
                        text_of(event)
                    } else {
                        seq![]
                    }),
                    ..verse
                },
            ),
            None => next.current is None,
        },
{
    usx::lemma_element_names();
    match progress.current {
        Some(verse) => {
            assert(verse.text + Seq::<char>::empty() =~= verse.text);
        },
        None => {},
    }
}

proof fn lemma_run_told(
    progress: Progress,
    events: Seq<Result<EventView, quick_xml::Error>>,
)
    requires
        progress.milestone is Some ==> usx::is_milestone_name(progress.milestone->0.name),
        xml::is_whole(events),
        progress.run(events) is Ok,
    ensures
        progress.run(events)->Ok_0 == progress.verses + finished(
            progress.current,
            verse_text(events, progress.excluded_depth, progress.milestone),
        ) + verses_told(
            events,
            progress.excluded_depth,
            progress.milestone,
            open_chapter(progress),
            progress.book_code,
        ),
    decreases events.len(),
{
    let event = events[0]->Ok_0;
    let next = progress.step(event)->Ok_0;
    let depth = progress.excluded_depth;
    let milestone = progress.milestone;
    let ahead = verse_text(events, depth, milestone);
    let told = verses_told(events, depth, milestone, open_chapter(progress), progress.book_code);
    usx::lemma_step_frame(progress, event, next);
    if event is Eof {
        assert(ahead =~= seq![] && told =~= seq![]);
        assert(next == progress.verse_closed());
        match progress.current {
            Some(verse) => {
                assert(verse.text + ahead =~= verse.text);
                assert(next.verses =~= progress.verses + finished(progress.current, ahead) + told);
            },
            None => {
                assert(next.verses =~= progress.verses + finished(progress.current, ahead) + told);
            },
        }
    } else {
        let rest = events.skip(1);
        assert(events.len() > 1);
        assert(rest.last() == events.last());
        assert forall|i: int| 0 <= i < rest.len() - 1 implies (#[trigger] rest[i]) is Ok && !(
        rest[i]->Ok_0 is Eof) by {
            assert(events[i + 1] is Ok && !(events[i + 1]->Ok_0 is Eof));
        }
        lemma_run_told(next, rest);
        let later = verse_text(rest, next.excluded_depth, next.milestone);
        let others = verses_told(
            rest,
            next.excluded_depth,
            next.milestone,
            open_chapter(next),
            progress.book_code,
        );
        match usx::milestone_met(depth, milestone, event) {
            Some(element) => {
                lemma_met(progress, event, next, element);
                assert(ahead =~= seq![]);
                let begun = usx::verses_begun(element, open_chapter(progress), progress.book_code);
                let here = with_text(begun, text::collapsed(later));
                assert(told == here + others);
                match next.current {
                    Some(verse) => {
                        assert(verse.text + later =~= later);
                        assert(here =~= finished(next.current, later));
                    },
                    None => {
                        assert(here =~= finished(next.current, later));
                    },
                }
                match progress.current {
                    Some(verse) => {
                        assert(verse.text + ahead =~= verse.text);
                        assert(next.verses =~= progress.verses + finished(progress.current, ahead));
                    },
                    None => {
                        assert(next.verses =~= progress.verses + finished(progress.current, ahead));
                    },
                }
                assert(next.verses + here + others =~= next.verses + (here + others));
            },
            None => {
                lemma_unmet(progress, event, next);
                assert(told == others);
                let piece = if depth == 0 {
                    text_of(event)
                } else {
                    seq![]
                };
                assert(ahead == piece + later);
                match progress.current {
                    Some(verse) => {
                        assert((verse.text + piece) + later =~= verse.text + (piece + later));
                    },
                    None => {},
                }
                assert(finished(next.current, later) == finished(progress.current, ahead));
            },
        }
    }
}

/// The verses of a document are those that its verse milestones start, one for each and in
/// document order. The text of each is the collapse of all text, CDATA and references from
/// its milestone to the next milestone or the end of the document, without that of notes,
/// figures and sidebars.
pub proof fn law_verses_with_their_text(source: Seq<u8>, book_code: Seq<char>)
    requires
        xml::is_whole(xml::document_events(source)),
        usx::document_verses(source, book_code) is Ok,
    ensures
        usx::document_verses(source, book_code)->Ok_0 == document_scripture(source, book_code),
{
    lemma_run_told(usx::at_start(book_code), xml::document_events(source));
    assert(usx::at_start(book_code).verses + finished(
        None,
        verse_text(xml::document_events(source), 0, None),
    ) + document_scripture(source, book_code) =~= document_scripture(source, book_code));
}

} // verus!
