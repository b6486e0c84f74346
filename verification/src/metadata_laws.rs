//! What a metadata document declares, told from its events.
//!
//! What stands here does not follow the parser of [`crate::metadata`]. It tells
//! from the events before a place of the document which elements are open there,
//! and from the texts and elements at all places what is declared.

use vstd::prelude::*;

use crate::bundle::ScriptDirection;
use crate::error::ErrorView;
use crate::metadata::{self, MetadataProgress, MetadataView};
use crate::text;
use crate::xml::{self, ElementView, EventView};

verus! {

// Places of a document.

/// The names of the elements that are open before the event at `n`, the outermost first.
pub open spec fn open_elements(
    events: Seq<Result<EventView, quick_xml::Error>>,
    n: int,
) -> Seq<Seq<char>>
    decreases n,
{
    if n <= 0 {
        seq![]
    } else {
        let before = open_elements(events, n - 1);
        match events[n - 1] {
            Ok(EventView::Start(element)) => before.push(element.name),
            Ok(EventView::End(_)) => if before.len() == 0 {
                before
            } else {
                before.drop_last()
            },
            _ => before,
        }
    }
}

/// The text that stands at a place: text, or what a reference stands for.
pub open spec fn text_here(event: Result<EventView, quick_xml::Error>) -> Option<Seq<char>> {
    match event {
        Ok(EventView::Text(Ok(content))) => Some(content),
        Ok(EventView::Reference(Ok(reference))) => match xml::unescaped(
            seq!['&'] + reference + seq![';'],
        ) {
            Ok(content) => Some(content),
            Err(_) => None,
        },
        _ => None,
    }
}

/// All the text before the event at `n` that stands in elements of that path, one piece after
/// the other, where there is any.
pub open spec fn text_at(
    events: Seq<Result<EventView, quick_xml::Error>>,
    n: int,
    path: Seq<Seq<char>>,
) -> Option<Seq<char>>
    decreases n,
{
    if n <= 0 {
        None
    } else {
        let before = text_at(events, n - 1, path);
        match text_here(events[n - 1]) {
            Some(content) => if open_elements(events, n - 1) == path {
                match before {
                    Some(text) => Some(text + content),
                    None => Some(content),
                }
            } else {
                before
            },
            None => before,
        }
    }
}

/// The path of an element that lies in the `group` of the root element.
pub open spec fn path_of(group: Seq<char>, field: Seq<char>) -> Seq<Seq<char>> {
    seq!["DBLMetadata"@, group, field]
}

/// Whether an event opens the root element.
pub open spec fn opens_root(
    events: Seq<Result<EventView, quick_xml::Error>>,
    n: int,
    element: ElementView,
) -> bool {
    events[n] == Ok::<EventView, quick_xml::Error>(EventView::Start(element)) && element.name
        == "DBLMetadata"@ && open_elements(events, n).len() == 0
}

/// The value of an attribute of the root element, where it is declared.
pub open spec fn root_attribute(
    events: Seq<Result<EventView, quick_xml::Error>>,
    n: int,
    name: Seq<char>,
) -> Option<Seq<char>>
    decreases n,
{
    if n <= 0 {
        None
    } else {
        match events[n - 1] {
            Ok(EventView::Start(element)) => if opens_root(events, n - 1, element) {
                match xml::optional_value(element, name) {
                    Ok(value) => value,
                    Err(_) => None,
                }
            } else {
                root_attribute(events, n - 1, name)
            },
            _ => root_attribute(events, n - 1, name),
        }
    }
}

/// The writing direction that the last text of the direction element declares.
pub open spec fn direction_at(
    events: Seq<Result<EventView, quick_xml::Error>>,
    n: int,
) -> Option<ScriptDirection>
    decreases n,
{
    if n <= 0 {
        None
    } else {
        match text_here(events[n - 1]) {
            Some(content) => if open_elements(events, n - 1) == path_of(
                "language"@,
                "scriptDirection"@,
            ) {
                Some(
                    if text::equal_ignoring_case(text::trimmed(content), "RTL"@) {
                        ScriptDirection::RightToLeft
                    } else {
                        ScriptDirection::LeftToRight
                    },
                )
            } else {
                direction_at(events, n - 1)
            },
            None => direction_at(events, n - 1),
        }
    }
}

/// The code of the book whose `name` element is open before the event at `n`: what follows
/// `book-` in its identifier, with ASCII letters in upper case.
pub open spec fn book_at(
    events: Seq<Result<EventView, quick_xml::Error>>,
    n: int,
) -> Option<Seq<char>>
    decreases n,
{
    if n <= 0 {
        None
    } else {
        let open = open_elements(events, n - 1);
        match events[n - 1] {
            Ok(EventView::Start(element)) => if element.name == "name"@ && open.len() > 0
                && open.last() == "names"@ {
                match xml::optional_value(element, "id"@) {
                    Ok(Some(id)) => if "book-"@.is_prefix_of(id) {
                        Some(
                            Seq::new(
                                (id.len() - "book-"@.len()) as nat,
                                |i: int| text::ascii_upper(id["book-"@.len() + i]),
                            ),
                        )
                    } else {
                        None
                    },
                    _ => None,
                }
            } else {
                book_at(events, n - 1)
            },
            Ok(EventView::End(name)) => if name == "name"@ && open.len() > 0 && open[if open.len()
                < 2 {
                0
            } else {
                open.len() - 2
            }] == "names"@ {
                None
            } else {
                book_at(events, n - 1)
            },
            _ => book_at(events, n - 1),
        }
    }
}

/// The path of a name of a book.
pub open spec fn name_path(field: Seq<char>) -> Seq<Seq<char>> {
    seq!["DBLMetadata"@, "names"@, "name"@, field]
}

/// All the text before the event at `n` of that name of that book, where there is any.
pub open spec fn name_at(
    events: Seq<Result<EventView, quick_xml::Error>>,
    n: int,
    code: Seq<char>,
    field: Seq<char>,
) -> Option<Seq<char>>
    decreases n,
{
    if n <= 0 {
        None
    } else {
        let before = name_at(events, n - 1, code, field);
        match text_here(events[n - 1]) {
            Some(content) => if open_elements(events, n - 1) == name_path(field) && book_at(
                events,
                n - 1,
            ) == Some(code) {
                match before {
                    Some(text) => Some(text + content),
                    None => Some(content),
                }
            } else {
                before
            },
            None => before,
        }
    }
}

/// Whether text of some name of that book stands before the event at `n`.
pub open spec fn is_named(
    events: Seq<Result<EventView, quick_xml::Error>>,
    n: int,
    code: Seq<char>,
) -> bool
    decreases n,
{
    n > 0 && (is_named(events, n - 1, code) || (text_here(events[n - 1]) is Some && open_elements(
        events,
        n - 1,
    ).len() == 4 && open_elements(events, n - 1) == name_path(open_elements(events, n - 1)[3])
        && book_at(events, n - 1) == Some(code)))
}

/// The reference that an element at a place holds: the `uri` of a resource of a manifest, or
/// the `src` of a content element.
pub open spec fn reference_at(
    events: Seq<Result<EventView, quick_xml::Error>>,
    n: int,
) -> Result<Option<Seq<char>>, ErrorView> {
    match events[n] {
        Ok(EventView::Empty(element)) => if element.name == "resource"@ && open_elements(
            events,
            n,
        ).len() > 0 && open_elements(events, n).last() == "manifest"@ {
            xml::optional_value(element, "uri"@)
        } else if element.name == "content"@ {
            xml::optional_value(element, "src"@)
        } else {
            Ok(None)
        },
        _ => Ok(None),
    }
}

/// Whether a place lists that resource.
pub open spec fn lists(
    events: Seq<Result<EventView, quick_xml::Error>>,
    n: int,
    uri: Seq<char>,
) -> bool {
    reference_at(events, n) == Ok::<Option<Seq<char>>, ErrorView>(Some(uri))
}

/// Whether a resource is listed before the event at `n`.
pub open spec fn is_listed(
    events: Seq<Result<EventView, quick_xml::Error>>,
    n: int,
    uri: Seq<char>,
) -> bool {
    exists|k: int| 0 <= k < n && #[trigger] lists(events, k, uri)
}

/// Whether a text is `release/USX_`, any text, and `.usx`.
pub open spec fn has_usx_form(uri: Seq<char>) -> bool {
    exists|middle: Seq<char>| uri == #[trigger] ("release/USX_"@ + middle + ".usx"@)
}

/// The error that the event at `n` is answered with, where it is one.
pub open spec fn fault_at(
    events: Seq<Result<EventView, quick_xml::Error>>,
    n: int,
) -> Option<ErrorView> {
    match events[n] {
        Err(error) => Some(ErrorView::Xml(error)),
        Ok(EventView::Start(element)) => if opens_root(events, n, element) {
            match (xml::optional_value(element, "id"@), xml::optional_value(element, "revision"@)) {
                (Err(error), _) => Some(error),
                (_, Err(error)) => Some(error),
                _ => None,
            }
        } else if element.name == "name"@ && open_elements(events, n).len() > 0 && open_elements(
            events,
            n,
        ).last() == "names"@ {
            match xml::optional_value(element, "id"@) {
                Err(error) => Some(error),
                _ => None,
            }
        } else {
            None
        },
        Ok(EventView::Empty(_)) => match reference_at(events, n) {
            Err(error) => Some(error),
            _ => None,
        },
        Ok(EventView::Text(Err(error))) => Some(ErrorView::XmlEncoding(error)),
        Ok(EventView::Reference(Err(error))) => Some(ErrorView::XmlEncoding(error)),
        Ok(EventView::Reference(Ok(reference))) => match xml::unescaped(
            seq!['&'] + reference + seq![';'],
        ) {
            Err(error) => Some(ErrorView::XmlEscape(error)),
            Ok(_) => None,
        },
        _ => None,
    }
}

// The parser keeps to what is told.

spec fn knows_place(
    progress: MetadataProgress,
    events: Seq<Result<EventView, quick_xml::Error>>,
    n: int,
) -> bool {
    &&& progress.stack == open_elements(events, n)
    &&& progress.current_book == book_at(events, n)
}

spec fn knows_texts(
    progress: MetadataProgress,
    events: Seq<Result<EventView, quick_xml::Error>>,
    n: int,
) -> bool {
    let m = progress.metadata;
    &&& m.id == root_attribute(events, n, "id"@)
    &&& m.revision == (match root_attribute(events, n, "revision"@) {
        Some(value) => text::parsed_u32(value),
        None => None,
    })
    &&& m.name == text_at(events, n, path_of("identification"@, "name"@))
    &&& m.local_name == text_at(events, n, path_of("identification"@, "nameLocal"@))
    &&& m.abbreviation == text_at(events, n, path_of("identification"@, "abbreviation"@))
    &&& m.local_abbreviation == text_at(
        events,
        n,
        path_of("identification"@, "abbreviationLocal"@),
    )
    &&& m.scope == text_at(events, n, path_of("identification"@, "scope"@))
    &&& m.language_iso == text_at(events, n, path_of("language"@, "iso"@))
    &&& m.ldml == text_at(events, n, path_of("language"@, "ldml"@))
    &&& m.script_direction == direction_at(events, n)
}

spec fn knows_names(
    progress: MetadataProgress,
    events: Seq<Result<EventView, quick_xml::Error>>,
    n: int,
    code: Seq<char>,
) -> bool {
    let names = progress.metadata.book_names;
    &&& names.dom().contains(code) <==> is_named(events, n, code)
    &&& is_named(events, n, code) ==> {
        &&& names[code].abbreviation == name_at(events, n, code, "abbr"@)
        &&& names[code].short == name_at(events, n, code, "short"@)
        &&& names[code].long == name_at(events, n, code, "long"@)
    }
    &&& !is_named(events, n, code) ==> {
        &&& name_at(events, n, code, "abbr"@) is None
        &&& name_at(events, n, code, "short"@) is None
        &&& name_at(events, n, code, "long"@) is None
    }
}

spec fn knows_resource(
    progress: MetadataProgress,
    events: Seq<Result<EventView, quick_xml::Error>>,
    n: int,
    uri: Seq<char>,
) -> bool {
    progress.metadata.usx_resources.contains(uri) <==> has_usx_form(uri) && is_listed(
        events,
        n,
        uri,
    )
}

/// Whether the resource at `i` is first listed at `k`, and those before it are the ones that
/// are listed before `k`.
pub open spec fn is_first_listed(
    resources: Seq<Seq<char>>,
    i: int,
    events: Seq<Result<EventView, quick_xml::Error>>,
    k: int,
) -> bool {
    &&& lists(events, k, resources[i])
    &&& !is_listed(events, k, resources[i])
    &&& forall|uri: Seq<char>| #[trigger]
        resources.take(i).contains(uri) <==> has_usx_form(uri) && is_listed(events, k, uri)
}

spec fn comes_in_order(
    resources: Seq<Seq<char>>,
    i: int,
    events: Seq<Result<EventView, quick_xml::Error>>,
    n: int,
) -> bool {
    exists|k: int| 0 <= k < n && #[trigger] is_first_listed(resources, i, events, k)
}

spec fn knows_order(
    progress: MetadataProgress,
    events: Seq<Result<EventView, quick_xml::Error>>,
    n: int,
) -> bool {
    forall|i: int|
        0 <= i < progress.metadata.usx_resources.len() ==> #[trigger] comes_in_order(
            progress.metadata.usx_resources,
            i,
            events,
            n,
        )
}

proof fn lemma_literals()
    ensures
        path_of("identification"@, "name"@) != path_of("identification"@, "nameLocal"@),
        path_of("identification"@, "name"@) != path_of("identification"@, "abbreviation"@),
        path_of("identification"@, "name"@) != path_of("identification"@, "abbreviationLocal"@),
        path_of("identification"@, "name"@) != path_of("identification"@, "scope"@),
        path_of("identification"@, "nameLocal"@) != path_of("identification"@, "abbreviation"@),
        path_of("identification"@, "nameLocal"@) != path_of(
            "identification"@,
            "abbreviationLocal"@,
        ),
        path_of("identification"@, "nameLocal"@) != path_of("identification"@, "scope"@),
        path_of("identification"@, "abbreviation"@) != path_of(
            "identification"@,
            "abbreviationLocal"@,
        ),
        path_of("identification"@, "abbreviation"@) != path_of("identification"@, "scope"@),
        path_of("identification"@, "abbreviationLocal"@) != path_of("identification"@, "scope"@),
        path_of("language"@, "iso"@) != path_of("language"@, "ldml"@),
        path_of("language"@, "iso"@) != path_of("language"@, "scriptDirection"@),
        path_of("language"@, "ldml"@) != path_of("language"@, "scriptDirection"@),
        forall|a: Seq<char>, b: Seq<char>| #[trigger]
            path_of("identification"@, a) != #[trigger] path_of("language"@, b),
        forall|group: Seq<char>, field: Seq<char>| #[trigger]
            path_of(group, field) == metadata::metadata_path(group, field),
        forall|group: Seq<char>, field: Seq<char>| (#[trigger] path_of(group, field)).len() == 3,
        "DBLMetadata"@ != "name"@,
        "resource"@ != "content"@,
        "abbr"@ != "short"@ && "abbr"@ != "long"@ && "short"@ != "long"@,
{
    reveal_strlit("identification");
    reveal_strlit("language");
    reveal_strlit("name");
    reveal_strlit("nameLocal");
    reveal_strlit("abbreviation");
    reveal_strlit("abbreviationLocal");
    reveal_strlit("scope");
    reveal_strlit("iso");
    reveal_strlit("ldml");
    reveal_strlit("scriptDirection");
    reveal_strlit("DBLMetadata");
    reveal_strlit("resource");
    reveal_strlit("content");
    reveal_strlit("abbr");
    reveal_strlit("short");
    reveal_strlit("long");
    assert("identification"@.len() == 14 && "language"@.len() == 8);
    assert("name"@.len() == 4 && "nameLocal"@.len() == 9 && "abbreviation"@.len() == 12);
    assert("abbreviationLocal"@.len() == 17 && "scope"@.len() == 5 && "iso"@.len() == 3);
    assert("ldml"@.len() == 4 && "scriptDirection"@.len() == 15 && "DBLMetadata"@.len() == 11);
    assert("resource"@.len() == 8 && "content"@.len() == 7);
    assert("abbr"@.len() == 4 && "short"@.len() == 5 && "long"@.len() == 4);
    assert("abbr"@[0] == 'a' && "long"@[0] == 'l');
    assert forall|group: Seq<char>, field: Seq<char>|
        (#[trigger] path_of(group, field)).len() == 3 && path_of(group, field)[1] == group
            && path_of(group, field)[2] == field by {}
}

proof fn lemma_step_fault(
    progress: MetadataProgress,
    events: Seq<Result<EventView, quick_xml::Error>>,
    n: int,
    event: EventView,
)
    requires
        0 <= n < events.len(),
        events[n] == Ok::<EventView, quick_xml::Error>(event),
        progress.stack == open_elements(events, n),
    ensures
        match progress.step(event) {
            Err(error) => fault_at(events, n) == Some(error),
            Ok(_) => fault_at(events, n) is None,
        },
{
    lemma_literals();
}

proof fn lemma_step_place(
    progress: MetadataProgress,
    events: Seq<Result<EventView, quick_xml::Error>>,
    n: int,
    event: EventView,
    next: MetadataProgress,
)
    requires
        0 <= n < events.len(),
        events[n] == Ok::<EventView, quick_xml::Error>(event),
        knows_place(progress, events, n),
        progress.step(event) == Ok::<MetadataProgress, ErrorView>(next),
    ensures
        knows_place(next, events, n + 1),
{
    lemma_literals();
    match event {
        EventView::Start(element) => {
            if element.name == "name"@ && progress.stack.len() > 0 && progress.stack.last()
                == "names"@ {
                match xml::optional_value(element, "id"@) {
                    Ok(Some(id)) => {
                        if "book-"@.is_prefix_of(id) {
                            assert(next.current_book->0 =~= book_at(events, n + 1)->0);
                        }
                    },
                    _ => {},
                }
            }
        },
        _ => {},
    }
}

proof fn lemma_step_texts(
    progress: MetadataProgress,
    events: Seq<Result<EventView, quick_xml::Error>>,
    n: int,
    event: EventView,
    next: MetadataProgress,
)
    requires
        0 <= n < events.len(),
        events[n] == Ok::<EventView, quick_xml::Error>(event),
        knows_place(progress, events, n),
        knows_texts(progress, events, n),
        progress.step(event) == Ok::<MetadataProgress, ErrorView>(next),
    ensures
        knows_texts(next, events, n + 1),
{
    lemma_literals();
}

proof fn lemma_step_names(
    progress: MetadataProgress,
    events: Seq<Result<EventView, quick_xml::Error>>,
    n: int,
    event: EventView,
    next: MetadataProgress,
    code: Seq<char>,
)
    requires
        0 <= n < events.len(),
        events[n] == Ok::<EventView, quick_xml::Error>(event),
        knows_place(progress, events, n),
        knows_names(progress, events, n, code),
        progress.step(event) == Ok::<MetadataProgress, ErrorView>(next),
    ensures
        knows_names(next, events, n + 1, code),
{
    lemma_literals();
    let open = progress.stack;
    match text_here(events[n]) {
        Some(content) => {
            if open.len() == 4 {
                let field = open[3];
                assert(open.take(3) == metadata::metadata_path("names"@, "name"@) <==> open
                    == name_path(field)) by {
                    let head = metadata::metadata_path("names"@, "name"@);
                    assert(head.len() == 3 && head[0] == "DBLMetadata"@ && head[1] == "names"@
                        && head[2] == "name"@);
                    if open.take(3) == head {
                        assert(open[0] == open.take(3)[0] && open[1] == open.take(3)[1] && open[2]
                            == open.take(3)[2]);
                        assert(open =~= name_path(field));
                    }
                    if open == name_path(field) {
                        assert(open.take(3) =~= head);
                    }
                }
                assert(open == name_path("abbr"@) ==> field == "abbr"@);
                assert(open == name_path("short"@) ==> field == "short"@);
                assert(open == name_path("long"@) ==> field == "long"@);
            } else {
                assert(name_path("abbr"@).len() == 4 && name_path("short"@).len() == 4
                    && name_path("long"@).len() == 4);
            }
        },
        None => {},
    }
}

proof fn lemma_usx_form(uri: Seq<char>)
    ensures
        metadata::is_usx_resource(uri) <==> has_usx_form(uri),
{
    reveal_strlit("release/USX_");
    reveal_strlit(".usx");
    let head = "release/USX_"@;
    let tail = ".usx"@;
    assert(head.len() == 12 && tail.len() == 4);
    if has_usx_form(uri) {
        let middle = choose|middle: Seq<char>| uri == #[trigger] (head + middle + tail);
        assert(uri.subrange(0, 12) =~= head);
        assert(uri.subrange(uri.len() - 4, uri.len() as int) =~= tail);
    }
    if metadata::is_usx_resource(uri) {
        assert(uri.subrange(0, 12) =~= head);
        assert(uri.subrange(uri.len() - 4, uri.len() as int) =~= tail);
        assert(uri.len() >= 16) by {
            let k = uri.len() - 4;
            assert(uri[k] == tail[0]);
            assert(tail[0] == '.');
            if uri.len() < 16 {
                assert(uri[k] == head[k]);
                assert(head[8] == 'U' && head[9] == 'S' && head[10] == 'X' && head[11] == '_');
            }
        }
        let middle = uri.subrange(12, uri.len() - 4);
        assert(uri =~= head + middle + tail) by {
            assert forall|i: int| 0 <= i < uri.len() implies uri[i] == (head + middle + tail)[i] by {
                if i < 12 {
                    assert(uri[i] == uri.subrange(0, 12)[i]);
                } else if i >= uri.len() - 4 {
                    assert(uri[i] == uri.subrange(uri.len() - 4, uri.len() as int)[i - (uri.len()
                        - 4)]);
                }
            }
        }
    }
}

proof fn lemma_listed_next(
    events: Seq<Result<EventView, quick_xml::Error>>,
    n: int,
    uri: Seq<char>,
)
    requires
        0 <= n,
    ensures
        is_listed(events, n + 1, uri) <==> is_listed(events, n, uri) || lists(events, n, uri),
{
    if is_listed(events, n + 1, uri) {
        let k = choose|k: int| 0 <= k < n + 1 && #[trigger] lists(events, k, uri);
        if k < n {
            assert(lists(events, k, uri));
        }
    }
    if is_listed(events, n, uri) {
        let k = choose|k: int| 0 <= k < n && #[trigger] lists(events, k, uri);
        assert(0 <= k < n + 1 && lists(events, k, uri));
    }
}

proof fn lemma_step_resources(
    progress: MetadataProgress,
    events: Seq<Result<EventView, quick_xml::Error>>,
    n: int,
    event: EventView,
    next: MetadataProgress,
)
    requires
        0 <= n < events.len(),
        events[n] == Ok::<EventView, quick_xml::Error>(event),
        knows_place(progress, events, n),
        forall|uri: Seq<char>| #[trigger] knows_resource(progress, events, n, uri),
        knows_order(progress, events, n),
        progress.step(event) == Ok::<MetadataProgress, ErrorView>(next),
    ensures
        forall|uri: Seq<char>| #[trigger] knows_resource(next, events, n + 1, uri),
        knows_order(next, events, n + 1),
{
    lemma_literals();
    let before = progress.metadata.usx_resources;
    let after = next.metadata.usx_resources;
    let added = reference_at(events, n) matches Ok(Some(uri)) && has_usx_form(uri)
        && !before.contains(uri);
    let listed = if reference_at(events, n) matches Ok(Some(_)) {
        reference_at(events, n)->Ok_0->0
    } else {
        seq![]
    };
    lemma_usx_form(listed);
    assert(after == (if added {
        before.push(listed)
    } else {
        before
    }));
    assert forall|uri: Seq<char>| #[trigger] knows_resource(next, events, n + 1, uri) by {
        lemma_listed_next(events, n, uri);
        assert(knows_resource(progress, events, n, uri));
        if added {
            if before.contains(uri) {
                let k = choose|k: int| 0 <= k < before.len() && before[k] == uri;
                assert(after[k] == uri);
            }
            assert(after[before.len() as int] == listed);
            if after.contains(uri) && uri != listed {
                let k = choose|k: int| 0 <= k < after.len() && after[k] == uri;
                assert(before[k] == uri);
            }
        }
    }
    assert forall|i: int| 0 <= i < after.len() implies #[trigger] comes_in_order(
        after,
        i,
        events,
        n + 1,
    ) by {
        if i < before.len() {
            assert(comes_in_order(before, i, events, n));
            let k = choose|k: int|
                0 <= k < n && #[trigger] is_first_listed(before, i, events, k);
            assert(after[i] == before[i]);
            assert(after.take(i) =~= before.take(i));
            assert(is_first_listed(after, i, events, k));
        } else {
            assert(after.take(i) =~= before);
            assert(knows_resource(progress, events, n, listed));
            assert forall|uri: Seq<char>| #[trigger]
                after.take(i).contains(uri) <==> has_usx_form(uri) && is_listed(
                events,
                n,
                uri,
            ) by {
                assert(knows_resource(progress, events, n, uri));
            }
            assert(is_first_listed(after, i, events, n));
        }
    }
}

spec fn knows_all(
    progress: MetadataProgress,
    events: Seq<Result<EventView, quick_xml::Error>>,
    n: int,
) -> bool {
    &&& knows_place(progress, events, n)
    &&& knows_texts(progress, events, n)
    &&& forall|code: Seq<char>| #[trigger] knows_names(progress, events, n, code)
    &&& forall|uri: Seq<char>| #[trigger] knows_resource(progress, events, n, uri)
    &&& knows_order(progress, events, n)
}

proof fn lemma_start(events: Seq<Result<EventView, quick_xml::Error>>)
    ensures
        knows_all(metadata::at_start(), events, 0),
{
}

proof fn lemma_step(
    progress: MetadataProgress,
    events: Seq<Result<EventView, quick_xml::Error>>,
    n: int,
    event: EventView,
    next: MetadataProgress,
)
    requires
        0 <= n < events.len(),
        events[n] == Ok::<EventView, quick_xml::Error>(event),
        knows_all(progress, events, n),
        progress.step(event) == Ok::<MetadataProgress, ErrorView>(next),
    ensures
        knows_all(next, events, n + 1),
{
    lemma_step_place(progress, events, n, event, next);
    lemma_step_texts(progress, events, n, event, next);
    lemma_step_resources(progress, events, n, event, next);
    assert forall|code: Seq<char>| #[trigger] knows_names(next, events, n + 1, code) by {
        assert(knows_names(progress, events, n, code));
        lemma_step_names(progress, events, n, event, next, code);
    }
}

proof fn lemma_run(
    progress: MetadataProgress,
    events: Seq<Result<EventView, quick_xml::Error>>,
    n: int,
) -> (last: MetadataProgress)
    requires
        xml::is_whole(events),
        0 <= n < events.len(),
        knows_all(progress, events, n),
    ensures
        progress.run(events.skip(n)) matches Ok(found) ==> knows_all(
            last,
            events,
            events.len() as int,
        ) && found == metadata::trimmed_metadata(last.metadata) && forall|k: int|
            n <= k < events.len() ==> #[trigger] fault_at(events, k) is None,
        progress.run(events.skip(n)) matches Err(error) ==> exists|k: int|
            n <= k < events.len() && #[trigger] fault_at(events, k) == Some(error) && forall|j: int|
                n <= j < k ==> #[trigger] fault_at(events, j) is None,
    decreases events.len() - n,
{
    let rest = events.skip(n);
    assert(rest[0] == events[n]);
    match events[n] {
        Err(error) => {
            assert(fault_at(events, n) == Some(ErrorView::Xml(error)));
            progress
        },
        Ok(event) => {
            lemma_step_fault(progress, events, n, event);
            match progress.step(event) {
                Err(error) => {
                    assert(fault_at(events, n) == Some(error));
                    progress
                },
                Ok(next) => {
                    lemma_step(progress, events, n, event, next);
                    if event is Eof {
                        assert(n == events.len() - 1) by {
                            if n < events.len() - 1 {
                                assert(!(events[n]->Ok_0 is Eof));
                            }
                        }
                        next
                    } else {
                        assert(n < events.len() - 1) by {
                            if n == events.len() - 1 {
                                assert(events.last() == events[n]);
                            }
                        }
                        assert(rest.skip(1) =~= events.skip(n + 1));
                        let last = lemma_run(next, events, n + 1);
                        if progress.run(rest) is Ok {
                            assert forall|k: int| n <= k < events.len() implies #[trigger] fault_at(
                                events,
                                k,
                            ) is None by {
                                if k > n {
                                    assert(n + 1 <= k);
                                }
                            }
                        } else {
                            let error = progress.run(rest)->Err_0;
                            let k = choose|k: int|
                                n + 1 <= k < events.len() && #[trigger] fault_at(events, k) == Some(
                                    error,
                                ) && forall|j: int|
                                    n + 1 <= j < k ==> #[trigger] fault_at(events, j) is None;
                            assert forall|j: int| n <= j < k implies #[trigger] fault_at(
                                events,
                                j,
                            ) is None by {
                                if j > n {
                                    assert(n + 1 <= j);
                                }
                            }
                            assert(fault_at(events, k) == Some(error));
                        }
                        last
                    }
                },
            }
        },
    }
}

proof fn lemma_document(source: Seq<u8>) -> (last: MetadataProgress)
    requires
        xml::is_whole(xml::document_events(source)),
    ensures
        metadata::document_metadata(source) matches Ok(found) ==> knows_all(
            last,
            xml::document_events(source),
            xml::document_events(source).len() as int,
        ) && found == metadata::trimmed_metadata(last.metadata) && forall|k: int|
            0 <= k < xml::document_events(source).len() ==> #[trigger] fault_at(
                xml::document_events(source),
                k,
            ) is None,
        metadata::document_metadata(source) matches Err(error) ==> exists|k: int|
            0 <= k < xml::document_events(source).len() && #[trigger] fault_at(
                xml::document_events(source),
                k,
            ) == Some(error) && forall|j: int|
                0 <= j < k ==> #[trigger] fault_at(xml::document_events(source), j) is None,
{
    let events = xml::document_events(source);
    assert(events.skip(0) =~= events);
    lemma_start(events);
    lemma_run(metadata::at_start(), events, 0)
}

// What every metadata document gives.

/// Metadata is read exactly where no event is answered with an error, and else the answer is
/// the first of these errors.
pub proof fn law_first_fault_is_the_answer(source: Seq<u8>)
    requires
        xml::is_whole(xml::document_events(source)),
    ensures
        metadata::document_metadata(source) is Ok <==> forall|k: int|
            0 <= k < xml::document_events(source).len() ==> #[trigger] fault_at(
                xml::document_events(source),
                k,
            ) is None,
        metadata::document_metadata(source) matches Err(error) ==> exists|k: int|
            0 <= k < xml::document_events(source).len() && #[trigger] fault_at(
                xml::document_events(source),
                k,
            ) == Some(error) && forall|j: int|
                0 <= j < k ==> #[trigger] fault_at(xml::document_events(source), j) is None,
{
    lemma_document(source);
}

/// Whether a text that was found is that of the document without the white space at its ends.
pub open spec fn is_trimmed_text(found: Option<Seq<char>>, told: Option<Seq<char>>) -> bool {
    match told {
        Some(content) => found == Some(text::trimmed(content)),
        None => found is None,
    }
}

/// Each text of the metadata is all the text of the document at its path, trimmed. The
/// identifier and the revision are attributes of the root element, and the writing direction
/// is what the last text at its path names.
pub proof fn law_texts_of_the_document(source: Seq<u8>, found: MetadataView)
    requires
        xml::is_whole(xml::document_events(source)),
        metadata::document_metadata(source) == Ok::<MetadataView, ErrorView>(found),
    ensures
        ({
            let events = xml::document_events(source);
            let end = events.len() as int;
            &&& is_trimmed_text(found.id, root_attribute(events, end, "id"@))
            &&& found.revision == (match root_attribute(events, end, "revision"@) {
                Some(value) => text::parsed_u32(value),
                None => None,
            })
            &&& is_trimmed_text(
                found.name,
                text_at(events, end, path_of("identification"@, "name"@)),
            )
            &&& is_trimmed_text(
                found.local_name,
                text_at(events, end, path_of("identification"@, "nameLocal"@)),
            )
            &&& is_trimmed_text(
                found.abbreviation,
                text_at(events, end, path_of("identification"@, "abbreviation"@)),
            )
            &&& is_trimmed_text(
                found.local_abbreviation,
                text_at(events, end, path_of("identification"@, "abbreviationLocal"@)),
            )
            &&& is_trimmed_text(
                found.scope,
                text_at(events, end, path_of("identification"@, "scope"@)),
            )
            &&& is_trimmed_text(
                found.language_iso,
                text_at(events, end, path_of("language"@, "iso"@)),
            )
            &&& is_trimmed_text(found.ldml, text_at(events, end, path_of("language"@, "ldml"@)))
            &&& found.script_direction == direction_at(events, end)
        }),
{
    lemma_document(source);
}

/// The names of a book are all the texts of the document at their paths while the `name`
/// element of the book is open, trimmed. A book without such text has no names.
pub proof fn law_names_of_the_document(source: Seq<u8>, found: MetadataView, code: Seq<char>)
    requires
        xml::is_whole(xml::document_events(source)),
        metadata::document_metadata(source) == Ok::<MetadataView, ErrorView>(found),
    ensures
        ({
            let events = xml::document_events(source);
            let end = events.len() as int;
            &&& found.book_names.dom().contains(code) <==> is_named(events, end, code)
            &&& is_named(events, end, code) ==> {
                &&& is_trimmed_text(
                    found.book_names[code].abbreviation,
                    name_at(events, end, code, "abbr"@),
                )
                &&& is_trimmed_text(
                    found.book_names[code].short,
                    name_at(events, end, code, "short"@),
                )
                &&& is_trimmed_text(
                    found.book_names[code].long,
                    name_at(events, end, code, "long"@),
                )
            }
        }),
{
    let last = lemma_document(source);
    let events = xml::document_events(source);
    assert(knows_names(last, events, events.len() as int, code));
}

/// The resources are all that a resource of a manifest or a content element of the document
/// refers to and that begin with `release/USX_` and end with `.usx`, whatever stands between,
/// and no others.
pub proof fn law_resources_of_the_document(source: Seq<u8>, found: MetadataView, uri: Seq<char>)
    requires
        xml::is_whole(xml::document_events(source)),
        metadata::document_metadata(source) == Ok::<MetadataView, ErrorView>(found),
    ensures
        found.usx_resources.contains(uri) <==> (exists|middle: Seq<char>|
            uri == #[trigger] ("release/USX_"@ + middle + ".usx"@)) && exists|k: int|
            0 <= k < xml::document_events(source).len() && #[trigger] lists(
                xml::document_events(source),
                k,
                uri,
            ),
{
    let last = lemma_document(source);
    let events = xml::document_events(source);
    assert(knows_resource(last, events, events.len() as int, uri));
}

/// The resources stand in the order in which the document first lists them.
pub proof fn law_order_of_resources(source: Seq<u8>, found: MetadataView, i: int)
    requires
        xml::is_whole(xml::document_events(source)),
        metadata::document_metadata(source) == Ok::<MetadataView, ErrorView>(found),
        0 <= i < found.usx_resources.len(),
    ensures
        exists|k: int|
            0 <= k < xml::document_events(source).len() && #[trigger] is_first_listed(
                found.usx_resources,
                i,
                xml::document_events(source),
                k,
            ),
{
    let last = lemma_document(source);
    let events = xml::document_events(source);
    assert(comes_in_order(found.usx_resources, i, events, events.len() as int));
}

/// A resource is a USX document of the release exactly where it has this form.
pub proof fn law_usx_resources(uri: Seq<char>, middle: Seq<char>)
    ensures
        metadata::is_usx_resource("release/USX_"@ + middle + ".usx"@),
        metadata::is_usx_resource(uri) ==> exists|between: Seq<char>|
            uri == #[trigger] ("release/USX_"@ + between + ".usx"@),
{
    lemma_usx_form(uri);
    lemma_usx_form("release/USX_"@ + middle + ".usx"@);
    assert(has_usx_form("release/USX_"@ + middle + ".usx"@));
}

} // verus!
