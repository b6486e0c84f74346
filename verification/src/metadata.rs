//! The metadata of a DBL bundle.

use vstd::prelude::*;

use crate::bundle::{BookNames, NamesView, ScriptDirection};
use crate::error::{Error, ErrorView};
use crate::text;
use crate::xml::{self, ElementView, EventView, XmlElement, XmlEvent};

verus! {

/// The names of one book, with its USX code.
#[derive(Debug)]
pub struct NamedBook {
    pub code: String,
    pub names: BookNames,
}

/// What the metadata of a bundle declares.
#[derive(Debug)]
pub struct Metadata {
    pub id: Option<String>,
    pub revision: Option<u32>,
    pub name: Option<String>,
    pub local_name: Option<String>,
    pub abbreviation: Option<String>,
    pub local_abbreviation: Option<String>,
    pub scope: Option<String>,
    pub language_iso: Option<String>,
    pub ldml: Option<String>,
    pub script_direction: Option<ScriptDirection>,
    /// The names of books, one entry for each code.
    pub book_names: Vec<NamedBook>,
    pub usx_resources: Vec<String>,
}

/// The view of a [`Metadata`].
pub struct MetadataView {
    pub id: Option<Seq<char>>,
    pub revision: Option<u32>,
    pub name: Option<Seq<char>>,
    pub local_name: Option<Seq<char>>,
    pub abbreviation: Option<Seq<char>>,
    pub local_abbreviation: Option<Seq<char>>,
    pub scope: Option<Seq<char>>,
    pub language_iso: Option<Seq<char>>,
    pub ldml: Option<Seq<char>>,
    pub script_direction: Option<ScriptDirection>,
    pub book_names: Map<Seq<char>, NamesView>,
    pub usx_resources: Seq<Seq<char>>,
}

/// Whether an entry of the list has that code.
pub open spec fn lists_code(list: Seq<NamedBook>, code: Seq<char>) -> bool {
    exists|i: int| 0 <= i < list.len() && (#[trigger] list[i]).code@ == code
}

/// The names by book code.
pub open spec fn names_by_code(list: Seq<NamedBook>) -> Map<Seq<char>, NamesView> {
    Map::new(
        |code: Seq<char>| lists_code(list, code),
        |code: Seq<char>|
            list[choose|i: int| 0 <= i < list.len() && (#[trigger] list[i]).code@ == code].names@,
    )
}

/// Whether no two entries have the same code.
pub open spec fn distinct_codes(list: Seq<NamedBook>) -> bool {
    forall|i: int, j: int|
        0 <= i < j < list.len() ==> (#[trigger] list[i]).code@ != (#[trigger] list[j]).code@
}

impl View for Metadata {
    type V = MetadataView;

    open spec fn view(&self) -> MetadataView {
        MetadataView {
            id: text::optional(self.id),
            revision: self.revision,
            name: text::optional(self.name),
            local_name: text::optional(self.local_name),
            abbreviation: text::optional(self.abbreviation),
            local_abbreviation: text::optional(self.local_abbreviation),
            scope: text::optional(self.scope),
            language_iso: text::optional(self.language_iso),
            ldml: text::optional(self.ldml),
            script_direction: self.script_direction,
            book_names: names_by_code(self.book_names@),
            usx_resources: text::views(self.usx_resources@),
        }
    }
}

proof fn lemma_entry(list: Seq<NamedBook>, i: int)
    requires
        distinct_codes(list),
        0 <= i < list.len(),
    ensures
        names_by_code(list).dom().contains(list[i].code@),
        names_by_code(list)[list[i].code@] == list[i].names@,
{
    let code = list[i].code@;
    assert(lists_code(list, code));
    let k = choose|k: int| 0 <= k < list.len() && (#[trigger] list[k]).code@ == code;
    assert(k == i) by {
        if k < i {
            assert(list[k].code@ != list[i].code@);
        } else if i < k {
            assert(list[i].code@ != list[k].code@);
        }
    }
}

proof fn lemma_remove_entry(list: Seq<NamedBook>, i: int)
    requires
        distinct_codes(list),
        0 <= i < list.len(),
    ensures
        distinct_codes(list.remove(i)),
        names_by_code(list.remove(i)) == names_by_code(list).remove(list[i].code@),
        !lists_code(list.remove(i), list[i].code@),
{
    let rest = list.remove(i);
    let code = list[i].code@;
    assert forall|a: int, b: int| 0 <= a < b < rest.len() implies (#[trigger] rest[a]).code@ != (
    #[trigger] rest[b]).code@ by {
        let x = if a < i { a } else { a + 1 };
        let y = if b < i { b } else { b + 1 };
        assert(rest[a] == list[x] && rest[b] == list[y]);
        assert(list[x].code@ != list[y].code@);
    }
    assert forall|k: int| 0 <= k < rest.len() implies (#[trigger] rest[k]).code@ != code by {
        if k < i {
            assert(rest[k] == list[k]);
            assert(list[k].code@ != list[i].code@);
        } else {
            assert(rest[k] == list[k + 1]);
            assert(list[i].code@ != list[k + 1].code@);
        }
    }
    assert forall|c: Seq<char>| #[trigger] lists_code(rest, c) == (lists_code(list, c) && c
        != code) by {
        if lists_code(rest, c) {
            let k = choose|k: int| 0 <= k < rest.len() && (#[trigger] rest[k]).code@ == c;
            let x = if k < i { k } else { k + 1 };
            assert(list[x].code@ == c);
        }
        if lists_code(list, c) && c != code {
            let k = choose|k: int| 0 <= k < list.len() && (#[trigger] list[k]).code@ == c;
            let x = if k < i { k } else { k - 1 };
            assert(rest[x].code@ == c);
        }
    }
    let left = names_by_code(rest);
    let right = names_by_code(list).remove(code);
    assert forall|c: Seq<char>| left.dom().contains(c) implies left[c] == right[c] by {
        assert(lists_code(rest, c));
        let k = choose|k: int| 0 <= k < rest.len() && (#[trigger] rest[k]).code@ == c;
        lemma_entry(rest, k);
        let x = if k < i { k } else { k + 1 };
        assert(list[x] == rest[k]);
        lemma_entry(list, x);
    }
    assert(left =~= right);
}

proof fn lemma_push_entry(list: Seq<NamedBook>, entry: NamedBook)
    requires
        distinct_codes(list),
        !lists_code(list, entry.code@),
    ensures
        distinct_codes(list.push(entry)),
        names_by_code(list.push(entry)) == names_by_code(list).insert(entry.code@, entry.names@),
{
    let longer = list.push(entry);
    assert forall|a: int, b: int| 0 <= a < b < longer.len() implies (#[trigger] longer[a]).code@
        != (#[trigger] longer[b]).code@ by {
        assert(list[a].code@ != entry.code@);
        if b < list.len() {
            assert(list[a].code@ != list[b].code@);
        }
    }
    assert forall|c: Seq<char>| #[trigger] lists_code(longer, c) == (lists_code(list, c) || c
        == entry.code@) by {
        assert(longer[list.len() as int] == entry);
        if lists_code(list, c) {
            let k = choose|k: int| 0 <= k < list.len() && (#[trigger] list[k]).code@ == c;
            assert(longer[k].code@ == c);
        }
        if lists_code(longer, c) {
            let k = choose|k: int| 0 <= k < longer.len() && (#[trigger] longer[k]).code@ == c;
            if k < list.len() {
                assert(list[k].code@ == c);
            }
        }
    }
    let left = names_by_code(longer);
    let right = names_by_code(list).insert(entry.code@, entry.names@);
    assert forall|c: Seq<char>| left.dom().contains(c) implies left[c] == right[c] by {
        assert(lists_code(longer, c));
        let k = choose|k: int| 0 <= k < longer.len() && (#[trigger] longer[k]).code@ == c;
        lemma_entry(longer, k);
        if k < list.len() {
            assert(longer[k] == list[k]);
            lemma_entry(list, k);
            assert(lists_code(list, c));
        }
    }
    assert(left =~= right);
}

impl Metadata {
    /// Whether each book code has one entry.
    pub open spec fn well_formed(self) -> bool {
        distinct_codes(self.book_names@)
    }

    /// The names that the metadata declares for a book code.
    pub fn names_of(&self, code: &str) -> (names: Option<&BookNames>)
        requires
            self.well_formed(),
        ensures
            names is Some <==> self@.book_names.dom().contains(code@),
            names is Some ==> names->0@ == self@.book_names[code@],
    {
        let mut i: usize = 0;
        while i < self.book_names.len()
            invariant
                i <= self.book_names@.len(),
                self.well_formed(),
                forall|k: int| 0 <= k < i ==> (#[trigger] self.book_names@[k]).code@ != code@,
            decreases self.book_names@.len() - i,
        {
            if text::same(self.book_names[i].code.as_str(), code) {
                proof {
                    lemma_entry(self.book_names@, i as int);
                }
                return Some(&self.book_names[i].names);
            }
            i += 1;
        }
        assert(!lists_code(self.book_names@, code@));
        None
    }
}

// Recording of what the metadata document holds.

/// `value` added to a text that may not have been started.
pub open spec fn appended(destination: Option<Seq<char>>, value: Seq<char>) -> Option<Seq<char>> {
    match destination {
        Some(text) => Some(text + value),
        None => Some(value),
    }
}

/// A writing direction by its name.
pub open spec fn direction(value: Seq<char>) -> ScriptDirection {
    if text::equal_ignoring_case(text::trimmed(value), "RTL"@) {
        ScriptDirection::RightToLeft
    } else {
        ScriptDirection::LeftToRight
    }
}

/// Names of a book with `value` added to the one that the element `field` holds.
pub open spec fn names_with(names: NamesView, field: Seq<char>, value: Seq<char>) -> NamesView {
    if field == "abbr"@ {
        NamesView { abbreviation: appended(names.abbreviation, value), ..names }
    } else if field == "short"@ {
        NamesView { short: appended(names.short, value), ..names }
    } else if field == "long"@ {
        NamesView { long: appended(names.long, value), ..names }
    } else {
        names
    }
}

/// The path of an element of the metadata, by the names of its last two steps.
pub open spec fn metadata_path(group: Seq<char>, field: Seq<char>) -> Seq<Seq<char>> {
    seq!["DBLMetadata"@, group, field]
}

/// The metadata with a text recorded that stands at `path`. The names of a book are
/// recorded under the code of the book whose `name` element is open.
pub open spec fn with_text(
    metadata: MetadataView,
    path: Seq<Seq<char>>,
    value: Seq<char>,
    current_book: Option<Seq<char>>,
) -> MetadataView {
    if path == metadata_path("identification"@, "name"@) {
        MetadataView { name: appended(metadata.name, value), ..metadata }
    } else if path == metadata_path("identification"@, "nameLocal"@) {
        MetadataView { local_name: appended(metadata.local_name, value), ..metadata }
    } else if path == metadata_path("identification"@, "abbreviation"@) {
        MetadataView { abbreviation: appended(metadata.abbreviation, value), ..metadata }
    } else if path == metadata_path("identification"@, "abbreviationLocal"@) {
        MetadataView {
            local_abbreviation: appended(metadata.local_abbreviation, value),
            ..metadata
        }
    } else if path == metadata_path("identification"@, "scope"@) {
        MetadataView { scope: appended(metadata.scope, value), ..metadata }
    } else if path == metadata_path("language"@, "iso"@) {
        MetadataView { language_iso: appended(metadata.language_iso, value), ..metadata }
    } else if path == metadata_path("language"@, "ldml"@) {
        MetadataView { ldml: appended(metadata.ldml, value), ..metadata }
    } else if path == metadata_path("language"@, "scriptDirection"@) {
        MetadataView { script_direction: Some(direction(value)), ..metadata }
    } else if path.len() == 4 && path.take(3) == metadata_path("names"@, "name"@) {
        match current_book {
            Some(code) => {
                let names = if metadata.book_names.dom().contains(code) {
                    metadata.book_names[code]
                } else {
                    crate::bundle::no_names()
                };
                MetadataView {
                    book_names: metadata.book_names.insert(
                        code,
                        names_with(names, path[3], value),
                    ),
                    ..metadata
                }
            },
            None => metadata,
        }
    } else {
        metadata
    }
}

/// Whether a resource is a USX document of the release.
pub open spec fn is_usx_resource(uri: Seq<char>) -> bool {
    "release/USX_"@.is_prefix_of(uri) && ".usx"@.is_suffix_of(uri)
}

/// The metadata with a resource listed, if it is a USX document that is not listed yet.
pub open spec fn with_resource(metadata: MetadataView, uri: Seq<char>) -> MetadataView {
    if is_usx_resource(uri) && !metadata.usx_resources.contains(uri) {
        MetadataView { usx_resources: metadata.usx_resources.push(uri), ..metadata }
    } else {
        metadata
    }
}

/// A text that may be absent, trimmed.
pub open spec fn trimmed_optional(value: Option<Seq<char>>) -> Option<Seq<char>> {
    match value {
        Some(value) => Some(text::trimmed(value)),
        None => None,
    }
}

/// The names of a book, trimmed.
pub open spec fn trimmed_names(names: NamesView) -> NamesView {
    NamesView {
        abbreviation: trimmed_optional(names.abbreviation),
        short: trimmed_optional(names.short),
        long: trimmed_optional(names.long),
    }
}

/// The metadata with its texts and the names of its books trimmed.
pub open spec fn trimmed_metadata(metadata: MetadataView) -> MetadataView {
    MetadataView {
        id: trimmed_optional(metadata.id),
        name: trimmed_optional(metadata.name),
        local_name: trimmed_optional(metadata.local_name),
        abbreviation: trimmed_optional(metadata.abbreviation),
        local_abbreviation: trimmed_optional(metadata.local_abbreviation),
        scope: trimmed_optional(metadata.scope),
        language_iso: trimmed_optional(metadata.language_iso),
        ldml: trimmed_optional(metadata.ldml),
        book_names: metadata.book_names.map_values(|names: NamesView| trimmed_names(names)),
        ..metadata
    }
}

/// Adds `value` to a text, which is started where it was absent.
pub fn append(destination: &mut Option<String>, value: &str)
    ensures
        text::optional(*final(destination)) == appended(text::optional(*old(destination)), value@),
{
    match destination.take() {
        Some(mut text) => {
            text.append(value);
            *destination = Some(text);
        },
        None => {
            *destination = Some(value.to_owned());
        },
    }
}

fn trim_optional(value: &mut Option<String>)
    ensures
        text::optional(*final(value)) == trimmed_optional(text::optional(*old(value))),
{
    match value.take() {
        Some(text) => {
            *value = Some(text::trim(text.as_str()));
        },
        None => {},
    }
}

fn path_is(path: &Vec<String>, group: &str, field: &str) -> (b: bool)
    ensures
        b == (text::views(path@) == metadata_path(group@, field@)),
{
    let ghost views = text::views(path@);
    if path.len() != 3 {
        assert(views.len() != 3);
        return false;
    }
    assert(views[0] == path@[0]@ && views[1] == path@[1]@ && views[2] == path@[2]@);
    let b = text::same(path[0].as_str(), "DBLMetadata") && text::same(path[1].as_str(), group)
        && text::same(path[2].as_str(), field);
    if b {
        assert(views =~= metadata_path(group@, field@));
    } else {
        let expected = Ghost(metadata_path(group@, field@));
        assert(expected@[0] == "DBLMetadata"@ && expected@[1] == group@ && expected@[2] == field@);
    }
    b
}

fn is_name_path(path: &Vec<String>) -> (b: bool)
    ensures
        b == (path@.len() == 4 && text::views(path@).take(3) == metadata_path("names"@, "name"@)),
{
    let ghost views = text::views(path@);
    if path.len() != 4 {
        return false;
    }
    assert(views[0] == path@[0]@ && views[1] == path@[1]@ && views[2] == path@[2]@);
    let b = text::same(path[0].as_str(), "DBLMetadata") && text::same(path[1].as_str(), "names")
        && text::same(path[2].as_str(), "name");
    let ghost expected = metadata_path("names"@, "name"@);
    assert(expected[0] == "DBLMetadata"@ && expected[1] == "names"@ && expected[2] == "name"@);
    assert(views.take(3)[0] == views[0] && views.take(3)[1] == views[1] && views.take(3)[2]
        == views[2]);
    if b {
        assert(views.take(3) =~= expected);
    }
    b
}

impl Metadata {
    /// Metadata that declares nothing.
    fn empty() -> (metadata: Self)
        ensures
            metadata.well_formed(),
            metadata@ == no_metadata(),
    {
        let metadata = Metadata {
            id: None,
            revision: None,
            name: None,
            local_name: None,
            abbreviation: None,
            local_abbreviation: None,
            scope: None,
            language_iso: None,
            ldml: None,
            script_direction: None,
            book_names: Vec::new(),
            usx_resources: Vec::new(),
        };
        assert(metadata@.book_names =~= Map::empty());
        assert(metadata@.usx_resources =~= seq![]);
        metadata
    }

    fn take_names(&mut self, code: &str) -> (names: BookNames)
        requires
            old(self).well_formed(),
        ensures
            final(self).well_formed(),
            !lists_code(final(self).book_names@, code@),
            final(self)@ == (MetadataView {
                book_names: old(self)@.book_names.remove(code@),
                ..old(self)@
            }),
            names@ == (if old(self)@.book_names.dom().contains(code@) {
                old(self)@.book_names[code@]
            } else {
                crate::bundle::no_names()
            }),
    {
        let mut i: usize = 0;
        while i < self.book_names.len()
            invariant
                i <= self.book_names@.len(),
                *self == *old(self),
                self.well_formed(),
                forall|k: int| 0 <= k < i ==> (#[trigger] self.book_names@[k]).code@ != code@,
            decreases self.book_names@.len() - i,
        {
            if text::same(self.book_names[i].code.as_str(), code) {
                proof {
                    lemma_entry(self.book_names@, i as int);
                    lemma_remove_entry(self.book_names@, i as int);
                }
                let entry = self.book_names.remove(i);
                return entry.names;
            }
            i += 1;
        }
        assert(!lists_code(self.book_names@, code@));
        assert(self@.book_names.remove(code@) =~= self@.book_names);
        BookNames::default()
    }

    /// Records a text of the document.
    pub fn record_text(&mut self, path: &Vec<String>, value: &str, current_book: &Option<String>)
        requires
            old(self).well_formed(),
        ensures
            final(self).well_formed(),
            final(self)@ == with_text(
                old(self)@,
                text::views(path@),
                value@,
                text::optional(*current_book),
            ),
    {
        if path_is(path, "identification", "name") {
            append(&mut self.name, value);
        } else if path_is(path, "identification", "nameLocal") {
            append(&mut self.local_name, value);
        } else if path_is(path, "identification", "abbreviation") {
            append(&mut self.abbreviation, value);
        } else if path_is(path, "identification", "abbreviationLocal") {
            append(&mut self.local_abbreviation, value);
        } else if path_is(path, "identification", "scope") {
            append(&mut self.scope, value);
        } else if path_is(path, "language", "iso") {
            append(&mut self.language_iso, value);
        } else if path_is(path, "language", "ldml") {
            append(&mut self.ldml, value);
        } else if path_is(path, "language", "scriptDirection") {
            let right_to_left = text::eq_ignore_ascii_case(text::trim(value).as_str(), "RTL");
            self.script_direction = Some(
                if right_to_left {
                    ScriptDirection::RightToLeft
                } else {
                    ScriptDirection::LeftToRight
                },
            );
        } else if is_name_path(path) {
            match current_book {
                Some(code) => {
                    let mut names = self.take_names(code.as_str());
                    let field = path[3].as_str();
                    assert(text::views(path@)[3] == field@);
                    if text::same(field, "abbr") {
                        append(&mut names.abbreviation, value);
                    } else if text::same(field, "short") {
                        append(&mut names.short, value);
                    } else if text::same(field, "long") {
                        append(&mut names.long, value);
                    }
                    let entry = NamedBook { code: code.clone(), names };
                    proof {
                        lemma_push_entry(self.book_names@, entry);
                    }
                    self.book_names.push(entry);
                    assert(self@.book_names =~= with_text(
                        old(self)@,
                        text::views(path@),
                        value@,
                        text::optional(*current_book),
                    ).book_names);
                },
                None => {},
            }
        }
    }

    /// Lists a resource, if it is a USX document that is not listed yet.
    pub fn record_resource(&mut self, uri: String)
        requires
            old(self).well_formed(),
        ensures
            final(self).well_formed(),
            final(self)@ == with_resource(old(self)@, uri@),
    {
        if text::starts_with(uri.as_str(), "release/USX_") && text::ends_with(uri.as_str(), ".usx")
            && !text::contains(&self.usx_resources, uri.as_str()) {
            self.usx_resources.push(uri);
            assert(self@.usx_resources =~= old(self)@.usx_resources.push(uri@));
        }
    }

    fn trim_book_names(&mut self)
        requires
            old(self).well_formed(),
        ensures
            final(self).well_formed(),
            final(self)@ == (MetadataView {
                book_names: old(self)@.book_names.map_values(
                    |names: NamesView| trimmed_names(names),
                ),
                ..old(self)@
            }),
    {
        let mut book_names: Vec<NamedBook> = Vec::new();
        let mut i: usize = 0;
        while i < self.book_names.len()
            invariant
                i <= self.book_names@.len(),
                *self == *old(self),
                book_names@.len() == i,
                forall|k: int|
                    0 <= k < i ==> (#[trigger] book_names@[k]).code@ == self.book_names@[k].code@
                        && book_names@[k].names@ == trimmed_names(self.book_names@[k].names@),
            decreases self.book_names@.len() - i,
        {
            let code = self.book_names[i].code.clone();
            let mut names = self.book_names[i].names.clone();
            trim_optional(&mut names.abbreviation);
            trim_optional(&mut names.short);
            trim_optional(&mut names.long);
            book_names.push(NamedBook { code, names });
            i += 1;
        }
        let ghost before = self.book_names@;
        let ghost after = book_names@;
        proof {
            assert forall|a: int, b: int| 0 <= a < b < after.len() implies (
            #[trigger] after[a]).code@ != (#[trigger] after[b]).code@ by {
                assert(before[a].code@ != before[b].code@);
            }
            assert forall|c: Seq<char>| #[trigger]
                lists_code(after, c) == lists_code(before, c) by {
                if lists_code(after, c) {
                    let k = choose|k: int| 0 <= k < after.len() && (#[trigger] after[k]).code@ == c;
                    assert(before[k].code@ == c);
                }
                if lists_code(before, c) {
                    let k = choose|k: int|
                        0 <= k < before.len() && (#[trigger] before[k]).code@ == c;
                    assert(after[k].code@ == c);
                }
            }
            let left = names_by_code(after);
            let right = names_by_code(before).map_values(|names: NamesView| trimmed_names(names));
            assert forall|c: Seq<char>| left.dom().contains(c) implies left[c] == right[c] by {
                assert(lists_code(after, c));
                let k = choose|k: int| 0 <= k < after.len() && (#[trigger] after[k]).code@ == c;
                lemma_entry(after, k);
                lemma_entry(before, k);
            }
            assert(left =~= right);
        }
        self.book_names = book_names;
    }

    /// Trims the texts and the names of books.
    pub fn trim_metadata(&mut self)
        requires
            old(self).well_formed(),
        ensures
            final(self).well_formed(),
            final(self)@ == trimmed_metadata(old(self)@),
    {
        trim_optional(&mut self.id);
        trim_optional(&mut self.name);
        trim_optional(&mut self.local_name);
        trim_optional(&mut self.abbreviation);
        trim_optional(&mut self.local_abbreviation);
        trim_optional(&mut self.scope);
        trim_optional(&mut self.language_iso);
        trim_optional(&mut self.ldml);
        self.trim_book_names();
    }
}

/// The view of metadata that declares nothing.
pub open spec fn no_metadata() -> MetadataView {
    MetadataView {
        id: None,
        revision: None,
        name: None,
        local_name: None,
        abbreviation: None,
        local_abbreviation: None,
        scope: None,
        language_iso: None,
        ldml: None,
        script_direction: None,
        book_names: Map::empty(),
        usx_resources: seq![],
    }
}

// Reading of the metadata document.

/// What has been read of the metadata document, up to some event of it.
pub struct MetadataProgress {
    pub metadata: MetadataView,
    /// The names of the open elements, the outermost first.
    pub stack: Seq<Seq<char>>,
    /// The code of the book whose names are being read.
    pub current_book: Option<Seq<char>>,
}

/// The start of the metadata document.
pub open spec fn at_start() -> MetadataProgress {
    MetadataProgress { metadata: no_metadata(), stack: seq![], current_book: None }
}

/// The book code of the identifier of a `name` element, such as `book-gen`.
pub open spec fn book_of(id: Option<Seq<char>>) -> Option<Seq<char>> {
    match id {
        Some(id) => match text::after_prefix(id, "book-"@) {
            Some(code) => Some(code.map_values(|c: char| text::ascii_upper(c))),
            None => None,
        },
        None => None,
    }
}

/// The number of a revision, where it is one.
pub open spec fn revision_of(value: Option<Seq<char>>) -> Option<u32> {
    match value {
        Some(value) => text::parsed_u32(value),
        None => None,
    }
}

/// The reference to a resource that an element without content holds.
pub open spec fn resource_of(element: ElementView, stack: Seq<Seq<char>>) -> Result<
    Option<Seq<char>>,
    ErrorView,
> {
    if element.name == "resource"@ && stack.len() > 0 && stack.last() == "manifest"@ {
        xml::optional_value(element, "uri"@)
    } else if element.name == "content"@ {
        xml::optional_value(element, "src"@)
    } else {
        Ok(None)
    }
}

impl MetadataProgress {
    /// After an opening tag.
    pub open spec fn started(self, element: ElementView) -> Result<MetadataProgress, ErrorView> {
        let stack = self.stack.push(element.name);
        if self.stack.len() == 0 && element.name == "DBLMetadata"@ {
            match xml::optional_value(element, "id"@) {
                Err(error) => Err(error),
                Ok(id) => match xml::optional_value(element, "revision"@) {
                    Err(error) => Err(error),
                    Ok(revision) => Ok(
                        MetadataProgress {
                            metadata: MetadataView {
                                id,
                                revision: revision_of(revision),
                                ..self.metadata
                            },
                            stack,
                            ..self
                        },
                    ),
                },
            }
        } else if element.name == "name"@ && self.stack.len() > 0 && self.stack.last()
            == "names"@ {
            match xml::optional_value(element, "id"@) {
                Err(error) => Err(error),
                Ok(id) => Ok(MetadataProgress { stack, current_book: book_of(id), ..self }),
            }
        } else {
            Ok(MetadataProgress { stack, ..self })
        }
    }

    /// After an element without content.
    pub open spec fn met(self, element: ElementView) -> Result<MetadataProgress, ErrorView> {
        match resource_of(element, self.stack) {
            Err(error) => Err(error),
            Ok(None) => Ok(self),
            Ok(Some(uri)) => Ok(
                MetadataProgress { metadata: with_resource(self.metadata, uri), ..self },
            ),
        }
    }

    /// After a text.
    pub open spec fn texted(self, value: Seq<char>) -> MetadataProgress {
        MetadataProgress {
            metadata: with_text(self.metadata, self.stack, value, self.current_book),
            ..self
        }
    }

    /// After a closing tag. That of a book's `name` element ends the reading of its names.
    pub open spec fn ended(self, name: Seq<char>) -> MetadataProgress {
        let parent = if self.stack.len() < 2 {
            0
        } else {
            self.stack.len() - 2
        };
        MetadataProgress {
            stack: if self.stack.len() == 0 {
                self.stack
            } else {
                self.stack.drop_last()
            },
            current_book: if name == "name"@ && self.stack.len() > 0 && self.stack[parent]
                == "names"@ {
                None
            } else {
                self.current_book
            },
            ..self
        }
    }

    /// After an event.
    pub open spec fn step(self, event: EventView) -> Result<MetadataProgress, ErrorView> {
        match event {
            EventView::Start(element) => self.started(element),
            EventView::Empty(element) => self.met(element),
            EventView::Text(content) => match content {
                Ok(value) => Ok(self.texted(value)),
                Err(error) => Err(ErrorView::XmlEncoding(error)),
            },
            EventView::Reference(content) => match content {
                Err(error) => Err(ErrorView::XmlEncoding(error)),
                Ok(reference) => match xml::resolved(reference) {
                    Ok(value) => Ok(self.texted(value)),
                    Err(error) => Err(ErrorView::XmlEscape(error)),
                },
            },
            EventView::End(name) => Ok(self.ended(name)),
            EventView::CData(_) | EventView::Eof | EventView::Other => Ok(self),
        }
    }

    /// The metadata of the document, where `events` are still to come.
    pub open spec fn run(self, events: Seq<Result<EventView, quick_xml::Error>>) -> Result<
        MetadataView,
        ErrorView,
    >
        decreases events.len(),
    {
        if events.len() == 0 {
            Ok(trimmed_metadata(self.metadata))
        } else {
            match events[0] {
                Err(error) => Err(ErrorView::Xml(error)),
                Ok(event) => match self.step(event) {
                    Err(error) => Err(error),
                    Ok(next) => if event is Eof {
                        Ok(trimmed_metadata(next.metadata))
                    } else {
                        next.run(events.skip(1))
                    },
                },
            }
        }
    }
}

/// The metadata of a document.
pub open spec fn document_metadata(source: Seq<u8>) -> Result<MetadataView, ErrorView> {
    at_start().run(xml::document_events(source))
}

/// Collects metadata from the events of its document.
pub struct MetadataParser {
    metadata: Metadata,
    stack: Vec<String>,
    current_book: Option<String>,
}

impl View for MetadataParser {
    type V = MetadataProgress;

    closed spec fn view(&self) -> MetadataProgress {
        MetadataProgress {
            metadata: self.metadata@,
            stack: text::views(self.stack@),
            current_book: text::optional(self.current_book),
        }
    }
}

fn last_is(stack: &Vec<String>, name: &str) -> (b: bool)
    ensures
        b == (stack@.len() > 0 && text::views(stack@).last() == name@),
{
    if stack.len() == 0 {
        false
    } else {
        text::same(stack[stack.len() - 1].as_str(), name)
    }
}

impl MetadataParser {
    /// Whether each book code has one entry.
    pub closed spec fn well_formed(self) -> bool {
        self.metadata.well_formed()
    }

    /// A parser at the start of a metadata document.
    pub fn new() -> (parser: Self)
        ensures
            parser.well_formed(),
            parser@ == at_start(),
    {
        let parser = MetadataParser {
            metadata: Metadata::empty(),
            stack: Vec::new(),
            current_book: None,
        };
        assert(parser@.stack =~= seq![]);
        parser
    }

    fn start_element(self, element: XmlElement) -> (next: Result<Self, Error>)
        requires
            self.well_formed(),
        ensures
            crate::error::outcome(next) == self@.started(element@),
            next is Ok ==> next->Ok_0.well_formed(),
    {
        let mut parser = self;
        if parser.stack.len() == 0 && text::same(element.name.as_str(), "DBLMetadata") {
            let id = match xml::attribute(&element, "id") {
                Ok(id) => id,
                Err(error) => return Err(Error::Xml(error)),
            };
            let revision = match xml::attribute(&element, "revision") {
                Ok(Some(value)) => text::parse_u32(value.as_str()),
                Ok(None) => None,
                Err(error) => return Err(Error::Xml(error)),
            };
            parser.metadata.id = id;
            parser.metadata.revision = revision;
        } else if text::same(element.name.as_str(), "name") && last_is(&parser.stack, "names") {
            let id = match xml::attribute(&element, "id") {
                Ok(id) => id,
                Err(error) => return Err(Error::Xml(error)),
            };
            parser.current_book = match id {
                Some(id) => match text::strip_prefix(id.as_str(), "book-") {
                    Some(code) => Some(text::to_ascii_uppercase(code.as_str())),
                    None => None,
                },
                None => None,
            };
        }
        parser.stack.push(element.name);
        assert(parser@.stack =~= self@.stack.push(element@.name));
        Ok(parser)
    }

    fn record_empty_element(self, element: &XmlElement) -> (next: Result<Self, Error>)
        requires
            self.well_formed(),
        ensures
            crate::error::outcome(next) == self@.met(element@),
            next is Ok ==> next->Ok_0.well_formed(),
    {
        let mut parser = self;
        let found = if text::same(element.name.as_str(), "resource") && last_is(
            &parser.stack,
            "manifest",
        ) {
            xml::attribute(element, "uri")
        } else if text::same(element.name.as_str(), "content") {
            xml::attribute(element, "src")
        } else {
            Ok(None)
        };
        match found {
            Ok(Some(uri)) => {
                parser.metadata.record_resource(uri);
                Ok(parser)
            },
            Ok(None) => Ok(parser),
            Err(error) => Err(Error::Xml(error)),
        }
    }

    fn end_element(&mut self, name: &str)
        requires
            old(self).well_formed(),
        ensures
            final(self).well_formed(),
            final(self)@ == old(self)@.ended(name@),
    {
        if self.stack.len() > 0 && text::same(name, "name") {
            let parent: usize = if self.stack.len() < 2 {
                0
            } else {
                self.stack.len() - 2
            };
            assert(self@.stack[parent as int] == self.stack@[parent as int]@);
            if text::same(self.stack[parent].as_str(), "names") {
                self.current_book = None;
            }
        }
        let _ = self.stack.pop();
        assert(self@.stack =~= old(self)@.ended(name@).stack);
    }

    /// Takes the next event of the document.
    pub fn event(self, event: XmlEvent) -> (next: Result<Self, Error>)
        requires
            self.well_formed(),
        ensures
            crate::error::outcome(next) == self@.step(event@),
            next is Ok ==> next->Ok_0.well_formed(),
    {
        let mut parser = self;
        match event {
            XmlEvent::Start(element) => parser.start_element(element),
            XmlEvent::Empty(element) => parser.record_empty_element(&element),
            XmlEvent::Text(content) => {
                match content {
                    Ok(value) => parser.metadata.record_text(
                        &parser.stack,
                        value.as_str(),
                        &parser.current_book,
                    ),
                    Err(error) => return Err(Error::XmlEncoding(error)),
                }
                Ok(parser)
            },
            XmlEvent::Reference(content) => {
                let reference = match content {
                    Ok(reference) => reference,
                    Err(error) => return Err(Error::XmlEncoding(error)),
                };
                match xml::resolve_reference(reference.as_str()) {
                    Ok(value) => parser.metadata.record_text(
                        &parser.stack,
                        value.as_str(),
                        &parser.current_book,
                    ),
                    Err(error) => return Err(Error::XmlEscape(error)),
                }
                Ok(parser)
            },
            XmlEvent::End(name) => {
                parser.end_element(name.as_str());
                Ok(parser)
            },
            XmlEvent::CData(_) | XmlEvent::Eof | XmlEvent::Other => Ok(parser),
        }
    }

    /// The metadata, after the end of the document.
    pub fn finish(self) -> (metadata: Metadata)
        requires
            self.well_formed(),
        ensures
            metadata.well_formed(),
            metadata@ == trimmed_metadata(self@.metadata),
    {
        let mut metadata = self.metadata;
        metadata.trim_metadata();
        metadata
    }
}

/// Parses the metadata document of a bundle.
pub fn parse_metadata(source: &[u8]) -> (metadata: Result<Metadata, Error>)
    ensures
        crate::error::outcome(metadata) == document_metadata(source@),
        metadata is Ok ==> metadata->Ok_0.well_formed(),
        xml::is_whole(xml::document_events(source@)),
{
    let mut reader = xml::open_document(source);
    let mut parser = MetadataParser::new();
    loop
        invariant
            parser@.run(xml::pending_events(&reader)) == document_metadata(source@),
            xml::is_whole(xml::document_events(source@)),
            parser.well_formed(),
            xml::pending_events(&reader).len() > 0,
        decreases xml::pending_events(&reader).len(),
    {
        let event = match xml::next_event(&mut reader) {
            Ok(event) => event,
            Err(error) => return Err(Error::Xml(error)),
        };
        let at_end = match &event {
            XmlEvent::Eof => true,
            _ => false,
        };
        parser = match parser.event(event) {
            Ok(next) => next,
            Err(error) => return Err(error),
        };
        if at_end {
            return Ok(parser.finish());
        }
    }
}

/// The value of a field that must be present.
pub open spec fn required_field(value: Option<Seq<char>>, field: Seq<char>) -> Result<
    Seq<char>,
    ErrorView,
> {
    match value {
        Some(value) => Ok(value),
        None => Err(ErrorView::MissingField(field)),
    }
}

/// Takes the value of a field that must be present.
pub fn required(value: Option<String>, field: &'static str) -> (found: Result<String, Error>)
    ensures
        crate::error::outcome(found) == required_field(text::optional(value), field@),
{
    match value {
        Some(value) => Ok(value),
        None => Err(Error::MissingField(field)),
    }
}

// What holds of all metadata.

/// Whether the listed resources are distinct USX documents, and book codes are in upper
/// case.
pub open spec fn is_consistent(metadata: MetadataView) -> bool {
    &&& metadata.usx_resources.no_duplicates()
    &&& forall|i: int|
        0 <= i < metadata.usx_resources.len() ==> is_usx_resource(
            #[trigger] metadata.usx_resources[i],
        )
    &&& forall|code: Seq<char>| #[trigger]
        metadata.book_names.dom().contains(code) ==> is_upper_case(code)
}

/// Whether a text holds no ASCII lower-case letter.
pub open spec fn is_upper_case(s: Seq<char>) -> bool {
    s.map_values(|c: char| text::ascii_upper(c)) == s
}

spec fn keeps_consistency(progress: MetadataProgress) -> bool {
    is_consistent(progress.metadata) && (progress.current_book is Some ==> is_upper_case(
        progress.current_book->0,
    ))
}

proof fn lemma_upper_case(s: Seq<char>)
    ensures
        is_upper_case(s.map_values(|c: char| text::ascii_upper(c))),
{
    let upper = s.map_values(|c: char| text::ascii_upper(c));
    assert forall|i: int| 0 <= i < upper.len() implies text::ascii_upper(#[trigger] upper[i])
        == upper[i] by {
        assert(upper[i] == text::ascii_upper(s[i]));
    }
    assert(upper.map_values(|c: char| text::ascii_upper(c)) =~= upper);
}

proof fn lemma_step_keeps_consistency(progress: MetadataProgress, event: EventView)
    requires
        keeps_consistency(progress),
        progress.step(event) is Ok,
    ensures
        keeps_consistency(progress.step(event)->Ok_0),
{
    match event {
        EventView::Start(element) => {
            match xml::optional_value(element, "id"@) {
                Ok(Some(id)) => {
                    lemma_upper_case(id.skip("book-"@.len() as int));
                },
                _ => {},
            }
        },
        EventView::Empty(element) => {
            match resource_of(element, progress.stack) {
                Ok(Some(uri)) => {
                    let before = progress.metadata.usx_resources;
                    if is_usx_resource(uri) && !before.contains(uri) {
                        let after = before.push(uri);
                        assert forall|i: int, j: int|
                            0 <= i < after.len() && 0 <= j < after.len() && i
                                != j implies after[i] != after[j] by {
                            if i < before.len() {
                                assert(before.contains(before[i]));
                            }
                            if j < before.len() {
                                assert(before.contains(before[j]));
                            }
                        }
                    }
                },
                _ => {},
            }
        },
        _ => {},
    }
}

proof fn lemma_run_is_consistent(
    progress: MetadataProgress,
    events: Seq<Result<EventView, quick_xml::Error>>,
)
    requires
        keeps_consistency(progress),
        progress.run(events) is Ok,
    ensures
        is_consistent(progress.run(events)->Ok_0),
    decreases events.len(),
{
    if events.len() > 0 {
        let event = events[0]->Ok_0;
        lemma_step_keeps_consistency(progress, event);
        if event !is Eof {
            lemma_run_is_consistent(progress.step(event)->Ok_0, events.skip(1));
        }
    }
}

/// The resources that a metadata document lists are USX documents of the release, each
/// listed once, and the codes of the books that it names are in upper case.
pub proof fn law_metadata_is_consistent(source: Seq<u8>)
    requires
        document_metadata(source) is Ok,
    ensures
        is_consistent(document_metadata(source)->Ok_0),
{
    lemma_run_is_consistent(at_start(), xml::document_events(source));
}

/// Resources keep the order in which they are first listed.
pub proof fn law_resources_keep_their_order(metadata: MetadataView, uri: Seq<char>)
    ensures
        metadata.usx_resources.is_prefix_of(with_resource(metadata, uri).usx_resources),
        is_usx_resource(uri) ==> with_resource(metadata, uri).usx_resources.contains(uri),
        with_resource(with_resource(metadata, uri), uri) == with_resource(metadata, uri),
{
    let before = metadata.usx_resources;
    let after = with_resource(metadata, uri).usx_resources;
    assert(before =~= after.subrange(0, before.len() as int));
    if is_usx_resource(uri) && !before.contains(uri) {
        assert(after[before.len() as int] == uri);
    }
}

proof fn lemma_trimmed_optional_twice(value: Option<Seq<char>>)
    ensures
        trimmed_optional(trimmed_optional(value)) == trimmed_optional(value),
{
    match value {
        Some(value) => text::law_trimming_twice(value),
        None => {},
    }
}

/// Trimming metadata twice changes no more than trimming it once.
pub proof fn law_trimming_twice(metadata: MetadataView)
    ensures
        trimmed_metadata(trimmed_metadata(metadata)) == trimmed_metadata(metadata),
{
    lemma_trimmed_optional_twice(metadata.id);
    lemma_trimmed_optional_twice(metadata.name);
    lemma_trimmed_optional_twice(metadata.local_name);
    lemma_trimmed_optional_twice(metadata.abbreviation);
    lemma_trimmed_optional_twice(metadata.local_abbreviation);
    lemma_trimmed_optional_twice(metadata.scope);
    lemma_trimmed_optional_twice(metadata.language_iso);
    lemma_trimmed_optional_twice(metadata.ldml);
    let once = trimmed_metadata(metadata).book_names;
    let twice = trimmed_metadata(trimmed_metadata(metadata)).book_names;
    assert forall|code: Seq<char>| once.dom().contains(code) implies once[code] == twice[code] by {
        let names = metadata.book_names[code];
        lemma_trimmed_optional_twice(names.abbreviation);
        lemma_trimmed_optional_twice(names.short);
        lemma_trimmed_optional_twice(names.long);
    }
    assert(once =~= twice);
}

proof fn lemma_run_is_trimmed(
    progress: MetadataProgress,
    events: Seq<Result<EventView, quick_xml::Error>>,
)
    requires
        progress.run(events) is Ok,
    ensures
        trimmed_metadata(progress.run(events)->Ok_0) == progress.run(events)->Ok_0,
    decreases events.len(),
{
    law_trimming_twice(progress.metadata);
    if events.len() > 0 {
        let event = events[0]->Ok_0;
        let next = progress.step(event)->Ok_0;
        law_trimming_twice(next.metadata);
        if event !is Eof {
            lemma_run_is_trimmed(next, events.skip(1));
        }
    }
}

/// The texts of metadata have no white space at their ends.
pub proof fn law_metadata_is_trimmed(source: Seq<u8>)
    requires
        document_metadata(source) is Ok,
    ensures
        trimmed_metadata(document_metadata(source)->Ok_0) == document_metadata(source)->Ok_0,
{
    lemma_run_is_trimmed(at_start(), xml::document_events(source));
}

/// The view of metadata is its own, part for part. The names of a book are those of the entry
/// with its code.
pub proof fn law_views(metadata: Metadata, i: int)
    requires
        metadata.well_formed(),
    ensures
        metadata.id is Some <==> metadata@.id is Some,
        metadata.id is Some ==> metadata@.id->0 == metadata.id->0@,
        metadata.name is Some <==> metadata@.name is Some,
        metadata.name is Some ==> metadata@.name->0 == metadata.name->0@,
        metadata.local_name is Some <==> metadata@.local_name is Some,
        metadata.local_name is Some ==> metadata@.local_name->0 == metadata.local_name->0@,
        metadata.abbreviation is Some <==> metadata@.abbreviation is Some,
        metadata.abbreviation is Some ==> metadata@.abbreviation->0 == metadata.abbreviation->0@,
        metadata.local_abbreviation is Some <==> metadata@.local_abbreviation is Some,
        metadata.local_abbreviation is Some ==> metadata@.local_abbreviation->0 == metadata.local_abbreviation->0@,
        metadata.scope is Some <==> metadata@.scope is Some,
        metadata.scope is Some ==> metadata@.scope->0 == metadata.scope->0@,
        metadata.language_iso is Some <==> metadata@.language_iso is Some,
        metadata.language_iso is Some ==> metadata@.language_iso->0 == metadata.language_iso->0@,
        metadata.ldml is Some <==> metadata@.ldml is Some,
        metadata.ldml is Some ==> metadata@.ldml->0 == metadata.ldml->0@,
        metadata@.revision == metadata.revision,
        metadata@.script_direction == metadata.script_direction,
        metadata@.usx_resources.len() == metadata.usx_resources@.len(),
        0 <= i < metadata.usx_resources@.len() ==> metadata@.usx_resources[i]
            == metadata.usx_resources@[i]@,
        0 <= i < metadata.book_names@.len() ==> metadata@.book_names.dom().contains(
            metadata.book_names@[i].code@,
        ) && metadata@.book_names[metadata.book_names@[i].code@] == metadata.book_names@[i].names@,
        forall|code: Seq<char>|
            #[trigger] metadata@.book_names.dom().contains(code) ==> exists|k: int|
                0 <= k < metadata.book_names@.len() && (
                #[trigger] metadata.book_names@[k]).code@ == code,
{
    if 0 <= i < metadata.book_names@.len() {
        lemma_entry(metadata.book_names@, i);
    }
    assert forall|code: Seq<char>|
        #[trigger] metadata@.book_names.dom().contains(code) implies exists|k: int|
        0 <= k < metadata.book_names@.len() && (#[trigger] metadata.book_names@[k]).code@
            == code by {
        assert(lists_code(metadata.book_names@, code));
    }
}

} // verus!
