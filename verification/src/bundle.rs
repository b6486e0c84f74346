//! DBL bundles and their books.

use std::path::PathBuf;

use icu_locale::Locale;
use vstd::prelude::*;

use crate::error::{Error, ErrorView};
use crate::locale;
use crate::metadata::{self, Metadata, MetadataView};
use crate::passage::{
    Passage, PassageRequest, PassageView, RequestView, Verse, VerseView,
};
use crate::text;
use crate::usx;

verus! {

/// Display names declared for a book in DBL metadata.
#[derive(Debug, Eq, PartialEq)]
pub struct BookNames {
    /// Short abbreviation, such as `Gen`.
    pub abbreviation: Option<String>,
    /// Short display name, such as `Genesis`.
    pub short: Option<String>,
    /// Long display name, when the bundle supplies one.
    pub long: Option<String>,
}

/// The view of a [`BookNames`].
pub struct NamesView {
    pub abbreviation: Option<Seq<char>>,
    pub short: Option<Seq<char>>,
    pub long: Option<Seq<char>>,
}

impl View for BookNames {
    type V = NamesView;

    open spec fn view(&self) -> NamesView {
        NamesView {
            abbreviation: text::optional(self.abbreviation),
            short: text::optional(self.short),
            long: text::optional(self.long),
        }
    }
}

/// The names of a book for which none are declared.
pub open spec fn no_names() -> NamesView {
    NamesView { abbreviation: None, short: None, long: None }
}

impl Clone for BookNames {
    fn clone(&self) -> (copy: Self)
        ensures
            copy@ == self@,
    {
        BookNames {
            abbreviation: text::copy_optional(&self.abbreviation),
            short: text::copy_optional(&self.short),
            long: text::copy_optional(&self.long),
        }
    }
}

impl Default for BookNames {
    fn default() -> (names: Self)
        ensures
            names@ == no_names(),
    {
        BookNames { abbreviation: None, short: None, long: None }
    }
}

/// Writing direction for scripture text.
#[derive(Clone, Copy, Debug, Eq, PartialEq)]
pub enum ScriptDirection {
    /// Text runs from left to right.
    LeftToRight,
    /// Text runs from right to left.
    RightToLeft,
}

impl Default for ScriptDirection {
    fn default() -> (direction: Self)
        ensures
            direction == ScriptDirection::LeftToRight,
    {
        ScriptDirection::LeftToRight
    }
}

/// One USX book declared by a DBL bundle.
#[derive(Debug)]
pub struct Book {
    /// Three-character USX book code, such as `GEN`.
    pub code: String,
    /// Names and abbreviation declared for the book.
    pub names: BookNames,
    path: PathBuf,
}

/// The view of a [`Book`].
pub struct BookView {
    pub code: Seq<char>,
    pub names: NamesView,
    pub path: PathBuf,
}

impl View for Book {
    type V = BookView;

    closed spec fn view(&self) -> BookView {
        BookView { code: self.code@, names: self.names@, path: self.path }
    }
}

/// Whether an optional name is `name`, without regard to ASCII case.
pub open spec fn is_called(candidate: Option<Seq<char>>, name: Seq<char>) -> bool {
    match candidate {
        Some(candidate) => text::equal_ignoring_case(candidate, name),
        None => false,
    }
}

impl BookView {
    /// Whether `name` is the code, the abbreviation, the short name or the long name of the
    /// book, without regard to ASCII case.
    pub open spec fn answers_to(self, name: Seq<char>) -> bool {
        ||| text::equal_ignoring_case(self.code, name)
        ||| is_called(self.names.abbreviation, name)
        ||| is_called(self.names.short, name)
        ||| is_called(self.names.long, name)
    }

    /// Whether `code` is the code of the book, without regard to ASCII case.
    pub open spec fn has_code(self, code: Seq<char>) -> bool {
        text::equal_ignoring_case(self.code, code)
    }

    /// The passage that a request selects from a USX document of this book.
    pub open spec fn passage(self, request: RequestView, document: Seq<u8>) -> Result<
        PassageView,
        ErrorView,
    > {
        match usx::document_verses(document, self.code) {
            Err(error) => Err(error),
            Ok(verses) => {
                let selected = crate::passage::selected(verses, request.range);
                if selected.len() == 0 {
                    Err(ErrorView::PassageNotFound(request))
                } else {
                    Ok(PassageView { request, verses: selected })
                }
            },
        }
    }
}

fn matches_optional(candidate: &Option<String>, name: &str) -> (matches: bool)
    ensures
        matches == is_called(text::optional(*candidate), name@),
{
    match candidate {
        Some(candidate) => text::eq_ignore_ascii_case(candidate.as_str(), name),
        None => false,
    }
}

impl Book {
    /// Returns the path to the book's USX file.
    pub fn path(&self) -> (path: &PathBuf)
        ensures
            *path == self@.path,
    {
        &self.path
    }

    /// Parses the book's verses in document order, where `document` is its USX document.
    ///
    /// USX 3 `eid` milestones are honored when present. A following verse,
    /// chapter boundary, or end of file also closes the current verse, which
    /// supports documents with omitted verse-ending milestones.
    pub fn verses(&self, document: &[u8]) -> (verses: Result<Vec<Verse>, Error>)
        ensures
            usx::verses_outcome(verses) == usx::document_verses(document@, self@.code),
            verses matches Ok(verses) ==> usx::textless(crate::passage::verse_views(verses@))
                == usx::document_starts(document@, self@.code),
            verses matches Ok(verses) ==> crate::passage::verse_views(verses@)
                == crate::scripture::document_scripture(document@, self@.code),
    {
        usx::verses(document, self.code.as_str())
    }

    /// Whether a request for `name` means this book.
    pub fn matches_name(&self, name: &str) -> (matches: bool)
        ensures
            matches == self@.answers_to(name@),
    {
        text::eq_ignore_ascii_case(self.code.as_str(), name) || matches_optional(
            &self.names.abbreviation,
            name,
        ) || matches_optional(&self.names.short, name) || matches_optional(&self.names.long, name)
    }

    /// Selects a passage from the book's USX document.
    pub fn request_passage(&self, request: &PassageRequest, document: &[u8]) -> (passage: Result<
        Passage,
        Error,
    >)
        ensures
            crate::error::outcome(passage) == self@.passage(request@, document@),
    {
        let verses = match self.verses(document) {
            Ok(verses) => verses,
            Err(error) => return Err(error),
        };
        match Passage::select(request, verses) {
            Some(passage) => Ok(passage),
            None => Err(Error::PassageNotFound(request.clone())),
        }
    }
}

/// The views of a sequence of books.
pub open spec fn book_views(books: Seq<Book>) -> Seq<BookView> {
    books.map_values(|book: Book| book@)
}

/// Metadata and available books for one unpacked DBL bundle.
#[derive(Debug)]
pub struct DblBundle {
    root: PathBuf,
    /// Unique DBL bundle identifier from `DBLMetadata/@id`.
    pub id: String,
    /// Optional DBL metadata revision number.
    pub revision: Option<u32>,
    /// Non-localized bundle name.
    pub name: String,
    /// Localized bundle name, when supplied by the metadata.
    pub local_name: Option<String>,
    /// Preferred display abbreviation (`abbreviationLocal` when available).
    pub abbreviation: String,
    /// The non-localized `abbreviation` value from DBL metadata.
    pub metadata_abbreviation: String,
    /// Localized `abbreviationLocal` value from DBL metadata, when present.
    pub local_abbreviation: Option<String>,
    /// Canonical scope declaration from DBL metadata, when present.
    pub scope: Option<String>,
    /// Canonicalized locale parsed from the metadata's LDML or ISO identifier.
    pub locale: Locale,
    /// Writing direction declared for the bundle's language.
    pub script_direction: ScriptDirection,
    books: Vec<Book>,
}

/// The view of a [`DblBundle`].
pub struct BundleView {
    pub root: PathBuf,
    pub id: Seq<char>,
    pub revision: Option<u32>,
    pub name: Seq<char>,
    pub local_name: Option<Seq<char>>,
    pub abbreviation: Seq<char>,
    pub metadata_abbreviation: Seq<char>,
    pub local_abbreviation: Option<Seq<char>>,
    pub scope: Option<Seq<char>>,
    pub locale: Locale,
    pub script_direction: ScriptDirection,
    pub books: Seq<BookView>,
}

impl View for DblBundle {
    type V = BundleView;

    closed spec fn view(&self) -> BundleView {
        BundleView {
            root: self.root,
            id: self.id@,
            revision: self.revision,
            name: self.name@,
            local_name: text::optional(self.local_name),
            abbreviation: self.abbreviation@,
            metadata_abbreviation: self.metadata_abbreviation@,
            local_abbreviation: text::optional(self.local_abbreviation),
            scope: text::optional(self.scope),
            locale: self.locale,
            script_direction: self.script_direction,
            books: book_views(self.books@),
        }
    }
}

/// The first book of that code, without regard to ASCII case.
pub open spec fn first_of_code(books: Seq<BookView>, code: Seq<char>) -> Option<BookView>
    decreases books.len(),
{
    if books.len() == 0 {
        None
    } else if books[0].has_code(code) {
        Some(books[0])
    } else {
        first_of_code(books.skip(1), code)
    }
}

/// The first book that answers to a name.
pub open spec fn first_called(books: Seq<BookView>, name: Seq<char>) -> Option<BookView>
    decreases books.len(),
{
    if books.len() == 0 {
        None
    } else if books[0].answers_to(name) {
        Some(books[0])
    } else {
        first_called(books.skip(1), name)
    }
}

/// The view of a book that was looked up.
pub open spec fn found_book(book: Option<&Book>) -> Option<BookView> {
    match book {
        Some(book) => Some(book@),
        None => None,
    }
}

impl BundleView {
    /// Whether `abbreviation` is the preferred or the non-localized abbreviation of the
    /// bundle, without regard to ASCII case.
    pub open spec fn answers_to(self, abbreviation: Seq<char>) -> bool {
        ||| text::equal_ignoring_case(self.abbreviation, abbreviation)
        ||| text::equal_ignoring_case(self.metadata_abbreviation, abbreviation)
    }

    /// The book that a request means.
    pub open spec fn requested_book(self, request: RequestView) -> Result<BookView, ErrorView> {
        match first_called(self.books, request.book) {
            Some(book) => Ok(book),
            None => Err(ErrorView::BookNotFound(request.book)),
        }
    }

    /// The passage that a request selects, where `document` is the USX document of the book
    /// that it means.
    pub open spec fn passage(self, request: RequestView, document: Seq<u8>) -> Result<
        PassageView,
        ErrorView,
    > {
        match self.requested_book(request) {
            Ok(book) => book.passage(request, document),
            Err(error) => Err(error),
        }
    }
}

impl DblBundle {
    /// Opens an unpacked DBL bundle rooted at `root`, where `metadata` is the content of its
    /// metadata file, if there is one.
    ///
    /// Metadata is read immediately, but the USX documents of books are parsed only when
    /// their contents are requested. The [`BundleDraft`] asks for each document that the
    /// metadata lists, and reads no more of it than its header.
    pub fn open(root: &PathBuf, metadata: Option<&[u8]>) -> (draft: Result<BundleDraft, Error>)
        ensures
            crate::error::outcome(draft) == opened(
                *root,
                match metadata {
                    Some(metadata) => Some(metadata@),
                    None => None,
                },
            ),
    {
        let source = match metadata {
            Some(source) => source,
            None => return Err(Error::MissingMetadata(root.clone())),
        };
        match metadata::parse_metadata(source) {
            Ok(metadata) => BundleDraft::new(root.clone(), metadata),
            Err(error) => Err(error),
        }
    }

    /// Returns the bundle's root directory.
    pub fn root(&self) -> (root: &PathBuf)
        ensures
            *root == self@.root,
    {
        &self.root
    }

    /// Returns the books declared by the bundle's USX publication resources.
    pub fn books(&self) -> (books: &[Book])
        ensures
            book_views(books@) == self@.books,
    {
        self.books.as_slice()
    }

    /// Whether `abbreviation` is the bundle's preferred or non-localized abbreviation.
    pub(crate) fn is_abbreviated(&self, abbreviation: &str) -> (found: bool)
        ensures
            found == self@.answers_to(abbreviation@),
    {
        text::eq_ignore_ascii_case(self.abbreviation.as_str(), abbreviation)
            || text::eq_ignore_ascii_case(self.metadata_abbreviation.as_str(), abbreviation)
    }

    /// Finds a book by its three-character USX code.
    ///
    /// Matching is ASCII case-insensitive.
    pub fn book(&self, code: &str) -> (book: Option<&Book>)
        ensures
            found_book(book) == first_of_code(self@.books, code@),
    {
        let ghost views = self@.books;
        let mut i: usize = 0;
        assert(views.skip(0) =~= views);
        while i < self.books.len()
            invariant
                i <= self.books@.len(),
                views == book_views(self.books@),
                first_of_code(views, code@) == first_of_code(views.skip(i as int), code@),
            decreases self.books@.len() - i,
        {
            assert(views.skip(i as int)[0] == self.books@[i as int]@);
            assert(views.skip(i as int).skip(1) =~= views.skip(i + 1));
            if text::eq_ignore_ascii_case(self.books[i].code.as_str(), code) {
                return Some(&self.books[i]);
            }
            i += 1;
        }
        None
    }

    /// Finds the book that a request means.
    ///
    /// The request's book can be a USX code or any book abbreviation, short
    /// name, or long name declared by this bundle.
    pub fn requested_book(&self, request: &PassageRequest) -> (book: Result<&Book, Error>)
        ensures
            book is Ok ==> Ok::<BookView, ErrorView>(book->Ok_0@) == self@.requested_book(request@),
            book is Err ==> Err::<BookView, ErrorView>(book->Err_0@) == self@.requested_book(
                request@,
            ),
    {
        let name = request.book();
        let ghost views = self@.books;
        let mut i: usize = 0;
        assert(views.skip(0) =~= views);
        while i < self.books.len()
            invariant
                i <= self.books@.len(),
                views == book_views(self.books@),
                first_called(views, name@) == first_called(views.skip(i as int), name@),
                views == self@.books,
                name@ == request@.book,
            decreases self.books@.len() - i,
        {
            assert(views.skip(i as int)[0] == self.books@[i as int]@);
            assert(views.skip(i as int).skip(1) =~= views.skip(i + 1));
            if self.books[i].matches_name(name) {
                return Ok(&self.books[i]);
            }
            i += 1;
        }
        Err(Error::BookNotFound(name.to_owned()))
    }

    /// Resolves a structured passage request against this bundle, where `document` is the
    /// USX document of the book that the request means.
    ///
    /// The request's book can be a USX code or any book abbreviation, short
    /// name, or long name declared by this bundle.
    pub fn passage(&self, request: &PassageRequest, document: &[u8]) -> (passage: Result<
        Passage,
        Error,
    >)
        ensures
            crate::error::outcome(passage) == self@.passage(request@, document@),
    {
        match self.requested_book(request) {
            Ok(book) => book.request_passage(request, document),
            Err(error) => Err(error),
        }
    }
}

/// A bundle whose books are still to be read.
///
/// Its metadata lists the USX documents of its books. Each is given to
/// [`BundleDraft::add_book`] in turn; [`BundleDraft::finish`] then makes the bundle.
#[derive(Debug)]
pub struct BundleDraft {
    root: PathBuf,
    metadata: Metadata,
    locale: Locale,
    metadata_abbreviation: String,
    books: Vec<Book>,
}

/// The view of a [`BundleDraft`].
pub struct DraftView {
    pub root: PathBuf,
    pub metadata: MetadataView,
    pub locale: Locale,
    pub metadata_abbreviation: Seq<char>,
    pub books: Seq<BookView>,
}

impl View for BundleDraft {
    type V = DraftView;

    closed spec fn view(&self) -> DraftView {
        DraftView {
            root: self.root,
            metadata: self.metadata@,
            locale: self.locale,
            metadata_abbreviation: self.metadata_abbreviation@,
            books: book_views(self.books@),
        }
    }
}

/// What `Path::join` returns.
pub uninterp spec fn joined_path(root: PathBuf, uri: Seq<char>) -> PathBuf;

/// `Path::join` adjoins a path to a root directory. Its result depends on the two alone;
/// how they are adjoined is the convention of the platform that paths are made for, and
/// is left unsaid.
#[verifier::external_body]
fn join_path(root: &PathBuf, uri: &str) -> (path: PathBuf)
    ensures
        path == joined_path(*root, uri@),
{
    root.join(uri)
}

/// The locale identifier of a bundle: its LDML identifier, or else its ISO identifier.
pub open spec fn locale_identifier(metadata: MetadataView) -> Result<Seq<char>, ErrorView> {
    match (metadata.ldml, metadata.language_iso) {
        (Some(ldml), _) => Ok(ldml),
        (None, Some(iso)) => Ok(iso),
        (None, None) => Err(ErrorView::MissingField("language/ldml or language/iso"@)),
    }
}

/// The draft of a bundle with that metadata, given its locale.
pub open spec fn drafted_with(root: PathBuf, metadata: MetadataView, locale: Locale) -> Result<
    DraftView,
    ErrorView,
> {
    match metadata::required_field(metadata.abbreviation, "identification/abbreviation"@) {
        Err(error) => Err(error),
        Ok(metadata_abbreviation) => Ok(
            DraftView { root, metadata, locale, metadata_abbreviation, books: seq![] },
        ),
    }
}

/// The draft of a bundle with that metadata.
pub open spec fn drafted(root: PathBuf, metadata: MetadataView) -> Result<DraftView, ErrorView> {
    match locale_identifier(metadata) {
        Err(error) => Err(error),
        Ok(identifier) => match locale::locale_of(identifier, locale::parsed_locale(identifier)) {
            Err(error) => Err(error),
            Ok(locale) => drafted_with(root, metadata, locale),
        },
    }
}

/// The draft of a bundle with that content of its metadata file, if there is one.
pub open spec fn opened(root: PathBuf, metadata: Option<Seq<u8>>) -> Result<DraftView, ErrorView> {
    match metadata {
        None => Err(ErrorView::MissingMetadata(root)),
        Some(source) => match metadata::document_metadata(source) {
            Ok(metadata) => drafted(root, metadata),
            Err(error) => Err(error),
        },
    }
}

impl DraftView {
    /// The USX document that is to be read next.
    pub open spec fn next_resource(self) -> Option<Seq<char>> {
        if self.books.len() < self.metadata.usx_resources.len() {
            Some(self.metadata.usx_resources[self.books.len() as int])
        } else {
            None
        }
    }

    /// The path to the USX document that is to be read next: the root directory joined with
    /// the next resource.
    pub open spec fn next_path(self) -> PathBuf {
        joined_path(self.root, self.metadata.usx_resources[self.books.len() as int])
    }

    /// The names that the metadata declares for a book code.
    pub open spec fn names_of(self, code: Seq<char>) -> NamesView {
        if self.metadata.book_names.dom().contains(code) {
            self.metadata.book_names[code]
        } else {
            no_names()
        }
    }

    /// With the book of the next USX document added, which has that code.
    pub open spec fn with_book(self, code: Seq<char>) -> DraftView {
        DraftView {
            books: self.books.push(
                BookView { code, names: self.names_of(code), path: self.next_path() },
            ),
            ..self
        }
    }

    /// With the book of the next USX document added.
    pub open spec fn with_document(self, document: Seq<u8>) -> Result<DraftView, ErrorView> {
        match usx::document_code(document) {
            Ok(code) => Ok(self.with_book(code)),
            Err(error) => Err(error),
        }
    }

    /// The bundle, once all its books are added.
    pub open spec fn bundle(self) -> Result<BundleView, ErrorView> {
        match metadata::required_field(self.metadata.id, "DBLMetadata/@id"@) {
            Err(error) => Err(error),
            Ok(id) => match metadata::required_field(self.metadata.name, "identification/name"@) {
                Err(error) => Err(error),
                Ok(name) => Ok(
                    BundleView {
                        root: self.root,
                        id,
                        revision: self.metadata.revision,
                        name,
                        local_name: self.metadata.local_name,
                        abbreviation: match self.metadata.local_abbreviation {
                            Some(local) => local,
                            None => self.metadata_abbreviation,
                        },
                        metadata_abbreviation: self.metadata_abbreviation,
                        local_abbreviation: self.metadata.local_abbreviation,
                        scope: self.metadata.scope,
                        locale: self.locale,
                        script_direction: match self.metadata.script_direction {
                            Some(direction) => direction,
                            None => ScriptDirection::LeftToRight,
                        },
                        books: self.books,
                    },
                ),
            },
        }
    }
}

/// Reads the locale identifier of a bundle.
pub fn read_identifier(metadata: &Metadata) -> (identifier: Result<&str, Error>)
    ensures
        identifier is Ok ==> locale_identifier(metadata@) == Ok::<Seq<char>, ErrorView>(
            identifier->Ok_0@,
        ),
        identifier is Err ==> locale_identifier(metadata@) == Err::<Seq<char>, ErrorView>(
            identifier->Err_0@,
        ),
{
    match (&metadata.ldml, &metadata.language_iso) {
        (Some(ldml), _) => Ok(ldml.as_str()),
        (None, Some(iso)) => Ok(iso.as_str()),
        (None, None) => Err(Error::MissingField("language/ldml or language/iso")),
    }
}

impl BundleDraft {
    #[verifier::type_invariant]
    spec fn valid(self) -> bool {
        &&& self.metadata.well_formed()
        &&& self.books@.len() <= self.metadata.usx_resources@.len()
        &&& forall|i: int| 0 <= i < self.books@.len() ==> (#[trigger] self.books@[i]).code@.len() == 3
    }

    /// The draft of a bundle with that metadata.
    pub fn new(root: PathBuf, metadata: Metadata) -> (draft: Result<Self, Error>)
        requires
            metadata.well_formed(),
        ensures
            crate::error::outcome(draft) == drafted(root, metadata@),
    {
        let identifier = match read_identifier(&metadata) {
            Ok(identifier) => identifier,
            Err(error) => return Err(error),
        };
        match locale::read_locale(identifier) {
            Ok(locale) => BundleDraft::with_locale(root, metadata, locale),
            Err(error) => Err(error),
        }
    }

    /// The draft of a bundle with that metadata, given its locale.
    pub fn with_locale(root: PathBuf, metadata: Metadata, locale: Locale) -> (draft: Result<
        Self,
        Error,
    >)
        requires
            metadata.well_formed(),
        ensures
            crate::error::outcome(draft) == drafted_with(root, metadata@, locale),
    {
        let abbreviation = text::copy_optional(&metadata.abbreviation);
        let metadata_abbreviation = match metadata::required(
            abbreviation,
            "identification/abbreviation",
        ) {
            Ok(abbreviation) => abbreviation,
            Err(error) => return Err(error),
        };
        let draft = BundleDraft {
            root,
            metadata,
            locale,
            metadata_abbreviation,
            books: Vec::new(),
        };
        assert(draft@.books =~= seq![]);
        Ok(draft)
    }

    /// The USX document that is to be read next, by its path within the bundle.
    pub fn next_resource(&self) -> (uri: Option<&str>)
        ensures
            uri is Some <==> self@.next_resource() is Some,
            uri is Some ==> uri->0@ == self@.next_resource()->0,
    {
        if self.books.len() < self.metadata.usx_resources.len() {
            let uri = self.metadata.usx_resources[self.books.len()].as_str();
            assert(self@.metadata.usx_resources[self.books@.len() as int] == uri@);
            Some(uri)
        } else {
            None
        }
    }

    /// The path to the USX document that is to be read next.
    pub fn next_path(&self) -> (path: Option<PathBuf>)
        ensures
            path is Some <==> self@.next_resource() is Some,
            path is Some ==> path->0 == self@.next_path(),
    {
        match self.next_resource() {
            Some(uri) => Some(join_path(&self.root, uri)),
            None => None,
        }
    }

    /// Adds the book of the next USX document, which has that three-character code.
    pub fn add_coded_book(self, code: String) -> (draft: Self)
        requires
            self@.next_resource() is Some,
            code@.len() == 3,
        ensures
            draft@ == self@.with_book(code@),
    {
        proof {
            use_type_invariant(&self);
        }
        let names = match self.metadata.names_of(code.as_str()) {
            Some(names) => names.clone(),
            None => BookNames::default(),
        };
        let uri = self.metadata.usx_resources[self.books.len()].as_str();
        assert(self@.metadata.usx_resources[self.books@.len() as int] == uri@);
        let path = join_path(&self.root, uri);
        let mut books = self.books;
        books.push(Book { code, names, path });
        assert(book_views(books@) =~= self@.with_book(code@).books);
        BundleDraft {
            root: self.root,
            metadata: self.metadata,
            locale: self.locale,
            metadata_abbreviation: self.metadata_abbreviation,
            books,
        }
    }

    /// Adds the book of the next USX document, whose content is `document`.
    pub fn add_book(self, document: &[u8]) -> (draft: Result<Self, Error>)
        requires
            self@.next_resource() is Some,
        ensures
            crate::error::outcome(draft) == self@.with_document(document@),
    {
        proof {
            usx::law_book_code_has_three_characters(document@);
        }
        match usx::book_code(document) {
            Ok(code) => Ok(self.add_coded_book(code)),
            Err(error) => Err(error),
        }
    }

    /// Makes the bundle, once all its books are added.
    pub fn finish(self) -> (bundle: Result<DblBundle, Error>)
        requires
            self@.next_resource() is None,
        ensures
            crate::error::outcome(bundle) == self@.bundle(),
            bundle matches Ok(bundle) ==> forall|i: int|
                0 <= i < bundle@.books.len() ==> (#[trigger] bundle@.books[i]).code.len() == 3,
    {
        proof {
            use_type_invariant(&self);
            assert forall|i: int| 0 <= i < self@.books.len() implies (
            #[trigger] self@.books[i]).code.len() == 3 by {
                assert(self@.books[i] == self.books@[i]@);
            }
        }
        let metadata = self.metadata;
        let id = match metadata::required(metadata.id, "DBLMetadata/@id") {
            Ok(id) => id,
            Err(error) => return Err(error),
        };
        let name = match metadata::required(metadata.name, "identification/name") {
            Ok(name) => name,
            Err(error) => return Err(error),
        };
        let abbreviation = match &metadata.local_abbreviation {
            Some(local) => local.clone(),
            None => self.metadata_abbreviation.clone(),
        };
        let script_direction = match metadata.script_direction {
            Some(direction) => direction,
            None => ScriptDirection::default(),
        };
        Ok(
            DblBundle {
                root: self.root,
                id,
                revision: metadata.revision,
                name,
                local_name: metadata.local_name,
                abbreviation,
                metadata_abbreviation: self.metadata_abbreviation,
                local_abbreviation: metadata.local_abbreviation,
                scope: metadata.scope,
                locale: self.locale,
                script_direction,
                books: self.books,
            },
        )
    }
}

// What holds of all bundles.

/// Books are found without regard to the ASCII case of the code or the name.
pub proof fn law_lookup_ignores_case(books: Seq<BookView>, a: Seq<char>, b: Seq<char>)
    requires
        text::equal_ignoring_case(a, b),
    ensures
        first_of_code(books, a) == first_of_code(books, b),
        first_called(books, a) == first_called(books, b),
    decreases books.len(),
{
    if books.len() > 0 {
        law_lookup_ignores_case(books.skip(1), a, b);
    }
}

/// The book that a code finds is the first that has it, without regard to ASCII case, and
/// none is found only where no book has it.
pub proof fn law_first_book_of_code_is_found(books: Seq<BookView>, code: Seq<char>)
    ensures
        first_of_code(books, code) is None <==> forall|i: int|
            0 <= i < books.len() ==> !(#[trigger] books[i]).has_code(code),
        first_of_code(books, code) is Some ==> exists|i: int|
            0 <= i < books.len() && (#[trigger] books[i]) == first_of_code(books, code)->0
                && books[i].has_code(code) && forall|j: int|
                0 <= j < i ==> !(#[trigger] books[j]).has_code(code),
    decreases books.len(),
{
    if books.len() > 0 {
        let rest = books.skip(1);
        law_first_book_of_code_is_found(rest, code);
        if books[0].has_code(code) {
            assert(books[0] == first_of_code(books, code)->0);
        } else if first_of_code(rest, code) is Some {
            let i = choose|i: int|
                0 <= i < rest.len() && (#[trigger] rest[i]) == first_of_code(rest, code)->0
                    && rest[i].has_code(code) && forall|j: int|
                    0 <= j < i ==> !(#[trigger] rest[j]).has_code(code);
            assert forall|j: int| 0 <= j < i + 1 implies !(#[trigger] books[j]).has_code(
                code,
            ) by {
                if j > 0 {
                    assert(!rest[j - 1].has_code(code));
                }
            }
            assert(books[i + 1] == first_of_code(books, code)->0);
        } else {
            assert forall|j: int| 0 <= j < books.len() implies !(#[trigger] books[j]).has_code(
                code,
            ) by {
                if j > 0 {
                    assert(!rest[j - 1].has_code(code));
                }
            }
        }
    }
}

/// The book that a name finds is the first that answers to it, and none is found only
/// where no book does.
pub proof fn law_first_book_is_found(books: Seq<BookView>, name: Seq<char>)
    ensures
        first_called(books, name) is None <==> forall|i: int|
            0 <= i < books.len() ==> !(#[trigger] books[i]).answers_to(name),
        first_called(books, name) is Some ==> exists|i: int|
            0 <= i < books.len() && (#[trigger] books[i]) == first_called(books, name)->0
                && books[i].answers_to(name) && forall|j: int|
                0 <= j < i ==> !(#[trigger] books[j]).answers_to(name),
    decreases books.len(),
{
    if books.len() > 0 {
        let rest = books.skip(1);
        law_first_book_is_found(rest, name);
        if books[0].answers_to(name) {
            assert(books[0] == first_called(books, name)->0);
        } else if first_called(rest, name) is Some {
            let i = choose|i: int|
                0 <= i < rest.len() && (#[trigger] rest[i]) == first_called(rest, name)->0
                    && rest[i].answers_to(name) && forall|j: int|
                    0 <= j < i ==> !(#[trigger] rest[j]).answers_to(name);
            assert forall|j: int| 0 <= j < i + 1 implies !(#[trigger] books[j]).answers_to(
                name,
            ) by {
                if j > 0 {
                    assert(!rest[j - 1].answers_to(name));
                }
            }
            assert(books[i + 1] == first_called(books, name)->0);
        } else {
            assert forall|j: int| 0 <= j < books.len() implies !(#[trigger] books[j]).answers_to(
                name,
            ) by {
                if j > 0 {
                    assert(!rest[j - 1].answers_to(name));
                }
            }
        }
    }
}

/// A book of a bundle can be requested by its code, its abbreviation, its short name and
/// its long name.
pub proof fn law_book_is_requested_by_any_name(bundle: BundleView, i: int, request: RequestView)
    requires
        0 <= i < bundle.books.len(),
        request.book == bundle.books[i].code || Some(request.book)
            == bundle.books[i].names.abbreviation || Some(request.book)
            == bundle.books[i].names.short || Some(request.book) == bundle.books[i].names.long,
    ensures
        bundle.requested_book(request) is Ok,
{
    assert(bundle.books[i].answers_to(request.book));
    law_first_book_is_found(bundle.books, request.book);
}

/// A passage holds the verses of the document that the request covers, in document order,
/// and at least one. A request that covers none is answered with the request itself.
pub proof fn law_passage_is_the_selection(
    bundle: BundleView,
    book: BookView,
    request: RequestView,
    document: Seq<u8>,
    verses: Seq<VerseView>,
)
    requires
        bundle.requested_book(request) == Ok::<BookView, ErrorView>(book),
        usx::document_verses(document, book.code) == Ok::<Seq<VerseView>, ErrorView>(verses),
    ensures
        bundle.passage(request, document) matches Ok(passage) ==> passage.request == request
            && passage.verses.len() > 0 && passage.verses == crate::passage::selected(
            verses,
            request.range,
        ),
        bundle.passage(request, document) is Ok <==> exists|i: int|
            0 <= i < verses.len() && request.range.covers(
                (#[trigger] verses[i]).chapter,
                verses[i].number,
            ),
        bundle.passage(request, document) matches Err(error) ==> error
            == ErrorView::PassageNotFound(request),
{
    let covered = |verse: VerseView| request.range.covers(verse.chapter, verse.number);
    let kept = crate::passage::selected(verses, request.range);
    if kept.len() > 0 {
        let i = crate::passage::lemma_selected_from(verses, request.range, 0);
        assert(covered(kept[0]));
        assert(request.range.covers(verses[i].chapter, verses[i].number));
    }
    if exists|i: int|
        0 <= i < verses.len() && request.range.covers(
            (#[trigger] verses[i]).chapter,
            verses[i].number,
        ) {
        let i = choose|i: int|
            0 <= i < verses.len() && request.range.covers(
                (#[trigger] verses[i]).chapter,
                verses[i].number,
            );
        assert(covered(verses[i]));
        assert(kept.contains(verses[i]));
    }
}

/// The preferred abbreviation of a bundle is the localized one where there is one, and
/// the bundle answers to both its abbreviations.
pub proof fn law_preferred_abbreviation(draft: DraftView)
    ensures
        draft.bundle() matches Ok(bundle) ==> {
            &&& bundle.abbreviation == match bundle.local_abbreviation {
                Some(local) => local,
                None => bundle.metadata_abbreviation,
            }
            &&& bundle.answers_to(bundle.abbreviation)
            &&& bundle.answers_to(bundle.metadata_abbreviation)
        },
{
}

/// A draft with the books of USX documents added one after the other.
pub open spec fn assembled(draft: DraftView, documents: Seq<Seq<u8>>) -> Result<
    DraftView,
    ErrorView,
>
    decreases documents.len(),
{
    if documents.len() == 0 {
        Ok(draft)
    } else {
        match assembled(draft, documents.drop_last()) {
            Err(error) => Err(error),
            Ok(before) => before.with_document(documents.last()),
        }
    }
}

/// Whether a book is that of a USX document, listed in the metadata as the resource `uri` of
/// a bundle at `root`: it has the three-character code that the document declares, the names
/// that the metadata declares for that code, and the path of the resource in the bundle.
pub open spec fn is_book_of(
    book: BookView,
    document: Seq<u8>,
    root: PathBuf,
    uri: Seq<char>,
    metadata: MetadataView,
) -> bool {
    &&& usx::document_code(document) == Ok::<Seq<char>, ErrorView>(book.code)
    &&& book.code.len() == 3
    &&& book.names == (if metadata.book_names.dom().contains(book.code) {
        metadata.book_names[book.code]
    } else {
        no_names()
    })
    &&& book.path == joined_path(root, uri)
}

/// The books of a draft are those of its USX documents, in their order.
pub proof fn law_one_book_for_each_document(
    draft: DraftView,
    documents: Seq<Seq<u8>>,
    filled: DraftView,
)
    requires
        draft.books.len() == 0,
        assembled(draft, documents) == Ok::<DraftView, ErrorView>(filled),
    ensures
        filled.books.len() == documents.len(),
        filled == (DraftView { books: filled.books, ..draft }),
        forall|i: int|
            0 <= i < documents.len() ==> is_book_of(
                #[trigger] filled.books[i],
                documents[i],
                draft.root,
                draft.metadata.usx_resources[i],
                draft.metadata,
            ),
    decreases documents.len(),
{
    if documents.len() > 0 {
        let earlier = documents.drop_last();
        let before = assembled(draft, earlier)->Ok_0;
        law_one_book_for_each_document(draft, earlier, before);
        usx::law_book_code_has_three_characters(documents.last());
        assert forall|i: int| 0 <= i < documents.len() implies is_book_of(
            #[trigger] filled.books[i],
            documents[i],
            draft.root,
            draft.metadata.usx_resources[i],
            draft.metadata,
        ) by {
            if i < earlier.len() {
                assert(filled.books[i] == before.books[i]);
                assert(earlier[i] == documents[i]);
            }
        }
    }
}

/// An opened bundle has one book for each resource that its metadata lists, in that order,
/// and it is the book of that resource.
pub proof fn law_one_book_for_each_resource(
    root: PathBuf,
    metadata: Seq<u8>,
    draft: DraftView,
    documents: Seq<Seq<u8>>,
    filled: DraftView,
    bundle: BundleView,
)
    requires
        opened(root, Some(metadata)) == Ok::<DraftView, ErrorView>(draft),
        documents.len() <= draft.metadata.usx_resources.len(),
        assembled(draft, documents) == Ok::<DraftView, ErrorView>(filled),
        filled.next_resource() is None,
        filled.bundle() == Ok::<BundleView, ErrorView>(bundle),
    ensures
        metadata::document_metadata(metadata) == Ok::<MetadataView, ErrorView>(draft.metadata),
        bundle.root == root,
        bundle.books.len() == draft.metadata.usx_resources.len(),
        forall|i: int|
            0 <= i < bundle.books.len() ==> is_book_of(
                #[trigger] bundle.books[i],
                documents[i],
                root,
                draft.metadata.usx_resources[i],
                draft.metadata,
            ),
{
    law_one_book_for_each_document(draft, documents, filled);
}

/// Whether a text equals a name that may be absent, but for ASCII case.
pub open spec fn equals_optional(candidate: Option<Seq<char>>, name: Seq<char>) -> bool {
    candidate matches Some(candidate) && text::equal_ignoring_case(candidate, name)
}

/// A book answers to a name exactly where the name equals its code, or one of its declared
/// names, but for ASCII case.
pub proof fn law_names_of_a_book(book: BookView, name: Seq<char>)
    ensures
        book.answers_to(name) <==> {
            ||| text::equal_ignoring_case(book.code, name)
            ||| book.names.abbreviation matches Some(text) && text::equal_ignoring_case(text, name)
            ||| book.names.short matches Some(text) && text::equal_ignoring_case(text, name)
            ||| book.names.long matches Some(text) && text::equal_ignoring_case(text, name)
        },
        book.has_code(name) <==> text::equal_ignoring_case(book.code, name),
{
}

/// The book that a request means is the first whose code or declared name equals the
/// requested one but for ASCII case. Where there is none, the request is refused with the
/// name that it asked for.
pub proof fn law_requested_book(bundle: BundleView, request: RequestView)
    ensures
        bundle.requested_book(request) matches Ok(book) ==> exists|i: int|
            0 <= i < bundle.books.len() && (#[trigger] bundle.books[i]) == book && (
            text::equal_ignoring_case(book.code, request.book) || equals_optional(
                book.names.abbreviation,
                request.book,
            ) || equals_optional(book.names.short, request.book) || equals_optional(
                book.names.long,
                request.book,
            )) && forall|j: int|
                0 <= j < i ==> !text::equal_ignoring_case(
                    (#[trigger] bundle.books[j]).code,
                    request.book,
                ) && !equals_optional(bundle.books[j].names.abbreviation, request.book)
                    && !equals_optional(bundle.books[j].names.short, request.book)
                    && !equals_optional(bundle.books[j].names.long, request.book),
        bundle.requested_book(request) matches Err(error) ==> error == ErrorView::BookNotFound(
            request.book,
        ) && forall|j: int|
            0 <= j < bundle.books.len() ==> !text::equal_ignoring_case(
                (#[trigger] bundle.books[j]).code,
                request.book,
            ) && !equals_optional(bundle.books[j].names.abbreviation, request.book)
                && !equals_optional(bundle.books[j].names.short, request.book) && !equals_optional(
                bundle.books[j].names.long,
                request.book,
            ),
{
    let name = request.book;
    let books = bundle.books;
    law_first_book_is_found(books, name);
    match first_called(books, name) {
        Some(book) => {
            let i = choose|i: int|
                0 <= i < books.len() && (#[trigger] books[i]) == first_called(books, name)->0
                    && books[i].answers_to(name) && forall|j: int|
                    0 <= j < i ==> !(#[trigger] books[j]).answers_to(name);
            assert forall|j: int| 0 <= j < i implies !text::equal_ignoring_case(
                (#[trigger] books[j]).code,
                name,
            ) && !equals_optional(books[j].names.abbreviation, name) && !equals_optional(
                books[j].names.short,
                name,
            ) && !equals_optional(books[j].names.long, name) by {
                assert(!books[j].answers_to(name));
            }
            assert(books[i] == book);
        },
        None => {
            assert forall|j: int| 0 <= j < books.len() implies !text::equal_ignoring_case(
                (#[trigger] books[j]).code,
                name,
            ) && !equals_optional(books[j].names.abbreviation, name) && !equals_optional(
                books[j].names.short,
                name,
            ) && !equals_optional(books[j].names.long, name) by {
                assert(!books[j].answers_to(name));
            }
        },
    }
}

/// The book that a code finds is the first whose code equals it but for ASCII case.
pub proof fn law_book_of_code(books: Seq<BookView>, code: Seq<char>)
    ensures
        first_of_code(books, code) matches Some(book) ==> exists|i: int|
            0 <= i < books.len() && (#[trigger] books[i]) == book && text::equal_ignoring_case(
                book.code,
                code,
            ) && forall|j: int|
                0 <= j < i ==> !text::equal_ignoring_case((#[trigger] books[j]).code, code),
        first_of_code(books, code) is None ==> forall|j: int|
            0 <= j < books.len() ==> !text::equal_ignoring_case((#[trigger] books[j]).code, code),
{
    law_first_book_of_code_is_found(books, code);
    match first_of_code(books, code) {
        Some(book) => {
            let i = choose|i: int|
                0 <= i < books.len() && (#[trigger] books[i]) == first_of_code(books, code)->0
                    && books[i].has_code(code) && forall|j: int|
                    0 <= j < i ==> !(#[trigger] books[j]).has_code(code);
            assert forall|j: int| 0 <= j < i implies !text::equal_ignoring_case(
                (#[trigger] books[j]).code,
                code,
            ) by {
                assert(!books[j].has_code(code));
            }
            assert(books[i] == book);
        },
        None => {
            assert forall|j: int| 0 <= j < books.len() implies !text::equal_ignoring_case(
                (#[trigger] books[j]).code,
                code,
            ) by {
                assert(!books[j].has_code(code));
            }
        },
    }
}

/// A passage comes from the document of the book that the request means. An error of the
/// document is the answer, and so is that of the book.
pub proof fn law_passage_errors(
    bundle: BundleView,
    book: BookView,
    request: RequestView,
    document: Seq<u8>,
    error: ErrorView,
)
    ensures
        bundle.requested_book(request) == Err::<BookView, ErrorView>(error) ==> bundle.passage(
            request,
            document,
        ) == Err::<PassageView, ErrorView>(error),
        bundle.requested_book(request) == Ok::<BookView, ErrorView>(book) && usx::document_verses(
            document,
            book.code,
        ) == Err::<Seq<VerseView>, ErrorView>(error) ==> bundle.passage(request, document) == Err::<
            PassageView,
            ErrorView,
        >(error),
{
}

/// What opening a bundle gives, by the fields of its metadata. The locale is the canonical
/// one of the LDML identifier, or of the ISO identifier where there is no other.
pub proof fn law_opening(root: PathBuf, source: Seq<u8>, metadata: MetadataView)
    requires
        metadata::document_metadata(source) == Ok::<MetadataView, ErrorView>(metadata),
    ensures
        opened(root, None) == Err::<DraftView, ErrorView>(ErrorView::MissingMetadata(root)),
        metadata.ldml is None && metadata.language_iso is None ==> opened(root, Some(source))
            == Err::<DraftView, ErrorView>(
            ErrorView::MissingField("language/ldml or language/iso"@),
        ),
        metadata.ldml is Some || metadata.language_iso is Some ==> {
            let identifier = if metadata.ldml is Some {
                metadata.ldml->0
            } else {
                metadata.language_iso->0
            };
            match locale::parsed_locale(identifier) {
                Err(error) => opened(root, Some(source)) == Err::<DraftView, ErrorView>(
                    ErrorView::InvalidLocale {
                        value: identifier,
                        reason: locale::parse_error_text(error),
                    },
                ),
                Ok(parsed) => match metadata.abbreviation {
                    None => opened(root, Some(source)) == Err::<DraftView, ErrorView>(
                        ErrorView::MissingField("identification/abbreviation"@),
                    ),
                    Some(abbreviation) => opened(root, Some(source)) == Ok::<DraftView, ErrorView>(
                        DraftView {
                            root,
                            metadata,
                            locale: locale::canonical_locale(parsed),
                            metadata_abbreviation: abbreviation,
                            books: seq![],
                        },
                    ),
                },
            }
        },
{
}

/// An error of the metadata document is the answer of opening its bundle.
pub proof fn law_opening_errors(root: PathBuf, source: Seq<u8>, error: ErrorView)
    requires
        metadata::document_metadata(source) == Err::<MetadataView, ErrorView>(error),
    ensures
        opened(root, Some(source)) == Err::<DraftView, ErrorView>(error),
{
}

/// The next resource of a draft is the first that has no book yet, and adding a document
/// adds one book for it or gives the error of its header.
pub proof fn law_drafting(draft: DraftView, document: Seq<u8>)
    ensures
        draft.next_resource() is Some <==> draft.books.len() < draft.metadata.usx_resources.len(),
        draft.books.len() < draft.metadata.usx_resources.len() ==> draft.next_resource() == Some(
            draft.metadata.usx_resources[draft.books.len() as int],
        ),
        match usx::document_code(document) {
            Err(error) => draft.with_document(document) == Err::<DraftView, ErrorView>(error),
            Ok(code) => draft.with_document(document) == Ok::<DraftView, ErrorView>(
                DraftView {
                    books: draft.books.push(
                        BookView {
                            code,
                            names: if draft.metadata.book_names.dom().contains(code) {
                                draft.metadata.book_names[code]
                            } else {
                                NamesView { abbreviation: None, short: None, long: None }
                            },
                            path: joined_path(
                                draft.root,
                                draft.metadata.usx_resources[draft.books.len() as int],
                            ),
                        },
                    ),
                    ..draft
                },
            ),
        },
{
}

/// What a bundle takes from its draft, field by field, and what it cannot do without.
pub proof fn law_bundle_of_a_draft(draft: DraftView)
    ensures
        draft.metadata.id is None ==> draft.bundle() == Err::<BundleView, ErrorView>(
            ErrorView::MissingField("DBLMetadata/@id"@),
        ),
        draft.metadata.id is Some && draft.metadata.name is None ==> draft.bundle() == Err::<
            BundleView,
            ErrorView,
        >(ErrorView::MissingField("identification/name"@)),
        draft.metadata.id is Some && draft.metadata.name is Some ==> (draft.bundle() matches Ok(
            bundle,
        ) && {
            &&& bundle.root == draft.root
            &&& bundle.id == draft.metadata.id->0
            &&& bundle.revision == draft.metadata.revision
            &&& bundle.name == draft.metadata.name->0
            &&& bundle.local_name == draft.metadata.local_name
            &&& bundle.metadata_abbreviation == draft.metadata_abbreviation
            &&& bundle.local_abbreviation == draft.metadata.local_abbreviation
            &&& bundle.scope == draft.metadata.scope
            &&& bundle.locale == draft.locale
            &&& draft.metadata.script_direction is None ==> bundle.script_direction
                == ScriptDirection::LeftToRight
            &&& draft.metadata.script_direction is Some ==> Some(bundle.script_direction)
                == draft.metadata.script_direction
            &&& draft.metadata.local_abbreviation is None ==> bundle.abbreviation
                == draft.metadata_abbreviation
            &&& draft.metadata.local_abbreviation is Some ==> Some(bundle.abbreviation)
                == draft.metadata.local_abbreviation
            &&& bundle.books == draft.books
        }),
{
}

/// The views of names and of books that were looked up are their own, part for part.
pub proof fn law_views(names: BookNames, books: Seq<Book>, book: Book)
    ensures
        names@.abbreviation is Some <==> names.abbreviation is Some,
        names.abbreviation is Some ==> names@.abbreviation->0 == names.abbreviation->0@,
        names@.short is Some <==> names.short is Some,
        names.short is Some ==> names@.short->0 == names.short->0@,
        names@.long is Some <==> names.long is Some,
        names.long is Some ==> names@.long->0 == names.long->0@,
        no_names().abbreviation is None && no_names().short is None && no_names().long is None,
        book_views(books).len() == books.len(),
        forall|i: int| 0 <= i < books.len() ==> book_views(books)[i] == (#[trigger] books[i])@,
        found_book(Some(&book)) == Some(book@),
        found_book(None) is None,
{
}

} // verus!
