//! Passage requests and the verses that they select.

use vstd::prelude::*;

use crate::text;
use crate::usx;

verus! {

/// Plain scripture text associated with one USX verse milestone.
#[derive(Clone, Debug, Eq, PartialEq)]
pub struct Verse {
    /// USX scripture reference, such as `GEN 1:1`.
    pub sid: String,
    /// Chapter number containing this verse.
    pub chapter: u32,
    /// Sequential verse number from USX `number`, including bridges such as `1-2`.
    pub number: String,
    /// Alternate-versification number from USX `altnumber`.
    pub alternate_number: Option<String>,
    /// Publication-facing number from USX `pubnumber`.
    pub published_number: Option<String>,
    /// Plain scripture text collected for the verse.
    pub text: String,
}

/// The view of a [`Verse`].
pub struct VerseView {
    pub sid: Seq<char>,
    pub chapter: u32,
    pub number: Seq<char>,
    pub alternate_number: Option<Seq<char>>,
    pub published_number: Option<Seq<char>>,
    pub text: Seq<char>,
}

impl View for Verse {
    type V = VerseView;

    open spec fn view(&self) -> VerseView {
        VerseView {
            sid: self.sid@,
            chapter: self.chapter,
            number: self.number@,
            alternate_number: text::optional(self.alternate_number),
            published_number: text::optional(self.published_number),
            text: self.text@,
        }
    }
}

/// The views of a sequence of verses.
pub open spec fn verse_views(verses: Seq<Verse>) -> Seq<VerseView> {
    verses.map_values(|verse: Verse| verse@)
}

/// A chapter and verse location in a passage request.
#[derive(Clone, Copy, Debug, Eq, PartialEq)]
pub struct VerseReference {
    chapter: u32,
    verse: u32,
}

/// The view of a [`VerseReference`].
pub struct Location {
    pub chapter: u32,
    pub verse: u32,
}

impl Location {
    /// Whether this location comes before `other` or is the same.
    pub open spec fn not_after(self, other: Location) -> bool {
        self.chapter < other.chapter || (self.chapter == other.chapter && self.verse
            <= other.verse)
    }
}

impl View for VerseReference {
    type V = Location;

    closed spec fn view(&self) -> Location {
        Location { chapter: self.chapter, verse: self.verse }
    }
}

impl VerseReference {
    /// Returns the one-based chapter number.
    pub fn chapter(self) -> (chapter: u32)
        ensures
            chapter == self@.chapter,
    {
        self.chapter
    }

    /// Returns the one-based verse number.
    pub fn verse(self) -> (verse: u32)
        ensures
            verse == self@.verse,
    {
        self.verse
    }
}

/// The locations covered by a passage request.
#[derive(Clone, Copy, Debug, Eq, PartialEq)]
#[allow(inconsistent_fields)]
pub enum PassageRange {
    /// An inclusive range of whole chapters.
    Chapters {
        /// First one-based chapter number.
        start: u32,
        /// Last one-based chapter number.
        end: u32,
    },
    /// An inclusive range of verses, possibly spanning chapters.
    Verses {
        /// First verse in the range.
        start: VerseReference,
        /// Last verse in the range.
        end: VerseReference,
    },
}

/// The view of a [`PassageRange`].
#[allow(inconsistent_fields)]
pub enum RangeView {
    Chapters { start: u32, end: u32 },
    Verses { start: Location, end: Location },
}

impl View for PassageRange {
    type V = RangeView;

    open spec fn view(&self) -> RangeView {
        match *self {
            PassageRange::Chapters { start, end } => RangeView::Chapters { start, end },
            PassageRange::Verses { start, end } => RangeView::Verses { start: start@, end: end@ },
        }
    }
}

impl RangeView {
    /// Whether every number is positive and the start does not follow the end.
    pub open spec fn is_valid(self) -> bool {
        match self {
            RangeView::Chapters { start, end } => 0 < start <= end,
            RangeView::Verses { start, end } => {
                &&& start.chapter > 0 && start.verse > 0
                &&& end.chapter > 0 && end.verse > 0
                &&& start.not_after(end)
            },
        }
    }

    /// Whether a verse of that chapter and number lies in the range, in part at least.
    /// A number without a leading numeral lies in no range.
    pub open spec fn covers(self, chapter: u32, number: Seq<char>) -> bool {
        match usx::number_span(number) {
            None => false,
            Some((first, last)) => match self {
                RangeView::Chapters { start, end } => start <= chapter <= end,
                RangeView::Verses { start, end } => {
                    &&& start.not_after(Location { chapter, verse: last })
                    &&& (Location { chapter, verse: first }).not_after(end)
                },
            },
        }
    }
}

/// The verses that a range covers, in their order.
pub open spec fn selected(verses: Seq<VerseView>, range: RangeView) -> Seq<VerseView> {
    verses.filter(|verse: VerseView| range.covers(verse.chapter, verse.number))
}

/// Each selected verse is one of the verses.
pub proof fn lemma_selected_from(verses: Seq<VerseView>, range: RangeView, i: int) -> (from: int)
    requires
        0 <= i < selected(verses, range).len(),
    ensures
        0 <= from < verses.len(),
        verses[from] == selected(verses, range)[i],
    decreases verses.len(),
{
    reveal(Seq::filter);
    let before = selected(verses.drop_last(), range);
    if i < before.len() {
        lemma_selected_from(verses.drop_last(), range, i)
    } else {
        verses.len() - 1
    }
}

/// A validated passage request, including its book name or USX code.
#[derive(Debug, Eq, PartialEq)]
pub struct PassageRequest {
    book: String,
    range: PassageRange,
}

/// The view of a [`PassageRequest`].
pub struct RequestView {
    pub book: Seq<char>,
    pub range: RangeView,
}

impl RequestView {
    /// Whether the book is named and the range is valid.
    pub open spec fn is_valid(self) -> bool {
        text::trimmed(self.book).len() > 0 && self.range.is_valid()
    }
}

impl View for PassageRequest {
    type V = RequestView;

    closed spec fn view(&self) -> RequestView {
        RequestView { book: self.book@, range: self.range@ }
    }
}

impl Clone for PassageRequest {
    fn clone(&self) -> (copy: Self)
        ensures
            copy@ == self@,
    {
        proof {
            use_type_invariant(self);
        }
        PassageRequest { book: self.book.clone(), range: self.range }
    }
}

/// The view of a request that may be invalid.
pub open spec fn requested(request: Result<PassageRequest, InvalidPassageRequest>) -> Result<
    RequestView,
    Seq<char>,
> {
    match request {
        Ok(request) => Ok(request@),
        Err(error) => Err(error@),
    }
}

/// The request for an inclusive range of chapters, or the reason why there is none.
pub open spec fn chapters_request(book: Seq<char>, start: u32, end: u32) -> Result<
    RequestView,
    Seq<char>,
> {
    if text::trimmed(book).len() == 0 {
        Err("the book name must not be empty"@)
    } else if start == 0 || end == 0 {
        Err("chapter numbers must be greater than zero"@)
    } else if start > end {
        Err("the start chapter must not follow the end chapter"@)
    } else {
        Ok(RequestView { book, range: RangeView::Chapters { start, end } })
    }
}

/// The request for an inclusive range of verses, or the reason why there is none.
pub open spec fn verses_request(book: Seq<char>, start: Location, end: Location) -> Result<
    RequestView,
    Seq<char>,
> {
    if text::trimmed(book).len() == 0 {
        Err("the book name must not be empty"@)
    } else if start.chapter == 0 || start.verse == 0 || end.chapter == 0 || end.verse == 0 {
        Err("chapter and verse numbers must be greater than zero"@)
    } else if !start.not_after(end) {
        Err("the start verse must not follow the end verse"@)
    } else {
        Ok(RequestView { book, range: RangeView::Verses { start, end } })
    }
}

impl PassageRequest {
    #[verifier::type_invariant]
    spec fn valid(self) -> bool {
        self@.is_valid()
    }

    /// Requests one whole chapter, such as `Genesis 1`.
    pub fn chapter(book: &str, chapter: u32) -> (request: Result<Self, InvalidPassageRequest>)
        ensures
            requested(request) == chapters_request(book@, chapter, chapter),
    {
        Self::chapters(book, chapter, chapter)
    }

    /// Requests an inclusive range of whole chapters, such as `Genesis 1-2`.
    pub fn chapters(book: &str, start_chapter: u32, end_chapter: u32) -> (request: Result<
        Self,
        InvalidPassageRequest,
    >)
        ensures
            requested(request) == chapters_request(book@, start_chapter, end_chapter),
    {
        let book = match validate_book_name(book) {
            Ok(book) => book,
            Err(error) => return Err(error),
        };
        if start_chapter == 0 || end_chapter == 0 {
            return Err(InvalidPassageRequest::new("chapter numbers must be greater than zero"));
        }
        if start_chapter > end_chapter {
            return Err(
                InvalidPassageRequest::new("the start chapter must not follow the end chapter"),
            );
        }
        Ok(
            PassageRequest {
                book,
                range: PassageRange::Chapters { start: start_chapter, end: end_chapter },
            },
        )
    }

    /// Requests one verse, such as `Genesis 1:4`.
    pub fn verse(book: &str, chapter: u32, verse: u32) -> (request: Result<
        Self,
        InvalidPassageRequest,
    >)
        ensures
            requested(request) == verses_request(
                book@,
                (Location { chapter, verse }),
                (Location { chapter, verse }),
            ),
    {
        Self::verse_range(book, chapter, verse, chapter, verse)
    }

    /// Requests an inclusive verse range in one chapter, such as `Genesis 1:4-5`.
    pub fn verses(book: &str, chapter: u32, start_verse: u32, end_verse: u32) -> (request: Result<
        Self,
        InvalidPassageRequest,
    >)
        ensures
            requested(request) == verses_request(
                book@,
                (Location { chapter, verse: start_verse }),
                (Location { chapter, verse: end_verse }),
            ),
    {
        Self::verse_range(book, chapter, start_verse, chapter, end_verse)
    }

    /// Requests an inclusive verse range that may span chapters.
    ///
    /// For example, `verse_range("Genesis", 1, 4, 2, 3)` represents
    /// `Genesis 1:4-2:3`.
    pub fn verse_range(
        book: &str,
        start_chapter: u32,
        start_verse: u32,
        end_chapter: u32,
        end_verse: u32,
    ) -> (request: Result<Self, InvalidPassageRequest>)
        ensures
            requested(request) == verses_request(
                book@,
                (Location { chapter: start_chapter, verse: start_verse }),
                (Location { chapter: end_chapter, verse: end_verse }),
            ),
    {
        let book = match validate_book_name(book) {
            Ok(book) => book,
            Err(error) => return Err(error),
        };
        if start_chapter == 0 || start_verse == 0 || end_chapter == 0 || end_verse == 0 {
            return Err(
                InvalidPassageRequest::new("chapter and verse numbers must be greater than zero"),
            );
        }
        if start_chapter > end_chapter || (start_chapter == end_chapter && start_verse > end_verse) {
            return Err(InvalidPassageRequest::new("the start verse must not follow the end verse"));
        }
        Ok(
            PassageRequest {
                book,
                range: PassageRange::Verses {
                    start: VerseReference { chapter: start_chapter, verse: start_verse },
                    end: VerseReference { chapter: end_chapter, verse: end_verse },
                },
            },
        )
    }

    /// Returns the requested USX book code, name, or abbreviation.
    pub fn book(&self) -> (book: &str)
        ensures
            book@ == self@.book,
            text::trimmed(book@).len() > 0,
    {
        proof {
            use_type_invariant(self);
        }
        self.book.as_str()
    }

    /// Returns the validated range covered by this request.
    pub fn range(&self) -> (range: PassageRange)
        ensures
            range@ == self@.range,
            range@.is_valid(),
    {
        proof {
            use_type_invariant(self);
        }
        self.range
    }

    /// Whether the request's range covers a verse, in part at least.
    pub fn includes(&self, verse: &Verse) -> (included: bool)
        ensures
            included == self@.range.covers(verse.chapter, verse.number@),
    {
        let (first, last) = match usx::verse_number_span(verse.number.as_str()) {
            Some(span) => span,
            None => return false,
        };
        match self.range {
            PassageRange::Chapters { start, end } => start <= verse.chapter && verse.chapter <= end,
            PassageRange::Verses { start, end } => {
                (start.chapter < verse.chapter || (start.chapter == verse.chapter && start.verse
                    <= last)) && (verse.chapter < end.chapter || (verse.chapter == end.chapter
                    && first <= end.verse))
            },
        }
    }
}

/// Accepts a book name that is not blank.
pub fn validate_book_name(book: &str) -> (name: Result<String, InvalidPassageRequest>)
    ensures
        text::trimmed(book@).len() > 0 ==> name is Ok && name->Ok_0@ == book@,
        text::trimmed(book@).len() == 0 ==> name is Err && name->Err_0@
            == "the book name must not be empty"@,
{
    if text::trim(book).as_str().is_empty() {
        Err(InvalidPassageRequest::new("the book name must not be empty"))
    } else {
        Ok(book.to_owned())
    }
}

/// The reason a passage request could not be constructed.
#[derive(Clone, Copy, Debug, Eq, PartialEq)]
pub struct InvalidPassageRequest {
    reason: &'static str,
}

impl View for InvalidPassageRequest {
    type V = Seq<char>;

    closed spec fn view(&self) -> Seq<char> {
        self.reason@
    }
}

impl InvalidPassageRequest {
    fn new(reason: &'static str) -> (error: Self)
        ensures
            error@ == reason@,
    {
        InvalidPassageRequest { reason }
    }

    /// Returns the violated request invariant.
    pub fn reason(self) -> (reason: &'static str)
        ensures
            reason@ == self@,
    {
        self.reason
    }
}

/// Verses selected by a passage request.
#[derive(Clone, Debug, Eq, PartialEq)]
pub struct Passage {
    /// The request that selected these verses.
    pub request: PassageRequest,
    /// Selected verses in USX document order.
    pub verses: Vec<Verse>,
}

/// The view of a [`Passage`].
pub struct PassageView {
    pub request: RequestView,
    pub verses: Seq<VerseView>,
}

impl View for Passage {
    type V = PassageView;

    open spec fn view(&self) -> PassageView {
        PassageView { request: self.request@, verses: verse_views(self.verses@) }
    }
}

impl PassageView {
    /// The verse texts joined with a single space.
    pub open spec fn text(self) -> Seq<char> {
        text::joined(self.verses.map_values(|verse: VerseView| verse.text), seq![' '])
    }
}

impl Passage {
    /// Returns the verse texts joined with a single space.
    pub fn text(&self) -> (joined: String)
        ensures
            joined@ == self@.text(),
    {
        let mut texts: Vec<String> = Vec::new();
        let mut i: usize = 0;
        while i < self.verses.len()
            invariant
                i <= self.verses@.len(),
                texts@.len() == i,
                forall|k: int| 0 <= k < i ==> (#[trigger] texts@[k])@ == self.verses@[k].text@,
            decreases self.verses@.len() - i,
        {
            texts.push(self.verses[i].text.clone());
            i += 1;
        }
        assert(text::views(texts@) =~= self@.verses.map_values(|verse: VerseView| verse.text));
        text::join_with_spaces(&texts)
    }

    /// Collects the verses of `verses` that `request` includes. There is no passage
    /// without verses.
    pub fn select(request: &PassageRequest, verses: Vec<Verse>) -> (passage: Option<Self>)
        ensures
            passage is Some <==> selected(verse_views(verses@), request@.range).len() > 0,
            passage is Some ==> passage->0@ == (PassageView {
                request: request@,
                verses: selected(verse_views(verses@), request@.range),
            }),
    {
        let ghost views = verse_views(verses@);
        let ghost range = request@.range;
        let ghost covered = |verse: VerseView| range.covers(verse.chapter, verse.number);
        let mut kept: Vec<Verse> = Vec::new();
        assert(views.take(0).filter(covered) =~= seq![]) by {
            reveal(Seq::filter);
        }
        for verse in it: verses
            invariant
                it.seq() == verses@,
                views == verse_views(verses@),
                range == request@.range,
                covered == (|verse: VerseView| range.covers(verse.chapter, verse.number)),
                verse_views(kept@) == views.take(it.index() as int).filter(covered),
        {
            proof {
                reveal(Seq::filter);
                assert(views.take(it.index() as int + 1).drop_last() =~= views.take(
                    it.index() as int,
                ));
                assert(views.take(it.index() as int + 1).last() == verse@);
            }
            let ghost before = kept@;
            if request.includes(&verse) {
                kept.push(verse);
                assert(verse_views(kept@) =~= verse_views(before).push(verse@));
            }
        }
        assert(views.take(views.len() as int) =~= views);
        assert(verse_views(kept@).len() == kept@.len());
        if kept.len() == 0 {
            None
        } else {
            Some(Passage { request: request.clone(), verses: kept })
        }
    }
}

/// There is a request for chapters exactly where the book is named, the numbers are
/// positive and the start does not follow the end. So every request is valid.
pub proof fn law_chapter_requests_are_valid(book: Seq<char>, start: u32, end: u32)
    ensures
        chapters_request(book, start, end) is Ok <==> text::trimmed(book).len() > 0 && 0 < start
            <= end,
        chapters_request(book, start, end) is Ok ==> chapters_request(
            book,
            start,
            end,
        )->Ok_0.is_valid(),
{
}

/// There is a request for verses exactly where the book is named, the numbers are
/// positive and the start does not follow the end. So every request is valid.
pub proof fn law_verse_requests_are_valid(book: Seq<char>, start: Location, end: Location)
    ensures
        verses_request(book, start, end) is Ok <==> text::trimmed(book).len() > 0 && (
        RangeView::Verses { start, end }).is_valid(),
        verses_request(book, start, end) is Ok ==> verses_request(
            book,
            start,
            end,
        )->Ok_0.is_valid(),
{
}

/// A range of chapters covers what its two parts cover, wherever it is divided.
pub proof fn law_chapters_divide(
    start: u32,
    middle: u32,
    end: u32,
    chapter: u32,
    number: Seq<char>,
)
    requires
        start <= middle < end,
    ensures
        (RangeView::Chapters { start, end }).covers(chapter, number) <==> (RangeView::Chapters {
            start,
            end: middle,
        }).covers(chapter, number) || (RangeView::Chapters {
            start: (middle + 1) as u32,
            end,
        }).covers(chapter, number),
{
}

/// A verse range selects no verse outside the chapters that it spans, and all verses with a
/// number of the chapters that lie between its first and its last.
pub proof fn law_verse_range_within_chapters(
    start: Location,
    end: Location,
    chapter: u32,
    number: Seq<char>,
)
    ensures
        (RangeView::Verses { start, end }).covers(chapter, number) ==> (RangeView::Chapters {
            start: start.chapter,
            end: end.chapter,
        }).covers(chapter, number),
        start.chapter < chapter < end.chapter && usx::number_span(number) is Some ==> (
        RangeView::Verses { start, end }).covers(chapter, number),
{
}

/// A wider verse range covers all that a narrower one covers.
pub proof fn law_wider_range_covers_more(
    start: Location,
    end: Location,
    earlier: Location,
    later: Location,
    chapter: u32,
    number: Seq<char>,
)
    requires
        earlier.not_after(start),
        end.not_after(later),
        (RangeView::Verses { start, end }).covers(chapter, number),
    ensures
        (RangeView::Verses { start: earlier, end: later }).covers(chapter, number),
{
}

/// A request for one verse covers the verse of a plain number exactly where chapter and
/// number are the requested ones.
pub proof fn law_single_verse(chapter: u32, verse: u32, found_chapter: u32, found_verse: u32)
    ensures
        (RangeView::Verses {
            start: Location { chapter, verse },
            end: Location { chapter, verse },
        }).covers(found_chapter, text::decimal(found_verse as nat)) <==> found_chapter == chapter
            && found_verse == verse,
{
    usx::law_plain_number_span(found_verse);
}

/// A request for one verse covers a bridge of verses exactly where it lies in the bridge.
pub proof fn law_verse_in_bridge(
    chapter: u32,
    verse: u32,
    number: Seq<char>,
    first: u32,
    last: u32,
)
    requires
        usx::number_span(number) == Some((first, last)),
    ensures
        (RangeView::Verses {
            start: Location { chapter, verse },
            end: Location { chapter, verse },
        }).covers(chapter, number) <==> first <= verse <= last,
{
}

/// The selection holds the covered verses and no others, in the order in which they
/// stand: what is selected of two stretches is what is selected of each, one after the
/// other.
pub proof fn law_selection_keeps_covered_verses(
    before: Seq<VerseView>,
    verse: VerseView,
    after: Seq<VerseView>,
    range: RangeView,
)
    ensures
        selected(before + seq![verse] + after, range) == selected(before, range) + (
        if range.covers(verse.chapter, verse.number) {
            seq![verse]
        } else {
            seq![]
        }) + selected(after, range),
{
    let covered = |verse: VerseView| range.covers(verse.chapter, verse.number);
    Seq::filter_distributes_over_add(before + seq![verse], after, covered);
    Seq::filter_distributes_over_add(before, seq![verse], covered);
    reveal(Seq::filter);
    assert(seq![verse].drop_last().filter(covered) =~= seq![]);
    assert(seq![verse].last() == verse);
    assert(seq![verse].filter(covered) =~= if covered(verse) {
        seq![verse]
    } else {
        seq![]
    });
}

/// A verse range covers a verse exactly where some location from its start through its end,
/// in the order of chapters and then of verses, lies in the span of the verse's number: any
/// such location shows it, and where it is covered, the first location of the verse that
/// does not come before the start is one.
pub proof fn law_verse_range_covers(
    start: Location,
    end: Location,
    chapter: u32,
    number: Seq<char>,
    first: u32,
    last: u32,
    verse: u32,
)
    requires
        start.chapter < end.chapter || (start.chapter == end.chapter && start.verse <= end.verse),
        usx::number_span(number) == Some((first, last)),
    ensures
        first <= verse <= last && (start.chapter < chapter || (start.chapter == chapter
            && start.verse <= verse)) && (chapter < end.chapter || (chapter == end.chapter && verse
            <= end.verse)) ==> (RangeView::Verses { start, end }).covers(chapter, number),
        (RangeView::Verses { start, end }).covers(chapter, number) ==> {
            let found = if start.chapter == chapter && first < start.verse {
                start.verse
            } else {
                first
            };
            &&& first <= found <= last
            &&& start.chapter < chapter || (start.chapter == chapter && start.verse <= found)
            &&& chapter < end.chapter || (chapter == end.chapter && found <= end.verse)
        },
{
    usx::law_number_span(number);
}

/// A verse range covers the verse of a plain number exactly where it lies from the start
/// through the end of the range, in the order of chapters and then of verses.
pub proof fn law_verse_range_covers_plain_numbers(
    start: Location,
    end: Location,
    chapter: u32,
    verse: u32,
)
    ensures
        (RangeView::Verses { start, end }).covers(chapter, text::decimal(verse as nat)) <==> (
        start.chapter < chapter || (start.chapter == chapter && start.verse <= verse)) && (chapter
            < end.chapter || (chapter == end.chapter && verse <= end.verse)),
{
    usx::law_plain_number_span(verse);
}

/// A range of chapters covers a verse with a number exactly where its chapter lies from the
/// first through the last, and no range covers a verse without a number.
pub proof fn law_chapter_range_covers(
    start: u32,
    end: u32,
    range: RangeView,
    chapter: u32,
    number: Seq<char>,
)
    ensures
        (RangeView::Chapters { start, end }).covers(chapter, number) <==> usx::number_span(
            number,
        ) is Some && start <= chapter && chapter <= end,
        usx::number_span(number) is None ==> !range.covers(chapter, number),
{
}

/// What each request for chapters gives, by its arguments.
pub proof fn law_chapter_requests(book: Seq<char>, start: u32, end: u32)
    ensures
        (forall|i: int| 0 <= i < book.len() ==> text::is_white_space(#[trigger] book[i]))
            ==> chapters_request(book, start, end) == Err::<RequestView, Seq<char>>(
            "the book name must not be empty"@,
        ),
        !(forall|i: int| 0 <= i < book.len() ==> text::is_white_space(#[trigger] book[i])) ==> {
            &&& start == 0 || end == 0 ==> chapters_request(book, start, end) == Err::<
                RequestView,
                Seq<char>,
            >("chapter numbers must be greater than zero"@)
            &&& 0 < end < start ==> chapters_request(book, start, end) == Err::<
                RequestView,
                Seq<char>,
            >("the start chapter must not follow the end chapter"@)
            &&& 0 < start <= end ==> chapters_request(book, start, end) == Ok::<
                RequestView,
                Seq<char>,
            >(RequestView { book, range: RangeView::Chapters { start, end } })
        },
{
    text::law_trimming_cuts_white_space(book);
}

/// What each request for verses gives, by its arguments.
pub proof fn law_verse_requests(book: Seq<char>, start: Location, end: Location)
    ensures
        (forall|i: int| 0 <= i < book.len() ==> text::is_white_space(#[trigger] book[i]))
            ==> verses_request(book, start, end) == Err::<RequestView, Seq<char>>(
            "the book name must not be empty"@,
        ),
        !(forall|i: int| 0 <= i < book.len() ==> text::is_white_space(#[trigger] book[i])) ==> {
            let positive = start.chapter > 0 && start.verse > 0 && end.chapter > 0 && end.verse > 0;
            let ordered = start.chapter < end.chapter || (start.chapter == end.chapter
                && start.verse <= end.verse);
            &&& !positive ==> verses_request(book, start, end) == Err::<RequestView, Seq<char>>(
                "chapter and verse numbers must be greater than zero"@,
            )
            &&& positive && !ordered ==> verses_request(book, start, end) == Err::<
                RequestView,
                Seq<char>,
            >("the start verse must not follow the end verse"@)
            &&& positive && ordered ==> verses_request(book, start, end) == Ok::<
                RequestView,
                Seq<char>,
            >(RequestView { book, range: RangeView::Verses { start, end } })
        },
{
    text::law_trimming_cuts_white_space(book);
}

/// The requests that there are name a book and have positive numbers in order.
pub proof fn law_validity(book: Seq<char>, range: RangeView)
    ensures
        (RequestView { book, range }).is_valid() <==> (exists|i: int|
            0 <= i < book.len() && !text::is_white_space(#[trigger] book[i])) && match range {
            RangeView::Chapters { start, end } => 1 <= start && start <= end,
            RangeView::Verses { start, end } => {
                &&& 1 <= start.chapter && 1 <= start.verse && 1 <= end.chapter && 1 <= end.verse
                &&& start.chapter < end.chapter || (start.chapter == end.chapter && start.verse
                    <= end.verse)
            },
        },
{
    text::law_trimming_cuts_white_space(book);
}

/// The text of a passage: that of its only verse, or what its other verses give, a space, and
/// the text of its last verse.
pub proof fn law_passage_text(request: RequestView, verses: Seq<VerseView>, verse: VerseView)
    ensures
        (PassageView { request, verses: seq![] }).text() == Seq::<char>::empty(),
        (PassageView { request, verses: seq![verse] }).text() == verse.text,
        verses.len() > 0 ==> (PassageView { request, verses: verses.push(verse) }).text() == (
        PassageView { request, verses }).text() + seq![' '] + verse.text,
{
    let texts = verses.map_values(|verse: VerseView| verse.text);
    text::law_joined(texts, verse.text, seq![' ']);
    assert(Seq::<VerseView>::empty().map_values(|verse: VerseView| verse.text) =~= seq![]);
    assert(seq![verse].map_values(|verse: VerseView| verse.text) =~= seq![verse.text]);
    assert(verses.push(verse).map_values(|verse: VerseView| verse.text) =~= texts.push(verse.text));
}

/// The views of verses, ranges and requests are their own, part for part.
pub proof fn law_views(verse: Verse, verses: Seq<Verse>, range: PassageRange)
    ensures
        verse@.sid == verse.sid@,
        verse@.chapter == verse.chapter,
        verse@.number == verse.number@,
        verse.alternate_number is Some <==> verse@.alternate_number is Some,
        verse.alternate_number is Some ==> verse@.alternate_number->0 == verse.alternate_number->0@,
        verse.published_number is Some <==> verse@.published_number is Some,
        verse.published_number is Some ==> verse@.published_number->0 == verse.published_number->0@,
        verse@.text == verse.text@,
        verse_views(verses).len() == verses.len(),
        forall|i: int| 0 <= i < verses.len() ==> verse_views(verses)[i] == (#[trigger] verses[i])@,
        range matches PassageRange::Chapters { start, end } ==> range@ == (RangeView::Chapters {
            start,
            end,
        }),
        range matches PassageRange::Verses { start, end } ==> range@ == (RangeView::Verses {
            start: start@,
            end: end@,
        }),
{
}

/// The view of a request that may be invalid is that of the request or of the reason.
pub proof fn law_requested(request: Result<PassageRequest, InvalidPassageRequest>)
    ensures
        request matches Ok(request) ==> requested(Ok(request)) == Ok::<RequestView, Seq<char>>(
            request@,
        ),
        request matches Err(error) ==> requested(Err(error)) == Err::<RequestView, Seq<char>>(
            error@,
        ),
{
}

} // verus!
