//! The errors of this crate.

use std::path::PathBuf;

use quick_xml::encoding::EncodingError;
use quick_xml::escape::EscapeError;
use quick_xml::Error as XmlError;
use vstd::prelude::*;

use crate::passage::{InvalidPassageRequest, PassageRequest, RequestView};

verus! {

#[verifier::external_type_specification]
#[verifier::external_body]
pub struct ExPathBuf(PathBuf);

/// Cloning a `std::path::PathBuf` gives an equal path.
pub assume_specification[ <PathBuf as Clone>::clone ](path: &PathBuf) -> (copy: PathBuf)
    ensures
        copy == *path,
;

/// An error encountered while loading DBL metadata, parsing USX, or selecting a passage.
#[derive(Debug)]
#[allow(inconsistent_fields)]
pub enum Error {
    /// An XML document was malformed.
    Xml(XmlError),
    /// XML text could not be decoded with the document's encoding.
    XmlEncoding(EncodingError),
    /// An XML character or entity reference was invalid.
    XmlEscape(EscapeError),
    /// A passage request violates its construction invariants.
    InvalidPassageRequest(InvalidPassageRequest),
    /// The requested directory does not contain `metadata.xml`.
    MissingMetadata(PathBuf),
    /// A required DBL metadata field is absent.
    MissingField(&'static str),
    /// A DBL language identifier is not a valid locale.
    InvalidLocale {
        /// Locale identifier read from DBL metadata.
        value: String,
        /// Diagnostic reported by the locale parser.
        reason: String,
    },
    /// A required USX element or attribute is absent.
    MissingUsxField(&'static str),
    /// The document declares a USX version unsupported by this crate.
    UnsupportedUsxVersion(String),
    /// A USX book code does not have three characters.
    InvalidBookCode(String),
    /// The USX book code differs from the code declared by DBL metadata.
    MismatchedBookCode {
        /// Book code declared by DBL metadata.
        expected: String,
        /// Book code found in the USX document.
        actual: String,
    },
    /// A USX chapter end refers to a different chapter than the open chapter.
    MismatchedChapterEnd {
        /// Scripture identifier of the open chapter.
        expected: String,
        /// Scripture identifier on the chapter-ending milestone.
        actual: String,
    },
    /// A chapter-ending milestone appears when no chapter is open.
    UnexpectedChapterEnd(String),
    /// A USX scripture identifier does not describe its milestone.
    InvalidUsxIdentifier {
        /// Attribute containing the invalid identifier.
        attribute: &'static str,
        /// Identifier implied by the milestone's book and number attributes.
        expected: String,
        /// Identifier read from the document.
        actual: String,
    },
    /// A verse-ending milestone refers to a different verse than the open verse.
    MismatchedVerseEnd {
        /// Scripture identifier of the open verse.
        expected: String,
        /// Scripture identifier on the verse-ending milestone.
        actual: String,
    },
    /// A verse-ending milestone appears when no verse is open.
    UnexpectedVerseEnd(String),
    /// A verse continuation refers to a different verse than the open verse.
    MismatchedVerseContinuation {
        /// Scripture identifier of the open verse.
        expected: String,
        /// Scripture identifier on the continuation element.
        actual: String,
    },
    /// A USX milestone that must be empty contains nested content.
    NonEmptyUsxMilestone(&'static str),
    /// A USX element uses a style that is invalid for its role.
    InvalidUsxStyle {
        /// USX element containing the invalid style.
        element: &'static str,
        /// Style required by USX in this context.
        expected: &'static str,
        /// Style read from the document.
        actual: String,
    },
    /// No book in the bundle matches the requested name or code.
    BookNotFound(String),
    /// The requested passage selects no verses in the bundle.
    PassageNotFound(PassageRequest),
    /// A USX chapter number is not a positive integer.
    InvalidChapterNumber(String),
}

/// The view of an [`Error`].
pub enum ErrorView {
    Xml(XmlError),
    XmlEncoding(EncodingError),
    XmlEscape(EscapeError),
    InvalidPassageRequest(Seq<char>),
    MissingMetadata(PathBuf),
    MissingField(Seq<char>),
    InvalidLocale { value: Seq<char>, reason: Seq<char> },
    MissingUsxField(Seq<char>),
    UnsupportedUsxVersion(Seq<char>),
    InvalidBookCode(Seq<char>),
    MismatchedBookCode { expected: Seq<char>, actual: Seq<char> },
    MismatchedChapterEnd { expected: Seq<char>, actual: Seq<char> },
    UnexpectedChapterEnd(Seq<char>),
    InvalidUsxIdentifier { attribute: Seq<char>, expected: Seq<char>, actual: Seq<char> },
    MismatchedVerseEnd { expected: Seq<char>, actual: Seq<char> },
    UnexpectedVerseEnd(Seq<char>),
    MismatchedVerseContinuation { expected: Seq<char>, actual: Seq<char> },
    NonEmptyUsxMilestone(Seq<char>),
    InvalidUsxStyle { element: Seq<char>, expected: Seq<char>, actual: Seq<char> },
    BookNotFound(Seq<char>),
    PassageNotFound(RequestView),
    InvalidChapterNumber(Seq<char>),
}

impl View for Error {
    type V = ErrorView;

    open spec fn view(&self) -> ErrorView {
        match *self {
            Error::Xml(error) => ErrorView::Xml(error),
            Error::XmlEncoding(error) => ErrorView::XmlEncoding(error),
            Error::XmlEscape(error) => ErrorView::XmlEscape(error),
            Error::InvalidPassageRequest(error) => ErrorView::InvalidPassageRequest(error@),
            Error::MissingMetadata(root) => ErrorView::MissingMetadata(root),
            Error::MissingField(field) => ErrorView::MissingField(field@),
            Error::InvalidLocale { value, reason } => ErrorView::InvalidLocale {
                value: value@,
                reason: reason@,
            },
            Error::MissingUsxField(field) => ErrorView::MissingUsxField(field@),
            Error::UnsupportedUsxVersion(version) => ErrorView::UnsupportedUsxVersion(version@),
            Error::InvalidBookCode(code) => ErrorView::InvalidBookCode(code@),
            Error::MismatchedBookCode { expected, actual } => ErrorView::MismatchedBookCode {
                expected: expected@,
                actual: actual@,
            },
            Error::MismatchedChapterEnd { expected, actual } => ErrorView::MismatchedChapterEnd {
                expected: expected@,
                actual: actual@,
            },
            Error::UnexpectedChapterEnd(actual) => ErrorView::UnexpectedChapterEnd(actual@),
            Error::InvalidUsxIdentifier {
                attribute,
                expected,
                actual,
            } => ErrorView::InvalidUsxIdentifier {
                attribute: attribute@,
                expected: expected@,
                actual: actual@,
            },
            Error::MismatchedVerseEnd { expected, actual } => ErrorView::MismatchedVerseEnd {
                expected: expected@,
                actual: actual@,
            },
            Error::UnexpectedVerseEnd(actual) => ErrorView::UnexpectedVerseEnd(actual@),
            Error::MismatchedVerseContinuation {
                expected,
                actual,
            } => ErrorView::MismatchedVerseContinuation { expected: expected@, actual: actual@ },
            Error::NonEmptyUsxMilestone(element) => ErrorView::NonEmptyUsxMilestone(element@),
            Error::InvalidUsxStyle { element, expected, actual } => ErrorView::InvalidUsxStyle {
                element: element@,
                expected: expected@,
                actual: actual@,
            },
            Error::BookNotFound(name) => ErrorView::BookNotFound(name@),
            Error::PassageNotFound(request) => ErrorView::PassageNotFound(request@),
            Error::InvalidChapterNumber(number) => ErrorView::InvalidChapterNumber(number@),
        }
    }
}

/// The view of what an operation returns.
pub open spec fn outcome<T: View>(result: Result<T, Error>) -> Result<T::V, ErrorView> {
    match result {
        Ok(value) => Ok(value@),
        Err(error) => Err(error@),
    }
}

impl From<InvalidPassageRequest> for Error {
    fn from(error: InvalidPassageRequest) -> (result: Self) {
        Error::InvalidPassageRequest(error)
    }
}

impl vstd::std_specs::convert::FromSpecImpl<InvalidPassageRequest> for Error {
    open spec fn obeys_from_spec() -> bool {
        true
    }

    open spec fn from_spec(error: InvalidPassageRequest) -> Self {
        Error::InvalidPassageRequest(error)
    }
}

impl From<XmlError> for Error {
    fn from(error: XmlError) -> (result: Self) {
        Error::Xml(error)
    }
}

impl vstd::std_specs::convert::FromSpecImpl<XmlError> for Error {
    open spec fn obeys_from_spec() -> bool {
        true
    }

    open spec fn from_spec(error: XmlError) -> Self {
        Error::Xml(error)
    }
}

impl From<EncodingError> for Error {
    fn from(error: EncodingError) -> (result: Self) {
        Error::XmlEncoding(error)
    }
}

impl vstd::std_specs::convert::FromSpecImpl<EncodingError> for Error {
    open spec fn obeys_from_spec() -> bool {
        true
    }

    open spec fn from_spec(error: EncodingError) -> Self {
        Error::XmlEncoding(error)
    }
}

impl From<EscapeError> for Error {
    fn from(error: EscapeError) -> (result: Self) {
        Error::XmlEscape(error)
    }
}

impl vstd::std_specs::convert::FromSpecImpl<EscapeError> for Error {
    open spec fn obeys_from_spec() -> bool {
        true
    }

    open spec fn from_spec(error: EscapeError) -> Self {
        Error::XmlEscape(error)
    }
}

/// The view of an error is its own, part for part.
pub proof fn law_error_views(error: Error)
    ensures
        error matches Error::InvalidPassageRequest(value) ==> error@ == ErrorView::InvalidPassageRequest(value@),
        error matches Error::MissingField(value) ==> error@ == ErrorView::MissingField(value@),
        error matches Error::MissingUsxField(value) ==> error@ == ErrorView::MissingUsxField(value@),
        error matches Error::UnsupportedUsxVersion(value) ==> error@ == ErrorView::UnsupportedUsxVersion(value@),
        error matches Error::InvalidBookCode(value) ==> error@ == ErrorView::InvalidBookCode(value@),
        error matches Error::UnexpectedChapterEnd(value) ==> error@ == ErrorView::UnexpectedChapterEnd(value@),
        error matches Error::UnexpectedVerseEnd(value) ==> error@ == ErrorView::UnexpectedVerseEnd(value@),
        error matches Error::NonEmptyUsxMilestone(value) ==> error@ == ErrorView::NonEmptyUsxMilestone(value@),
        error matches Error::BookNotFound(value) ==> error@ == ErrorView::BookNotFound(value@),
        error matches Error::PassageNotFound(value) ==> error@ == ErrorView::PassageNotFound(value@),
        error matches Error::InvalidChapterNumber(value) ==> error@ == ErrorView::InvalidChapterNumber(value@),
        error matches Error::Xml(value) ==> error@ == ErrorView::Xml(value),
        error matches Error::XmlEncoding(value) ==> error@ == ErrorView::XmlEncoding(value),
        error matches Error::XmlEscape(value) ==> error@ == ErrorView::XmlEscape(value),
        error matches Error::MissingMetadata(value) ==> error@ == ErrorView::MissingMetadata(value),
        error matches Error::InvalidLocale { value, reason } ==> error@ == (ErrorView::InvalidLocale {
            value: value@,
            reason: reason@,
        }),
        error matches Error::MismatchedBookCode { expected, actual } ==> error@ == (ErrorView::MismatchedBookCode {
            expected: expected@,
            actual: actual@,
        }),
        error matches Error::MismatchedChapterEnd { expected, actual } ==> error@ == (ErrorView::MismatchedChapterEnd {
            expected: expected@,
            actual: actual@,
        }),
        error matches Error::InvalidUsxIdentifier { attribute, expected, actual } ==> error@ == (ErrorView::InvalidUsxIdentifier {
            attribute: attribute@,
            expected: expected@,
            actual: actual@,
        }),
        error matches Error::MismatchedVerseEnd { expected, actual } ==> error@ == (ErrorView::MismatchedVerseEnd {
            expected: expected@,
            actual: actual@,
        }),
        error matches Error::MismatchedVerseContinuation { expected, actual } ==> error@ == (ErrorView::MismatchedVerseContinuation {
            expected: expected@,
            actual: actual@,
        }),
        error matches Error::InvalidUsxStyle { element, expected, actual } ==> error@ == (ErrorView::InvalidUsxStyle {
            element: element@,
            expected: expected@,
            actual: actual@,
        }),
{
}

/// The view of what an operation returns is that of its value or of its error.
pub proof fn law_outcomes<T: View>(value: T, error: Error)
    ensures
        outcome(Ok::<T, Error>(value)) == Ok::<T::V, ErrorView>(value@),
        outcome(Err::<T, Error>(error)) == Err::<T::V, ErrorView>(error@),
{
}

} // verus!
