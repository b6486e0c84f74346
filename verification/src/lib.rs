//! Read unpacked Digital Bible Library (DBL) bundles and select passages from
//! their USX scripture files.
//!
//! Start with [`ScriptureLibrary::discover`], which tells the bundles of a
//! directory in path order. Each is opened by [`DblBundle::open`] from its
//! metadata. Bundle metadata includes its localized display name, preferred
//! abbreviation, canonicalized [`icu_locale::Locale`], writing direction, and
//! available books. USX documents are parsed on demand when [`Book::verses`] or
//! [`DblBundle::passage`] is called. Call [`usx::book_code`] and [`usx::verses`]
//! to parse a USX document without a DBL bundle.
//!
//! This crate reads no files. Functions take the content of a document as
//! bytes; where several are needed, one after the other, a value such as
//! [`BundleDraft`] or [`Discovery`] tells which is next.
//!
//! Passage requests are structured values rather than strings. Constructors on
//! [`PassageRequest`] support one chapter, a chapter range, one verse, a verse
//! range within a chapter, or a range spanning chapters.
//!
//! What a function does is stated over views: a document is a sequence of
//! bytes, read as the events of [`xml::document_events`], and a text is a
//! sequence of characters.

pub mod bundle;
pub mod error;
pub mod library;
pub mod locale;
pub mod metadata;
pub mod metadata_laws;
pub mod passage;
pub mod scripture;
pub mod text;
pub mod usx;
pub mod usx_laws;
pub mod xml;

pub use bundle::{Book, BookNames, BundleDraft, DblBundle, ScriptDirection};
pub use error::Error;
pub use library::{Directory, DirectoryEntry, Discovery, ScriptureLibrary, METADATA_FILE};
pub use passage::{
    InvalidPassageRequest, Passage, PassageRange, PassageRequest, Verse, VerseReference,
};
