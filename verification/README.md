# scripture_lib

A verified reader for unpacked [Digital Bible Library](https://thedigitalbiblelibrary.org/)
bundles. It finds bundle folders by their `metadata.xml`, indexes their USX books,
exposes canonicalized locales through ICU4X's `icu_locale::Locale`, and selects
passages.

- `src/` is the library. It is written in Verus: each function states what it does
  in its contract, and the functions named `law_...` state what holds of all
  documents, requests and bundles.
  - `text`: operations on sequences of characters
  - `xml`: events of an XML document, by way of `quick_xml`
  - `passage`: passage requests and the verses that they select
  - `usx`: verses and book codes of USX documents
  - `metadata`: the metadata document of a bundle
  - `locale`: locale identifiers, by way of `icu_locale`
  - `bundle`: bundles and their books
  - `library`: collections of bundles
  - `error`: the errors of the library
- `tests/` runs the library on documents held in memory.
- `app/` reads files and lists the bundles under a folder.

The library reads no files. A function takes the content of a document as bytes;
where several documents are needed one after the other, `Discovery` and
`BundleDraft` tell which is next. `app/files.rs` shows their use.
