# ini

Reading, editing and writing INI documents, verified with Verus.

A document is a list of categories (`[name]` headers), each holding variables
(`name=value` lines). Names and values are read from their raw text by an
`IniDecoder` and written back by an `IniEncoder`; `TrimmedText` and `PlainText`
give the usual settings (names trimmed, values kept as they stand).

## Layout

- `src/text.rs`: the character model: white space, trimming, searching, splitting
  into lines, joining.
- `src/model.rs`: the mathematical model of a document, lookups and updates by name,
  and the text a document is written as.
- `src/coding.rs`: the decoder and encoder traits and the default ones.
- `src/parse.rs`: reading text into categories, specified line by line.
- `src/variable.rs`, `src/category.rs`, `src/ini.rs`: the document types and their
  operations.
- `src/laws.rs`: what holds across operations: written text reads back as the same
  document, a lookup gives what was set, setting leaves other variables alone, and more.
- `app/`: reading documents from files and saving them.
