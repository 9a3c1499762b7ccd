# pdfrs

A library for writing PDF documents with embedded OpenType fonts, verified with Verus.

- `src/otf`: reading, subsetting and writing OpenType (TrueType) fonts: the table directory and
  the tables head, hhea, maxp, loca, OS/2, cmap (formats 4 and 12), glyf, hmtx, name and post,
  with the laws that writing and reading a font gives it back and that the check sum adjustment
  balances the written font.
- `src/serde_pdf`: the PDF object syntax: a reader and a writer of numbers, strings, names,
  arrays, dictionaries, streams and references.
- `src/fonts`, `src/layout`, `src/writer.rs`, `src/idseq.rs`: font subsets of a document, text
  chunks between line break opportunities, and the cross-reference table.
- `src/document.rs`: the objects that end a document (page tree, catalog, pages, content
  streams) and its trailer, as bytes, and the step that ends a document.
- `app/`: what Verus does not see: serde glue, floating point font metrics, writing to
  `io::Write`, the document builder that drives `src/document.rs`, and error types with
  `Display`.
