# docsy

The verified core of a desktop document toolkit: Markdown ⇄ Office
conversion planning, PDF text-layer extraction to Markdown, PDF CMap and
binary CMap parsing, anti-copy CMap scrambling, page-number recognition,
header/footer artifact bookkeeping and edit selection, grouping of
repeated header/footer lines into candidates, split suggestions for evidence
bundles (from running headers and page-number footers), PDF string
decoding, Word-document rendering to Markdown over a plain document
model and its picture relationships, MathML to Office Math, chunked processing of large PDFs,
bookmarks, blank separator pages, rich-Markdown media detection and the
registry of long-running operations.

- `src/` is the library, written in Verus: every function carries a
  contract, and the laws that relate functions are proof functions
  (`lemma_*`) next to them.
- `app/` is ordinary Rust around it: files, `pdftotext` and `qpdf`
  processes, lopdf documents, docx-rs and zip archives, JSON,
  cancellation tokens.
- `tests/` runs the library on concrete inputs.

Calls into other crates (regex, encoding_rs, pulldown-cmark, sha2, quick-xml's
event reader, lopdf's
PDFDocEncoding decoder, std's
path and UTF-8 functions) go through small trusted
wrappers whose contracts say what the call returns, or name the result
where it takes pages to state.
