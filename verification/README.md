# reader

A reader for PDF and EPUB that reads aloud: books come apart into sections and
paragraphs, paragraphs into chunks, and a speech model turns each chunk into sound
with the time at which each word is heard.

* `src/` is the library, verified with Verus. It holds what the server decides and
  computes: `text` (strings), `extract` (EPUB and PDF to paragraphs), `tts` (chunks,
  phonemes, tokens, voices, timings, pauses, the queue of the speech worker), `http`
  (tokens, uploads, clips, the files of the web page), `db`, `config`, `archive` and
  `hash`.
* `app/` is the server around it: flags, files, SQLite, HTTP, the programs that it
  runs, ONNX Runtime, and floating point.
* `tests/` runs the library.

What the library takes on trust stands in small functions marked
`#[verifier::external_body]`, each with the outside function that it calls, and in two
items `assume_specification`, for `String::push` and `char::is_alphanumeric`. Outside
types are declared in `archive`.
