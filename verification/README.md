# abbrev_core

Offline engine core for a Russian abbreviation input method: it recovers
full words from consonant-heavy, vowel-omitted shorthand (`првт` → `привет`).
The library is written in Verus; every function in `src/` carries a
contract that Verus proves.

## Layout

- `src/` — the verified library.
  - `text`, `alphabet`, `strmap`: characters, lines, fields, decimal
    numbers, normalization and skeletons, a small verified string map.
  - `index`: the frequency-ordered prefix map and the skeleton, form,
    suffix and typo-tolerance indexes; `retrieval` collects candidates
    from them.
  - `lexicon`, `shortcuts`, `paradigm`, `mask`, `ngram`, `tone`, `history`:
    the data files the engine reads and the state it keeps, each with a
    line-by-line model of its parser.
  - `strip`, `rank`, `morph`, `context`, `ffi`: assembling the suggestion
    strip and the grouped strip, masking, and the plain values handed to
    the bindings.
  - `cli`, `tune`, `snapshot`, `builder`, `lm_builder`, `expand`: argument
    and data-file handling of the command-line tools, the bigram model
    builder and the paradigm expansion of a lexicon.
- `app/` — ordinary Rust around the library: the command-line tools, file
  I/O, the UniFFI and wasm-bindgen bindings, and the floating-point
  ranking, recency and tone arithmetic.
- `tests/` — tests of the library's public functions.

Laws that relate several functions are public proof functions named
`lemma_*`, next to the functions they speak of (for example
`history::lemma_tsv_roundtrip`, `lm_builder::lemma_artifact_reads_back`,
`expand::lemma_expansion_idempotent`).
