# tokenize

Text tokenizers in Verus: word, sentence (Punkt), tweet, Toktok, NIST,
multi-word-expression, S-expression, syllable and line/space/tab tokenizers,
with contracts that state each result as a spec function over character
sequences. Spans are character offsets.

- `src/` — the verified library. Regular expressions go through the `regex`
  and `fancy-regex` crates behind the wrappers in `src/rx.rs`, whose results
  are named there; everything around them is verified.
- `tests/` — tests on concrete values.
- `app/` — the Python bindings (pyo3), parallel batch helpers (rayon), and the
  floating-point scoring of TextTiling.
