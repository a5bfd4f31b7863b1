# nutrimatic_zh

A verified library for pattern search in Chinese text, written in Verus, with
the command-line program around it.

A query is a regular expression over Han characters with intersection (`&`),
anagrams (`<...>`), equal-character groups (`@t(A)`), and the attributes pinyin
(`@p(...)`), components (`@b(...)`), strokes (`@h(...)`) and word completion
(`@z(...)`). The search walks a compact trie of keys with frequencies, the most
frequent first, and follows the query by derivatives.

## Layout

- `src/chinese` — Han characters, and what the attribute files say of them
- `src/query` — expressions, their languages, derivatives, the query grammar
- `src/index` — writing, reading, checking, building and merging indexes
- `src/search` — best-first search of an index
- `src/corpus` — turning the known corpus sources into weighted records
- `src/web` — what the command line and the HTTP interface decide
- `src/ordered.rs`, `src/collections.rs`, `src/text.rs` — common ground
- `tests` — tests that run the library
- `app` — files, sockets, threads and the terminal

The laws of the library are the public proof functions whose names begin with
`law_`.

The program reads the attribute files `factorHan.js`, `spell.js` and `out.js`
from `data/chinese`, or from the directory in `NUTRIMATIC_ZH_DATA`, and the
pages it serves from `web_static`.
