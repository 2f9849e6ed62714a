# lexiroot

Explains English words by their morphemes: a curated morpheme table, a
segmenter that splits a word into prefixes, a root and suffixes (undoing
regular spelling changes at the root boundary), and the query surface built
on both.

## Layout

- `src/` — the library, specified and proved with Verus.
  - `morpheme`, `provenance`, `decomposition`, `source`, `error`: the record
    types.
  - `ortho`: the spelling rules undone at a suffix boundary.
  - `index`: the position-keyed form sets the segmenter searches.
  - `segment`: candidate enumeration, scoring and ranking.
  - `db`: the three queries (`analyze`, `root`, `family`).
  - `dataset`, `importer`, `sources`: reading the curated dataset and
    building the morpheme and decomposition tables.
  - `store`: checking and assembling the rows of a release database.
  - `encode`: the rows the records are written as, and the proof that
    loading those rows gives the records back.
  - `format`, `http`: what the command line prints and how the local test
    page reads a request.
  - `text`: character-level helpers and the calls into `std` they rest on.
- `tests/` — tests of the library.
- `app/` — the `lexiroot` program: SQLite reading and writing, JSON, the
  command line and the local web server.
