# makemessages

A library that does the work of Django's `makemessages` command — finding
translatable strings in Python, JavaScript and template sources and merging
them into gettext PO catalogs — with its behaviour stated in contracts and
proved with Verus, plus a thin command-line program around it.

## Layout

- `src/` — the verified library
  - `text.rs` — character-sequence operations with their specifications
  - `matching.rs` — regular-expression searches through `regex` and
    `fancy_regex`, and byte offsets turned into character positions
  - `extractor.rs`, `template.rs` — message extraction from sources and
    templates
  - `keywords.rs` — xgettext keyword specs and gettext alias detection; the
    program offers no `--keyword`, `--add-comments` or `--detect-aliases`
    option, and extraction uses the fixed set of gettext functions, so these
    specs are a library facility the program does not call
  - `po.rs`, `catalog.rs`, `keyed.rs` — PO strings, entries, headers,
    reading catalogs into an `indexmap::IndexMap` and merging
  - `quoting.rs` — the proof that a PO string reads back as written
  - `layout.rs` — how an entry is laid out: its lines in order, how its
    references are packed into `#:` lines, how an obsolete entry is
    written, and a fresh header's lines
  - `readback.rs` — the proof that catalog entries written out read back:
    the references as the words of their `#:` lines, the comments trimmed,
    the rest as written, for entries whose comments and references each stay
    on one line (`entry_shaped`) and whose flags have the shape the reader
    splits them by, as every flag read from a file has
  - `catalog_file.rs`, `header_block.rs` — the proof that a catalog file a
    run writes reads back as the entries written, when its header (fresh, or
    kept from the existing file) is a header block and its entries keep to
    their lines (their keys always differ)
  - `rerun.rs` — the proofs that a second run over the same sources changes
    no entry, keeps the obsolete entries, and finds the catalog in sync,
    under those same conditions and with the header written again (for a
    kept header: the header pattern's first match is the header's entry; for
    a fresh one: the same minute)
  - `plural_forms.rs` — the Plural-Forms table
  - `locales.rs`, `walker.rs`, `run.rs` — locale selection, the files a run
    examines and where their messages go, and the run's other decisions
- `app/` — argument parsing, the directory walk, file I/O and parallelism
- `tests/` — tests of the library
