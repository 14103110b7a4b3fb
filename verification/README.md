# seekrs

A command-line file search tool (name, fuzzy, regex and content search,
size/date/extension filters, duplicate detection, directory tree) whose
decision logic is a library verified with Verus.

## Layout

- `src/` — the verified library:
  - `filters.rs`: size parsing (`10KB`, `1.5MB`, …), size, date and
    extension filters.
  - `glob.rs`: case-insensitive `*` wildcard matching, with its
    specification and laws.
  - `search.rs`: search settings, the verdict on each walked entry,
    result ordering, result limit and the split of work between threads.
  - `content.rs`: line-by-line content search (binary detection, first
    three matching lines, snippet cutting).
  - `duplicate.rs`: MD5 hex digests, grouping of files by digest, wasted
    space.
  - `tree.rs`: order, filtering and drawing of one directory level of the
    tree.
  - `display.rs`, `preview.rs`: icons and human-readable sizes, preview
    lines.
  - `order.rs`, `text.rs`: a verified stable sort and text helpers.
  - `outside.rs`: the trusted calls into `regex`, `fuzzy-matcher`,
    `chrono`, `md5` and `std::path`.
- `app/` — the executable: argument parsing, directory walking, file
  reading, threads, colored output, opening editors and self-upgrade.
- `tests/` — tests of the library on concrete values.
