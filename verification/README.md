# cypher

A linter for Cypher sources and for the ```` ```cypher ```` blocks of Markdown documents,
written in Verus. Syntax trees and query matches come from tree-sitter; everything the
linter decides from them is verified.

## Layout

- `src/` — the verified library.
  - `text`, `position`: character-level models of trimming and line splitting, and the
    conversions between byte offsets and LSP line / UTF-16 column positions, with their
    round trip proved.
  - `markdown`: finding the Cypher blocks of a Markdown document, and where they stand.
  - `rules`: the rule file format (`;; Key: value` headers, then a query), loading rules
    and picking the ones a run asks for.
  - `syntax`, `tree`: the tree-sitter calls, and syntax trees as plain values.
  - `analysis`: which diagnostics a source gets from its tree, the rules' matches and its
    doc comments (parse errors, structural, contract and cross-reference rules).
  - `lint`: linting a source or a Markdown document end to end.
  - `report`, `session`: exit status, machine-readable result, report spans and codes;
    input choice, file selection and the set of paths already linted.
- `tests/` — tests of the library on concrete values.
- `app/` — the `cypher` program: command line, file and directory reading, printing.
  It needs the Cypher and doc-comment grammars and the built-in `.scm` rule files of the
  project that the linter belongs to.
