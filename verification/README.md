# patchwork

Structural search and replace for source code: a code snippet (or a
tree-sitter query) is matched against the syntax tree of the source, and the
matches can be printed, replaced, deleted, or have code inserted before or
after them.

## Layout

- `src/` is the verified library (Verus):
  - `language.rs` — the supported languages, chosen by file extension or by
    name, and their grammars;
  - `syntax.rs` — syntax trees as plain values, assembled from the preorder
    walk of a tree-sitter tree;
  - `matcher.rs` — structural matching of a snippet, collection of matches,
    and tree-sitter queries;
  - `edit.rs` — turning matches into edits and applying edits to text;
  - `context.rs` — inserting code where a context snippet ends in Java source;
  - `cli.rs` — the command line as data, and its pattern/query rule;
  - `text.rs` — character helpers and UTF-8 lemmas;
  - `ts.rs` — the trusted side of the tree-sitter crates: the outside types,
    the names for what tree-sitter computes (the preorder records of a
    parsed text, the outcome of compiling and running a query), and the
    wrappers that make the calls.

What tree-sitter computes is named rather than restated: the contracts of
`find_snippet_matches`, `find_query_matches` and `patch` are exact over
those names, and the work done on their results is proved in full
(`match_snippet`, `select_query_targets`, `patch_trees`). Each grammar is
tagged with its language (`Lang::grammar`), and the parser's records form a
preorder walk whose nodes lie in the text on character boundaries. From
that the library proves that a tree read back from tree-sitter's records is
unique up to the values it holds (`lemma_flatten_injective`), that every
result depends on those values alone, and that every match lies in the
source on character boundaries, so the edits made at the matches can be
applied (`lemma_edits_at_matches_fit`).
