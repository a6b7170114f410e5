# pylinefix

Fixes the line-length problems a Python code formatter leaves alone: it splits
long single-line string literals into implicitly concatenated pieces, rewraps
long docstrings and comments, moves long trailing comments above their code,
and reformats SQL/JSON/markdown kept in triple-quoted strings.

The library in `src/` is written in Verus. Its functions carry contracts that
the verifier proves, except the small wrappers around tree-sitter, textwrap and
`String::push`, whose contracts are trusted as stated in their doc comments.

- `ts` — the tree-sitter parser behind trusted wrappers; what it answers
  about the node at a given path of the parse of a given source is named by
  spec functions of those two values.
- `parse` — copies tree-sitter's tree into a table of nodes (`SyntaxTree`),
  with character offsets, and states which table that is.
- `pyutil`, `chars` — lines, indentation, display columns, trimming.
- `strings`, `docstrings`, `comments`, `embedded` — the edit each kind of node
  gets, each stated as a spec function.
- `edits` — the edit set and how it is applied (sorted, overlaps dropped),
  with byte offsets into a `&str` or character offsets into a `[char]`.
- `format` — a pass (collect edits, apply them) and `format_source`.
- `config` — which `pyproject.toml` setting gives the line length.
- `cli` — the command line: the options it selects, where `pyproject.toml`
  is looked up from, and the exit status.
- `fill` — word wrapping, done by `textwrap`.

`app/` is the command-line program: parsing arguments, file discovery,
reading and writing files and `pyproject.toml`, and running sqlfluff, jq and
prettier for embedded code.
