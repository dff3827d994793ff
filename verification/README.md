# rustelier

The core of a small workspace editor, written in Verus and verified: the
file tree and Explorer ordering, tabs and their history, the command
overlay, repository search, Markdown blocks, syntax highlighting spans,
the file watcher's bookkeeping, git status handling and the local
control token.

- `src/` is the verified library. Each module states its behaviour as
  `requires` / `ensures` contracts over spec functions and views, and the
  properties that span several calls stand as public proof functions
  (their names start with `lemma_`).
- Calls into outside crates (tree-sitter, pulldown-cmark, nucleo-matcher,
  grep-regex, ignore) and into parts of std without a Verus specification
  sit behind small trusted wrappers, each with a doc comment saying what
  its contract claims of the outside function.
- `tests/` runs the library on concrete values.
- `app/` is a thin command-line front end (`index`, `status`, `search`,
  `outline`, `commit`, `token`) that does the file, git and terminal work
  and hands plain values to the library.
