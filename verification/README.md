# morphe

An opinionated formatter for Answer Set Programming (clingo and ASP-Core-2),
written in Verus: the formatter's logic is a library whose behaviour is stated
in `requires`/`ensures` contracts and proved.

The library never trusts its own layout: it re-reads its output and certifies
that only whitespace (and, unless spellings are preserved, synonym spellings)
changed. The opt-in reorder moves whole top-level statements into a canonical
section order and certifies that it only permuted units within the regions its
barriers divide.

## Layout

- `src/` — the verified library.
  - `doc.rs`, `layout.rs`, `emit.rs` — the document algebra, its width-aware
    renderer (proved equal to a declarative layout), and the group builders.
  - `tree.rs`, `lower.rs` — the tree model the lowering walks, the comment
    plan, and the house style as a walk whose record is the program's
    significant tokens, documentation comments and `#script` bodies, once
    each, in source order, with the separator asked before each one's text
    by the style's tables (rules, aggregates, term walks, the other node
    kinds); the document holds the texts in the order each construct places
    them; trivia-comment weaving is stated step by step.
  - `order.rs` — the ordinary shape of a statement, under which that
    placement order is the source order.
  - `certify.rs` — the layout certificate, the check that binds the embedded
    pass, and the reorder's permutation certificate with its characterization.
  - `reorder.rs` — the item stream, the stable bucket sort and its laws
    (permutation, barriers held, sections in order, stability, idempotence),
    the reassembly, and the link to the permutation certificate.
  - `embedded.rs`, `stylua.rs`, `ruff.rs` — the `#script` seam: the backend
    registry, the settling of backend answers against the skeleton, and the
    Lua and Python backends' verified parts. The calls into StyLua and Ruff
    are made by `app/`, inside a boundary that contains a panic.
  - `pipeline.rs`, `options.rs`, `outcome.rs`, `cli.rs`, `support.rs`,
    `color.rs`, `diff.rs`, `syntax.rs`, `text.rs` — the format result, the
    options and configuration resolution, exit outcomes, the run summary,
    terminal painting, diffs, and character-level helpers.
- `tests/` — executable tests of the library.
- `app/` — the `morphe` command: argument parsing, files, directories,
  configuration files, the parser bridge, and the embedded backends' calls
  with their panic boundary.
