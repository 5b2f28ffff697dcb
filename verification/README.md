# cljvindent_core

Vertical alignment of Clojure, ClojureScript and EDN forms, written in Verus:
each executable function of the library carries a contract that Verus proves,
but for two trusted wrappers whose contracts Verus takes as given: `get_tree`
(the call into tree-sitter, whose result is only named, `clojure_tree`) and
`push_char` (`String::push`).

## Layout

- `src/helpers.rs`: the text model (characters and UTF-8 byte offsets, line
  starts, columns, last lines, whitespace) and the shifting of multi-line
  blocks, with the law that moving a block right and back restores it.
- `src/syntax.rs`: the syntax tree that tree-sitter's Clojure grammar gives,
  held as plain values (preorder nodes with parent indices); the one call into
  tree-sitter is `get_tree`. Children lists leave comments and `#_` forms out.
- `src/model.rs`: the values that pass between the parts (`Pair`,
  `Extracted`, `AlignKind`).
- `src/alignable.rs`: the `Alignable` trait that every aligner implements.
- `src/aligners/generic_builder.rs`: the row aligner shared by the forms that
  align pairs (`build_aligned_string`), with the laws that right-hand sides
  line up, that alignment changes whitespace only, and that aligning aligned
  text changes nothing.
- `src/aligners/let_like.rs`: the aligner of `let` and the binding forms like
  it: extraction of the bindings from the tree, the binding-vector and body
  builders, and the same three laws for them.
- `src/engine.rs`: `align_first_form`, which parses a text and aligns its
  first form with the aligner that takes it.
- `app/main.rs`: the command-line front end (argument parsing, logging, I/O).
- `tests/`: tests on concrete values.
