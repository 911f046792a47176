# Block phase of a Markdown parser, verified with Verus

The library reads Markdown text line by line and builds the tree of its
blocks (document, block quotes, paragraphs, ATX headings, thematic breaks) in
an arena, keeping the chain of still-open blocks on a stack.

- `src/block/parser.rs`: `BlockParser`, its state model and the spec of one
  line of input (`spec_process_line`) and of a whole input (`spec_parse`).
- `src/block/container`, `src/block/leaf`: the line matchers, each with the
  spec it meets.
- `src/block/libs`: indentation, child insertion, character classes and
  trimming.
- `src/block/invariants.rs`: the well-formedness of the parser's state and
  the proofs that every operation keeps it.
- `src/block/shape.rs`: the shape of the tree the parser builds, and the
  proofs that each step keeps it.
- `src/block/line_step.rs`: what one line step keeps, from the weakest
  invariant it needs.
- `src/block/laws.rs`: properties that span operations.
- `src/parser/blocks.rs`: the arena and the block types.
- `src/parser/display.rs`, `src/parser/formatting.rs`: the text forms of the
  tree and of its blocks.
- `app/main.rs`: reads a file, parses it and prints the tree.
