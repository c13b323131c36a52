# oxc_markdown_parser

A CommonMark + GFM parser that produces a style-preserving typed AST whose nodes carry
spans into the source, written in Verus.

What is proved, and what is not:
- the leaf scanners (block starts, link destinations and titles, labels, autolinks,
  entities, raw HTML, tables) have exact contracts over spec functions;
- the block engine's steps state what each one appends, consumes or closes; opening a
  line states which leaf block its first start gives, and which container a `>`, a list
  item or a footnote definition opens (at its marker; an item with its marker's span in a
  list of its kind, a footnote definition with its label and four-column indent), kept in
  place while the rest of the line opens what it opens; closed
  top-level blocks are never changed, so a document whose first line is a thematic break
  or an ATX heading is proved to hold that block (with its level) after the whole parse,
  the blank-line tables are proved ordered and whitespace-only, and the loosening
  table a subsequence of the full one;
- emphasis resolution is proved to keep its stacks well formed, to only add pairs whose
  ranges nest or lie apart, to join only an opening and a closing run of one marker, with
  sizes that the rule of three allows and taking two characters a side only when both
  have two (which `pairs` reports by run), and to use up every unmatched closing run; the
  tree it builds keeps every other node once and in order, with one emphasis node per
  pair and each node inside exactly the pairs holding its start; the opener search takes
  the nearest allowed opener above its scan bound, and an adjacent opener and closer that
  the rules allow always pair; that the scan bounds skip no allowed opener, and which of
  the allowed pairs form when several could, are checked by tests, not proved;
- a closing bracket is proved to form, whenever its suffix and the defined labels call
  for one, that inline, full, collapsed or shortcut link, with its kind and span;
- lowering states the node built for each token, with its span, its text facts (ASCII
  only, CJK) and its children lowered in turn, and when a text piece joins the text node
  before it; a leaf's inline content is proved to be the lowering of a tree whose leaves
  are, in order, the non-empty members of a token list lying in order within its joined
  lines (which tokens a pass finds is stated per construct, not as one function);
- that every node's span lies inside its parent, in order (span faithfulness) is
  checked by the tests, not proved.

Markdown mode (the default constructs) also recognises math, liquid tags, wiki links
and `:::` container directives. Values are never cooked: every node carries spans into
the source, and consumers slice the source through them.

## Layout

- `src/pos.rs`: spans, segments and the joined text of multi-line constructs.
- `src/syntax/`: shared lexical scanners (labels, link targets, entities, HTML, Unicode classes).
- `src/block/`: the block phase. `cursor` walks one line with tab-aware columns,
  `scan/` recognises block starts, `engine/` runs the container-stack line loop,
  `refdef` strips link reference definitions, `builder` turns the intermediate tree into the AST.
- `src/inline/`: the inline phase. `input` joins a leaf's lines and maps offsets back
  to the source, `tokenizer` makes one pass over the joined text, `link` and `emphasis`
  resolve brackets and delimiter runs, `lower` produces the AST nodes.
- `src/parser.rs`: the entry point, `Parser::parse`.
- `tests/`: executable tests of the library.

Entity decoding uses the `entities` crate and Unicode punctuation classes the
`unicode-properties` crate; both are reached through small trusted wrappers whose
contracts are documented where they are declared.
