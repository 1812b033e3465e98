# md2html

A small Markdown to HTML converter whose core is verified with Verus.

- `src/lexer`: the scanner that turns Markdown text into tokens (and a simpler tokenizer),
  with the laws that tie every token back to the source text and its line.
- `src/parser`: the parsers from tokens to block and inline nodes, the spec grammar they
  follow (`grammar.rs`), the emphasis-delimiter pass and its laws (`emphasis_laws.rs`), the
  node visitor, and a printer for the tree.
- `src/transformer`: the HTML tree, its rendering as indented text, and the page wrapper
  with its title and index of pages (links made from the pages' paths).
- `src/markdown`: the line-level converters for paragraphs, headings and bold text.
- `src/run.rs`: the whole pipeline from Markdown text to an HTML page.
- `app/`: the command line program (argument handling, files, logging, the interactive
  prompt), which is not verified.
