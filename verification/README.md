# compiler

A verified front end for a small statement language: a lexer, a recursive descent parser that
recovers from errors, and a Pratt parser for expressions.

- `src/grammar.rs` defines what each production makes of a token sequence.
- `src/parser/` holds the parser, proved equal to it.
- `src/lexer.rs` and `src/lexer/` split a text into tokens.
- `src/laws/` proves what follows: no token gets lost, errors come in the order of the text and
  do not depend on what was parsed before, operators group by their binding powers, and a parse
  is free of errors exactly on the programs of the language, none of which can be read in two
  ways.
- `app/` is the command line.
