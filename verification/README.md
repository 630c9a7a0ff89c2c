# rpl

The front end of a compiler for a small graph language, verified with
Verus.

- `src/compiler/tokenizer.rs` turns source text into tokens, rule by rule,
  and keeps the token stream free of redundant separators.
- `src/compiler/listing.rs` lists a token stream as text.
- `src/compiler/expander.rs`, `normalize.rs`, `typer.rs` and `reducer.rs`
  resolve labels through nested environments, normalize parsed trees, and
  lay a tree out as a flat sequence of code points.
- `src/garbage/` holds the earlier parsers, expanders and reducer that the
  language went through, each with the syntax tree it works on.
- `src/env.rs` is the string-keyed environment they share.
- `app/main.rs` is the command-line program: it reads a source file and
  writes the tokens and the parsed tree beside it.

The grammar of each parser is stated as spec functions over token views,
and the parser is proved to follow it. Every function in `src/` carries a
contract that Verus proves, except the small wrappers marked
`#[verifier::external_body]`: the regular-expression match of the
tokenizer, the `format!` calls that write messages and token listings, and
the parse of an integer literal. Their contracts are trusted, and each
states its claim in its doc comment; where a result takes more than a few
lines to describe (a regex match, a `{:?}` rendering) it is named by an
uninterpreted spec function rather than described.
