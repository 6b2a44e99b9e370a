# const_duration_macro

Human-readable `Duration` literals such as `9 hrs`, `1h 30m` or `250ms`, parsed from
their UTF-8 bytes by a parser that is verified with Verus against a statement of the
grammar.

- `src/grammar.rs`: the grammar over bytes (`spec_parse`) and the parser's errors.
- `src/units.rs`: the table of unit spellings and the byte tests that look a unit up.
- `src/parse.rs`: `parse_nanos`, `try_parse` and `parse_duration`, each proved to
  compute what `spec_parse` says.
- `src/laws.rs`: what holds of every literal: spaces around and between pairs, sums of
  pairs, order, the errors, the bound by `Duration::MAX`.
- `src/edits.rs`: edits that leave every literal's meaning unchanged, refused ones
  included: spaces put in or taken out between tokens, zeros put in front of a number.
- `app/lib.rs`: the `duration!` macro over `try_parse`.

The parser is not a `const fn`, so `duration!` parses where it runs rather than at
compile time.
