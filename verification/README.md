# mbe

Macro-by-example matching, verified with Verus: fitting the token trees of a
macro call to the left-hand side of a macro rule, and binding the variables of
the rule to the pieces of the input that they take.

- `src/tt.rs`, `src/template.rs`, `src/bindings.rs`, `src/error.rs`: token
  trees, templates, bindings and errors, each with its model.
- `src/tt_iter.rs`, `src/buffer.rs`, `src/fragment.rs`: taking tokens, operators
  and syntactic fragments from the front of the input.
- `src/semantics.rs`: what matching means.
- `src/matcher.rs`: the matcher; `match_` is the entry.
- `src/laws/`: what holds of every match.
- `app/`: a timing of the matcher.

The grammar of the language is not part of the library. `match_` takes a parser
as a function from token trees and a kind of fragment to the tokens and errors
that the parser reports. What `match_` promises is stated for any grammar that
the parser follows. A rule without syntactic fragments matches the same with any
parser.
