# rgraphql

A GraphQL query-language library, verified with Verus: a tokenizer, a
recursive-descent parser into a syntax tree, and validation of parsed
documents by the rules that need no schema.

## Layout

- `token`, `lexer`, `lex_spec`, `block_spec`, `block_string`, `text`: the
  tokenizer and what it returns, stated as a function on characters
  (`lex_spec`), with the indentation removal of block strings.
- `ast`, `ast_copy`: the syntax tree, its model (`Spec*` types, reached by
  `@`) and verified copies.
- `parser`, `parse_spec`: the parser and the grammar it follows, stated as a
  function on tokens.
- `validation`, `validation_spec`, `fragment_rules`, `variable_rules`: the
  validation rules (fragment spreads, fragment cycles, unused fragments,
  anonymous and duplicate operations, variables, conflicting fields) and
  what each reports.
- `validation_laws`, `syntax_laws`: proved laws, such as "validation reports
  a fragment cycle exactly when the fragments spread each other in a cycle"
  and "the parser reports a tokenizer error exactly when the input does not
  tokenize"; lexical errors lie inside the input after every token handed
  over, and syntax errors stand at the start of a token.
- `separator_law`: a blank or comma between tokens may be replaced by
  another without changing the tokens or a lexical error.
- `poem_adapter`: the request body that an HTTP layer hands to the parser.

Block strings follow GraphQL's BlockStringValue algorithm: indentation
and blank lines are measured in spaces and tabs, so every input tokenizes
(or fails with a lexical error); the only precondition of the tokenizer and
the parser is that the input's length fits in memory.

Two choices of the validation rules are worth knowing:

- Field merging compares arguments as sets: `hero(a: 1, b: 2)` and
  `hero(b: 2, a: 1)` pass the same arguments.
- The syntax tree keeps a float literal as its text, so float arguments are
  compared by their text: `x: 1.0` and `x: 1.00` are different arguments.
