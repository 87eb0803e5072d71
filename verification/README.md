# ducktails

LogQL over log files. The library, verified with Verus, holds the query
language and the decisions around it; the program in `app/` runs the plans
on Apache DataFusion.

- `src/scanner.rs`: the tokenizer, specified by a lexical grammar over the
  characters not yet consumed (`scan_token`).
- `src/parser.rs`: the recursive-descent parser, specified rule by rule
  (`parse_query`), with laws on whitespace between tokens and on appending
  a line filter.
- `src/error.rs`: parse errors and the messages users read.
- `src/logfmt.rs`: the non-strict logfmt reader behind `| logfmt`.
- `src/plan.rs`: a query as a plan of filters and parser stages.
- `src/table.rs`: the rows of a log file, the files a glob selects, and the
  check on the FILENAME argument.
- `src/text.rs`: character classes and whitespace trimming.
- `app/`: the command line, the DataFusion table provider and scalar
  function, and the translation of a plan into a DataFusion `LogicalPlan`.
