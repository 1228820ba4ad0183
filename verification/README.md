# req_core

Parsing, variable resolution and `curl` export of `.http`-style request
files, with the behaviour of each step stated in Verus contracts and proved.

- `src/text.rs`: character-level helpers (trimming, words, lines, UTF-8
  lengths, decimal numbers) and their specifications.
- `src/req/parser/`: lexer, `###` markers and the grouping of lines into
  request blocks.
- `src/req/lowering.rs`: a block turned into a request (request line,
  headers, body, directives) or a located parse error.
- `src/req/resolver.rs`: `{{NAME}}` substitution from inline variables,
  selected environment groups and defaults.
- `src/req/curl.rs`, `src/req/listing.rs`: `curl` export and request ranges.
- `src/cli/`: argument parsing, the commands and their text output.
- `app/`: the command line program: reads stdin, parses the JSON context,
  sends requests with `reqwest` and prints JSON output with `serde_json`.
