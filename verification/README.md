# agent_html_lint

A verified HTML linter for agent-generated documents. It reports images without `alt`, an
`html` element without `lang`, buttons without `type`, iframes without `title`, a missing
doctype and tokenizer errors, each with its byte span, line and column, in a JSON report.

Layout:

- `src/` is the library, verified with Verus:
  - `model.rs`: rule sets, diagnostics, file reports and the run report with its summary,
    status and exit code; locating a finding by line and column.
  - `cli.rs`: the command line, parsed against a specification of every option.
  - `engine.rs`: the scanner over the events of the html5gum tokenizer, the cap on findings,
    sorting and locating them, and assembling the report of a run.
  - `input.rs`: which paths name HTML files. The path rules it states (where a file name
    and its extension begin) are those of Unix paths, where `/` alone separates components.
  - `order.rs`: the stable insertion sort that orders findings and files, with its laws.
  - `text.rs`: comparisons of strings and bytes.
  - `fixtures.rs`: the exact-size benchmark documents and the check of their contents.
  - `bench.rs`: the plan of a benchmark: which tools sit out a fixture for its size, the
    rounds of a smoke run, the seeds of the rounds, the shuffled order of the tools, the
    command line that runs a tool on a fixture and which exit codes count as success.
- `app/main.rs` is the command: it walks directories, reads files and standard input, runs the
  linter (in parallel with rayon) and prints the report with serde_json. The same executable
  holds the two benchmark programs, chosen by the name it is run under: as `benchmark`
  (`app/benchmark.rs`) it runs the tools of a configuration, times them and writes the
  evidence; as `generate_bench_fixtures` (`app/generate_fixtures.rs`) it writes the fixtures.
  Their timing, process handling and statistics stay in `app/`; their plan comes from `src/`.
- `tests/` runs the library on concrete inputs, with the real tokenizer.
