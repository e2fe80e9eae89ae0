# codegraph

A code-intelligence engine: it turns a repository into a graph of symbols and
resolved calls, keeps that graph up to date file by file, and answers questions
about it with evidence. The library is written in Verus; what it does is stated
in contracts and proved.

## Layout

- `src/` is the library.
  - Text and tables: `text`, `words`, `like`, `order`, `rows`, `pairs`, `value`.
  - The graph's rows: `types`, `tables`, and the tables themselves in `store`,
    `store_files`, `store_edges`, `store_queries`, `store_lists`, `vectors`.
  - From files to rows: `ignores`, `listing`, `scan`, `parse`, `tsconfig`,
    `index`, `rebuild`, `update`, `history`, `indexstore`, `digest`.
  - The graph in memory: `graph`, `snapshot`.
  - Questions and answers: `search`, `query`, `cypher`, `usage`, `answers`,
    `dead_code`, `changes`, `review`, `audit`, `tools`, `tools_lists`,
    `explorer`, `viz`, `report`, `llm`.
  - Settings and setup: `config`, `settings`, `setup`.
  - Laws over several functions: `store_laws`, `index_laws`, `fresh_laws`,
    `analysis_laws`, `graph_laws`, and the functions named `law_…` beside what
    they speak of.
- `tests/` runs the library with its dependencies.
- `app/` is the program: the command line, files, git, SQLite, HTTP, the
  protocol server, and the arithmetic in floating point.

## What is taken on trust

The calls into other crates stand behind small functions marked
`external_body`, each with a comment that names the function it calls and says
what is claimed of it. Names without a definition (`uninterp spec fn`) stand for
results that are functions of their arguments but take pages to write down: a
syntax tree, a hash, a parsed document.
