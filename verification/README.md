# trace

Call-graph and pointer analysis for C sources, written in Verus: the
executable code carries `requires`/`ensures` contracts that Verus proves.

## Layout

- `src/` — the verified library
  - `text`, `lexer`, `line_map`, `macros`, `options`, `pp_eval`,
    `preprocessor`: a C preprocessor (conditional inclusion, `#include`,
    object- and function-like macros with hide sets, `#`/`##`), with a
    position map from output bytes back to source lines.
  - `discover`, `index_cache`: picking `.c`/`.h` files out of a directory
    walk, the include scan (which files need the preprocessor), and the
    per-file text used for indexing (preprocessed or raw).
  - `ids`, `span`, `flow`, `symbol`, `types`, `program`: the intermediate
    representation (symbols, interned C types with struct layouts, pointer
    flow facts), and a check that a program is fit for the analysis.
  - `syntax`, `lower`: C syntax trees from tree-sitter, copied into an
    arena of nodes, and their lowering to the intermediate representation
    (functions, variables, call sites, pointer flow, return summaries);
    `lower::build_program` builds the program of a whole tree.
  - `constraints`, `keymap`, `pag`, `solver`, `callgraph`, `summaries`: an
    Andersen-style points-to analysis over a pointer assignment graph, the
    resulting call graph, and its queries.
- `tests/` — tests of the library on concrete inputs.
- `app/` — the command-line program (argument handling, file system
  access, the SQLite database).
