# sh42

A small POSIX-style shell (`if`/`elif`/`else`/`fi`, `;` and newline lists,
redirections, a handful of builtins), whose logic is written in Verus and proved
against mathematical specifications.

## Layout

- `src/` — the verified library.
  - `text.rs`: character classes (`White_Space`), decimal parsing as `str::parse`
    does it, string helpers.
  - `lexer.rs`: the lexer. `lex` is the specification of one token; `Lexer::next_token`
    returns exactly that token and consumes exactly those characters.
  - `ast.rs`: the command tree and its mathematical views.
  - `parser.rs`: the recursive-descent parser, specified by one spec function per
    grammar rule over the parser state (current token, characters left).
  - `executor.rs`: the control flow of command lists and `if` commands, as a state
    machine: it names the next simple command to run and is handed back its result.
    `run_list` says, for any results the simple commands give, which commands run and
    how the list ends.
  - `builtins.rs`: what each builtin computes (its output, the directory to enter,
    the variables to set, its status).
  - `redirect.rs`: which descriptor a redirection changes and how, and the record of
    saved descriptors, given back last saved first.
- `app/` — the program: argument handling, reading input, starting processes, file
  descriptors, the environment and the file system.
- `tests/` — tests of the library on concrete values.
