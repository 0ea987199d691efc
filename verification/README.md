# rush

A small POSIX-ish shell (builtins `echo`, `exit`, `type`, `pwd`, `cd`, `jobs`,
`complete`, `declare`, `history`; quoting; output redirection; pipelines;
`$NAME`/`${NAME}` expansion; background jobs; history with `HISTFILE`; tab
completion of commands, file names and through `complete -C` scripts).

- `src/` is the library, verified with Verus: the lexer, variable expansion,
  pipeline splitting, redirection handling, the planning of a command line, the text
  of the builtins, history and job bookkeeping, the completion table and the
  tab-completion decisions (as a state machine fed with what the outside world
  answers).
- `app/main.rs` is the interactive program around it: line editing with
  `rustyline`, running processes, reading directories and `PATH`, printing.
- `tests/` exercises the library on concrete inputs.
