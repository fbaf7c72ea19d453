# rust_shell

A bash-like shell whose core is verified with Verus.

The library in `src/` turns a command buffer into tokens, the tokens into a syntax tree, and the
tree into a run: a machine that says which command comes next, given how the ones before it have
ended. What a command asks of the system (program, arguments, variables, streams, files) is a
plain value. The program in `app/` reads lines, starts processes, moves bytes between pipes and
files, and reports back to the run.

| module | what it holds |
| --- | --- |
| `text`, `ascii`, `scan` | bytes, characters, and where quotes, expansions and here-documents end |
| `token`, `lexer` | tokens, and how a command buffer is split into them |
| `word`, `vars` | what words evaluate to, and the variables of a session |
| `ast`, `grammar`, `parser` | the syntax tree, the rules it follows, and the parser |
| `executor` | runs of trees: order, short circuits, exit codes, assignments |
| `spawn` | programs, subshells, pipelines and builtin commands as requests to the system |
| `builtins` | `cd` and `history` |
| `validate` | whether a tree fits its text, for trees handed over by another process |
| `laws`, `lines` | what holds of several functions together, and of whole lines |
| `commands` | what a command holds and in which order, and which commands are builtin |
| `separators` | why it does not matter which separators stand between commands |

Every executable function in `src/` states exactly what it returns. What the lexer does is said
by `lexer::lexed`, what the parser does by `grammar::parsed`, and what a run does by
`executor::next_action`; `executor::law_driving_runs_the_trees` ties the run to the meaning of the
tree. Parsed trees borrow the command buffer (`ast::borrows`), and so does all that a run makes of
them.

A command is not complete, and the shell asks for more, where a quote, an expansion, a parenthesis
or a here-document is open, or where it ends with `|`, `||`, `&&` or a backslash.

The tests in `tests/` run sessions against programs and files that are kept in memory.
