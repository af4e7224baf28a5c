# whatisit

Ask for a shell command in plain English; a local model answers through
`llama-cli`. This crate holds the logic of that tool, verified with Verus:

- `controls`: removal of terminal escape sequences and control characters
  from the model's output, as a character-level state machine.
- `extract`: recovering the answer from llama-cli's output (prompt echo and
  performance footer removed) and the single command line in it (think
  blocks, code fences, lead-ins and prompts removed), and spotting
  repetitive, degenerate commands.
- `safety`: the static danger and caution rules a command is checked against.
- `cli`: the command-line options, read only before the request text.
- `session`: the decisions of one invocation: what the arguments ask for,
  which candidates to keep, whether a command may be printed or run, and the
  text of the reports.
- `text`: character classes and sequence operations the rest is built on.

`app/main.rs` is the program around it: locating the model and llama-cli,
starting llama-cli, reading the confirmation and running the shell.
