# jute

A task runner whose tasks live in `.jute/tasks.jute` in a project's root and
whose binary can be kept in the repository itself (`jute self.install`).

The library under `src/` is verified with Verus:

- `tokeniser`: source text to tokens, indentation to `Indent`/`Dedent`;
  `lex` is the mathematical statement of what it produces.
- `parser`: tokens to a `TaskFile`; `parse_source` states the grammar and
  its error messages.
- `ast`: tasks, steps, and the tasks file, kept in order of name.
- `commands`: the help text, the task list, and for a task the commands it
  runs, in which directory and with which environment.
- `cli_args`: what the command line asks for.
- `project_root`: finding the nearest ancestor with a `.jute` directory.
- `install`: binary names, download addresses, curl's arguments and the
  report of a failed download.
- `error`: the errors, their exit codes and their text.
- `text`: character and string helpers.

`app/` is the program around it: reading the command line and the
filesystem, running processes, and printing.
