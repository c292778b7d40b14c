# shell

A small interactive shell whose core is verified with Verus.

- `src/` — the verified library: the tokenizer and parser of command lines, the line
  editor's key handling, highlighting and completion (`input`), the prefix tree of
  completions, the job list, and the decisions and messages of the builtins.
- `app/` — the program around it: the terminal (raw mode and key events), processes, files
  and the environment.
- `tests/` — tests of the library on concrete inputs.
