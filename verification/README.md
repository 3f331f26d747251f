# rumake

A task runner close to the shell: tasks and variables are read from a YAML
file, and a task is run with the arguments given on the command line.

- `src/` is the verified library: argument expansion (`arguments`), variables
  and their references (`variables`, over the graph of `graph`), tasks and the
  configuration (`tasks`, `config`), the commands that running a task gives
  (`runner`), the command line (`cli`), and the text and map primitives they
  use (`text`, `name_map`).
- `app/` is the program: it reads the configuration file, hands its values to
  the library, and runs the commands with `sh -e -u -c`.
- `tests/` runs the library on concrete values.
