# Cargo Shepherd

Finds the output directories of Cargo projects, measures them, and lists or
deletes those that are no longer wanted, in a terminal or from the command
line.

* `src/` is the library: which directories are projects and which output
  directories Cargo's config files give them, what a walk through a directory
  says of its disk usage and age, the state of the table and what keys,
  measurements and deletions do to it, when each directory is measured again,
  and every text that is shown. It is verified with Verus: each function states
  what it returns or changes, and the functions named `law_` state what holds
  of them together.
* `app/` is the program around it: the command line, the file system, the
  terminal and floating-point numbers.
* `tests/` runs the library.

Paths are read by the Unix conventions.
