# everything_core

An in-memory file index for Linux in the spirit of Voidtools Everything:
file entries, a directory store for compact entries, search by substring
terms, glob patterns or regular expressions, the mount table, the crawler's
and the file watcher's decisions, all verified with Verus.

Layout:

- `src/` — the verified library (`text`, `path`, `entry`, `matchers`,
  `search`, `mounts`, `crawler`, `index`, `watcher`, `tracking`, `icons`). Contracts are
  stated over mathematical views; the laws of the library are public proof
  functions (`law_*`) next to the functions they speak of. Glob matching,
  regular expressions and the parallel search (rayon) are called through
  small trusted wrappers whose contracts say what the library relies on.
- `tests/` — behaviour on concrete values.
- `app/` — the command-line program: argument parsing, walking the file
  system, reading `/proc/mounts`, the `notify` watcher thread, the JSON cache
  and output.
