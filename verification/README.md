# taskmaster

A small process supervisor (the start of an init system): it loads unit files
(`*.service`, TOML), starts each unit's command with the configured arguments,
working directory, output files and environment, and watches the children.

- `src/` is the library, verified with Verus:
  - `text`: string helpers (character equality, suffixes, Unicode white space,
    UTF-8 widths);
  - `pool`: values kept by name in insertion order (the supervisor's tables);
  - `taskmaster`: configuration types, the environment of a unit's command
    (`env`), units (`unit`) and the supervisor over its pool of units;
  - `dgressions`, `master`: the same supervisor operations over a pool held by
    the caller, and a master that owns its units;
  - `mount`: the list of kernel filesystems to mount.
- `app/` is the program: reading unit folders and TOML files, spawning, polling
  and killing processes, signals and `mount(2)`.
- `tests/` runs the library on concrete values.
