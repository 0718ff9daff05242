# compdir

`compdir` compares two directory trees, each local or reached over SSH, and
prints the relative directories that exist on one side only, grouped by
basename.

- `src/` is the verified library (Verus):
  - `cli` reads the command line and decides what a run does;
  - `target` reads `path`, `host:path` and `host:` arguments and pairs the sides;
  - `local` holds the state of the walk through a local tree (`LocalWalk`) and decides what it records and where it descends;
  - `remote` builds the commands sent over SSH and reads their replies;
  - `dirmap` holds the directories of one side, ordered by relative path;
  - `report` renders the report;
  - `paths`, `uri`, `shell` and `text` hold the path, URI, quoting and
    character helpers.
- `app/` is the program: arguments, the file system, `ssh`, and printing.
- `tests/` holds the tests of the library.
