# elimitate

A Windows junk cleaner and uninstaller whose decisions are verified with Verus.

- `src/` is the verified library. It decides which junk categories exist and which
  paths they cover, what a scan counts, what a cleaning deletes and how its report adds
  up, which installed programs are listed and how their uninstall command is found,
  what an uninstall leaves behind and how it is removed, which files a large-file scan
  keeps, and how wide strings, command lines and registry paths are read. The file
  system, the registry, the shell and process creation are reached only through
  operations handed in by the caller; the contracts state what is done for every answer
  those operations may give.
- `app/` is a command-line front end: it reads the disk and the registry into the
  library's descriptions, calls the library, carries out the operations it asks for
  through the Windows API, and prints JSON.
- `tests/` runs the library on concrete cases.

Modules of the library:

| module | contents |
| --- | --- |
| `categories` | the catalog of junk categories |
| `env` | `%VAR%` expansion and path templates |
| `junk` | scanning categories, reports |
| `clean` | selecting and cleaning categories |
| `deletion` | in-use checks, recycle-bin batches, forced removal of trees |
| `large` | keeping the largest files of a disk scan |
| `uninstall` | registry paths, installed programs, listing order |
| `residue` | what an uninstall leaves behind |
| `remove` | deleting residue, starting uninstallers |
| `system`, `admin` | version line, drives, elevation |
| `text`, `util` | strings, UTF-16, command lines, lock tracking |
