# gitingest

Makes a prompt-friendly digest of a GitHub repository: a summary, a drawing of the directory tree,
and the contents of the files that the command line asks for.

- `src/` is the library, verified with Verus: the command line, the patterns, the walk through the
  directories, the order of the files, the tree and its drawing, and the text of the digest.
- `app/` runs git, reads the files and prints.
- `tests/` runs the library on examples.

Paths are taken as Unix systems have them: byte strings whose components are parted by slashes.

    gitingest <user/repo> [--include PATTERNS | --exclude PATTERNS] [--max-size KB] [--token TOKEN]
