# fdupe

Find duplicate files by content across directory trees, hashing as few
bytes as possible, and delete duplicates only through an auditable plan.

## Layout

- `src/` is the verified library (Verus). Its logic is written as state
  machines that ask for outside work and take its results:
  - `cascade`: the size, sample-hash and full-hash stages, and the
    duplicate groups they yield;
  - `identity`: hard links and followed symlinks, split off before the
    cascade;
  - `keep`: the survivor of a group under each keep strategy;
  - `manifest` and `delete`: the delete plan and its execution, which
    refuses any group that would lose every copy, whatever the spelling
    of the kept path, as long as it is equal component by component
    (`..` and symlinks are not resolved);
  - `walk`: the scan filters (exclude globs, symlinks, minimum size);
  - `hashing`: SHA-256 in lowercase hexadecimal, and which bytes form a
    file's sample;
  - `grouping`, `sort`, `paths`, `lex`, `text`: classes of equal keys,
    a merge sort, the order of paths, and string helpers.
- `app/` is the command-line program: argument parsing, walking the file
  system, reading and removing files, JSON, and the human-readable report.
- `tests/` runs the library on in-memory trees.

Paths are handled as Unix paths: `/` is the only separator. The program
does not build for other platforms.
