# b2

A small file-inventory tool: it lists the files of a directory tree grouped
by extension (`summarize`), writes one hash line per file (`hashes`), and
reads such lines back into a directory tree that it prints, followed by
the groups of duplicate files (one hash) and duplicate directories
(identical contents) in it (`dupes`).

`src/` is the verified library (Verus):

- `ascii` – escaping of arbitrary bytes into printable ASCII and back;
- `hashes` – the file-hash line format, the hash labels, and which entries
  the search for files to hash takes;
- `paths` – Unix path components as `std::path` reads them;
- `order` – lexicographic order on byte strings and component sequences;
- `dupes` – the tree built from hash lines, its printed form, and its
  duplicate files and directories;
- `xfs` – the decisions of a breadth-first directory walk;
- `files` – the walk's items turned into file paths;
- `summarize` – files grouped by extension;
- `text` – the few std string functions the rest builds on.

`app/` is the command-line program around it: argument parsing, reading
directories and files, threads, standard input and output.
