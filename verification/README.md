# filelst

A catalogue of files kept across several folders ("entry folders"): it
records each file's size, modification time and SHA-256 hash, lets the
user label and describe records, keeps the catalogue in numbered info
files, and compares or synchronises folders with one another.

The decisions of the tool live in `src/`, each with a contract that Verus
proves:

- `rules` - which files and folders of an entry folder are catalogued;
- `scan` - how a rescan settles the recorded copies of a folder;
- `util` - info-file fields, hash text and the assignment of records to
  info files;
- `dirdiff` - the comparison of two folders and what each sync step does;
- `remote` - bookkeeping of the remote listing;
- `command`, `session` - the interactive commands and the session state
  (selection, filter, labels, the git sync steps);
- `text`, `paths` - string and path helpers the rest is stated over.

`app/` holds the program around it: the SQLite store, the file system,
the remote service and the command loop.
