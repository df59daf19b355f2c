# smart_sorter

A verified library for organising files on a desktop: rule-driven renames,
moves and copies with a preview, duplicate detection, classification of media
files by the keywords found in their folders and tags, rewriting of author
tags, execution logs and undo.

- `src/` is the library, written in Verus. Every public function carries a
  contract over mathematical models (`Seq`, `Map`, spec functions); the calls
  into `regex`, `sha2`, `quick-xml`, `chrono`, `uuid`, and the parsers
  `lofty`, `kamadak-exif`, `zip` and `lopdf` (run on a file's bytes) stand
  behind small trusted wrappers whose contracts are documented beside them.
- `app/` holds what touches the machine: hashing, reading and moving files,
  walking folders, writing tags with `lofty`, and the JSON stores kept with
  `serde`. Each of its decisions is a call into the
  library.
- `tests/` runs the library on concrete values.

Paths are read by the Windows conventions that the tool was written for, on
every host: `\` and `/` both separate components, and whether a file lies
under a scanned folder is decided on the Windows form of both paths
(separators made `\`, then lowercased). Where a new path is made by joining a
name onto a folder (targets of rules and of classification, numbered
alternatives, backups and working files) and where a path is remembered by a
key, the functions take a `windows` flag and join or compare as that host
does; app/ passes the platform's.
