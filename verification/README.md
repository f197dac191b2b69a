# rsync_chunks

Cuts the log of an rsync daemon into transfer chunks (from `receiving file list` to the
line with the totals) and stores a summary of each chunk in SQLite.

- `next FILENAME [-c CURSOR]` prints the next complete chunk of a log and of its rotated
  files (`<stem>_YYYY-MM-DD.log[.gz]`), and remembers in a cursor how far it has read.
- `import DB LABEL FAILED_FOLDER` reads one chunk from standard input, sums it up and
  stores the summary; a chunk that does not read is saved in `FAILED_FOLDER`.

## Layout

- `src/` is the library, verified with Verus: the chunk parser (`import`), the cursor and
  the search for the first and last line of a chunk (`next`), a whole run of the next
  action over the files it reads, as the effects it has (`run`), the order in which log files
  are read (`order`), the lines of a file's bytes, gzipped or not (`lines`), path
  normalization (`utils`), and what each action decides (`cli`). `text`, `pattern`,
  `clock`, `digest` and `lines` hold the calls into std, `regex`, `chrono`, `sha1` and
  `flate2`, each behind a wrapper whose contract is trusted.
- `app/` is the command line around it: argument parsing, files, standard input and
  output, glob and the database.
- `tests/` runs the library on concrete inputs.
