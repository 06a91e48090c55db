# mempal

Ingest of files into a palace of drawers: a file is recognised, turned into
plain text, cut into chunks, and each chunk that is not stored yet is embedded
and stored.

The library in `src/` is verified with Verus. It decides what is done next and
does no I/O:

- `text`, `json`, `paths`: what the library reads of strings, JSON and paths.
- `detect`: which format a content has.
- `transcript`, `chatgpt`, `normalize`: the plain text of a content.
- `ingest`: options, counts, errors and drawers.
- `file_ingest`, `dir_ingest`: the courses of ingesting a file and a directory,
  as functions from state and event to the next state and action.
- `laws`: what holds of all of it. `laws::content`: such as that blank lines
  around a content do not change its format. `laws::file_runs`: such as that an
  ingest stores no drawer twice, touches the store only under the lock of its
  source, that a dry run counts what the run then stores, and that a second
  ingest of the same source stores nothing. `laws::file_runs::drawers`: such as
  that a drawer is stored under the id of its text in its wing and room.
  `laws::file_runs::together`: such as that two ingests of a source that run at
  the same time store each drawer once. `laws::dir_runs`: such as that a walk
  ingests every file below its directory exactly once.

`app/` runs these courses: it reads files, asks the database and the embedder,
and takes locks, which it reaches through the traits `Palace` and `Embedder`.
