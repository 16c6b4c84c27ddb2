# exifmv helpers, verified

The library behind `exifmv`, which moves images into a folder hierarchy
built from their EXIF tags. `src/` holds its logic with Verus contracts and
proofs; `app/` holds the file-system side (reading sizes and contents,
creating placeholders, renaming, copying, trashing, logging) that drives it.

- `text`, `bytes`: trimming, comparison and conversion helpers.
- `date_prefix`: leading `YYYY-MM-DD`-style dates in folder names.
- `album`: album names taken from the folders an image lives in.
- `path`: Unix paths as `std::path::Path` reads them (components, file
  name, stem, extension, `with_file_name`, equality); `path_laws`: what
  joining a name to a path does to its components.
- `naming`: numbered destination names (`IMG_1234_1.jpg`).
- `extensions`: which files are images or movies.
- `hashing`: XXH3-64 content hashes, whole or streamed.
- `claims`: destination names spoken for while files are being moved.
- `placement`: the decisions of a move, as a state machine driven by the
  caller, with the laws it keeps.
- `runs`: whole runs, one file at a time, against a model of the disk: a
  dry run reports the outcomes of a real run, no existing file is
  overwritten, and running again over the same photos adds no copies.
- `errors`: the errors of the file operations and their messages.
