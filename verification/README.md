# baken

Bake'n Deck prepares a rekordbox collection for CDJs. This crate is its
verified core. The functions under `src/` are proved against their Verus
contracts, with two kinds of exception: the small wrappers around
`quick-xml`, `unicode-normalization` and a few std calls, whose contracts
are trusted rather than proved, and the `CancelToken` methods, which share
an atomic flag between threads and carry no contract.

- `rbsort`: sorts TrackID playlists of an exported rekordbox XML by Camelot
  key, then BPM, missing values last, ties in playlist order; only the order
  of the `<TRACK Key=…/>` refs changes, and sorting refs that are already
  sorted keeps their order.
- `cdjsafe`: plans a CDJ-safe copy of one playlist (which tracks, which file
  names, what each file becomes) and writes the new tracks and playlist
  into the XML, but only when no track failed and the run was not
  cancelled; `Location` URLs decode what they encode.
- `export`: reads `collection.xml` (its playlists always come after their
  folders), picks playlists and tracks (skipping, with a reason, tracks the
  collection lacks, missing files and tracks without analysis), lays the
  files out on the stick, builds the `export.pdb` model and pages, and reads
  and rewrites the ANLZ analysis files.
- `headroom`: carries a file's tags across a re-mux (ID3v2 prefix, AIFF/WAV
  `ID3 ` chunk, MP4 free-form items), with a proof that a read gives back
  what was put back (for AIFF/WAV, when the kept chunks fit the container's
  size field); builds ffmpeg's output arguments; finds the folder a set
  of files shares.
- `xml`, `text`, `bytes`, `fsname`, `tools`, `cancel`: the shared parts.

`app/` holds the command line (`baken rbsort`, `baken cdjsafe`): argument
parsing, files, ffmpeg and ffprobe runs, the progress bar and the reports.
The reading of BPM values as floating point numbers lives there too.
