# spotify_history

Statistics over a streaming-service listening-history export, with the
logic proved by Verus.

* `src/` is the verified library:
  * `song` – one entry of the history; keeping only music tracks.
  * `stats` – per-track play, shuffle, skip and full-play counts, the
    ranking by full plays (ties by track name in byte order), the count of
    tracks ever played in shuffle mode, and the laws that tie these to the
    history (including that its order does not matter).
  * `text` – the normal form of names used to match files to tracks.
  * `tagging` – the index from normalised "artist - title" names to tags,
    exact and contained-name lookup.
  * `download` – the jobs and `yt-dlp` arguments for fetching ranked
    tracks, skipping the first `SKIP_SONGS` of them, or as many as there
    are files already on disk when that setting is not given.
  * `csv_export` – the CSV rows of the statistics, written through the
    `csv` crate.
  * `youtube` – the search text, playlist requests, the parts of the
    replies that are kept, and the video cache's JSON text.
  * `keyed` – entries keyed by name, and the bucket index over them.
* `app/` is the program around it: reading the export, running `yt-dlp`,
  writing files, tagging mp3 files (`tag` as first argument) and talking to
  the video platform.
* `tests/` runs the library on concrete histories.
