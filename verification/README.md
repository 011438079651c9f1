# Kanono

A desktop audio player whose decisions are verified with Verus.

`src/` is the verified library:

- `player` — next/previous/shuffle choices, the visible track list (folder, filters,
  search, most-played order), selection and queue edits, end-of-track and play-count rules.
- `queue_manager` — gapless transitions: a non-final track starts only with a prepared
  successor; successors are handed out at a two-second low-water mark.
- `library` — track records, SQL composition of playlist queries, tag updates.
- `tags`, `wav` — reading probe tags, ID3 fallbacks and WAVE headers into a record;
  writing the header of a generated WAVE file.
- `folder_tree`, `sidebar`, `labels` — the sidebar's folder tree, artist/album/genre/year
  lists with counts, and the texts the views show.
- `filters`, `editing`, `output`, `decoding`, `mpris`, `plugin`, `playback_state`,
  `duration`, `text`, `paths` — filter bands, tag editors, output configuration choices,
  decoder parameters, desktop-control state, the plugin contract, the playback clock,
  time spans, and text and path helpers.

`app/` is the iced application around it: audio output (CPAL) and the PCM ring that the
gapless queue feeds, decoding (Symphonia, libopus), the SQLite index, ReplayGain analysis,
MPRIS and plugin loading. Floating-point
signal processing stays there.

`tests/` runs the library on concrete values.
