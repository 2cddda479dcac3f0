# media_parser

Parsing of MP4 and MP3 media for a Tauri plugin: subtitle tracks, video
thumbnails, covers, tracks, and the sessions, headers and envelopes around them.
The library is written in Verus; what it promises is stated in contracts and
proved.

## Layout

- `src/` is the verified library.
  - `mp4/`: boxes, sample tables, timing, chunk layout, planned reads, covers and
    thumbnails; `mp4/subtitles/` indexes subtitle tracks, selects and decodes cues
    and runs an extraction within its budgets.
  - `h264/`: decoder configuration, Annex B, groups of pictures, scaling and JPEG.
  - `registry`, `mp3`, `image`: telling formats apart.
  - `source`, `http_headers`, `builder`, `session_cache`: sources, their headers
    and the sessions that are kept for them.
  - `commands`, `envelope`, `error`: what the frontend gets.
  - `bytes`, `strings`, `unicode`, `time`, `memory`: the ground they stand on.
- `tests/` runs the library, with the real decoder, encoder, URL parser and JSON
  writer.
- `app/` is the plugin around the library: readers, tasks, commands, and the
  conversion of scaled pictures, which is computed in floating point.

## Trust

The library calls `openh264`, `jpeg-encoder`, `url`, `serde_json` and a few
functions of the standard library through wrappers whose contracts are believed.
Each says in its doc comment what it claims. Where a result depends on the
allocator or on the decoder, the contracts state what holds whatever comes back.
