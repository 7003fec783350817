# manga_reel

The verified core of Manga Reel, a CBZ/CBR comic reader for Linux
(GTK4 + libadwaita). The library states in `requires`/`ensures` what each
function computes, and Verus proves it; the program in `app/` does the file,
process and window work around it.

## Layout

- `src/segment.rs` – panel detection by paper colour (DETECT_VERSION 8),
  the detector whose results the panel cache holds: the gutter is the paper
  reached from the page corners, so framed panels keep their borders.
- `src/detect.rs` – panel detection (DETECT_VERSION 7): luma downsampling,
  paper colour sampling, gutter mask, recursive splitting on empty bands,
  row-slice fallback, normalised panel rectangles; its layout step is shared
  with `segment`.
- `src/contour.rs` – the contour panel detector (DETECT_VERSION 5):
  morphological closing, flood fill of the page margin, connected-component
  labelling, bounding boxes, nested-box suppression, scoring.
- `src/panel.rs` – panel rectangles, reading order (LTR/RTL), and fitting a
  panel into the viewport with an inset.
- `src/archive.rs` – which archive entries are pages and their natural order,
  archive kinds, remote-archive cache names and decisions, `unrar` command
  lines and how a run is judged.
- `src/natord.rs` – natural ordering of page names.
- `src/library.rs` – reading progress, library folders, titles, and the
  bookkeeping of a library scan (a step-by-step scan the program drives).
- `src/page.rs` – content keys, panel cache names, which cache is current,
  and merging a detected page into the cache.
- `src/browse.rs` – the library window's folder browser and status line.
- `src/shader.rs` – reading the compositor's screen shader setting.
- `src/dirs.rs`, `src/settings.rs` – where files are kept; reader setting
  enums.
- `src/text.rs`, `src/paths.rs`, `src/seqs.rs`, `src/digest.rs` – text,
  path and sequence models shared by the rest.

Outside crates called from the library: `sha2` and `hex` (content keys),
`directories` (platform directories), `image` (page decoding).
