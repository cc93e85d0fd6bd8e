# pixelcreep

A pixel-sorting image editor. The sorting algorithms and the editor's
bookkeeping live in a library written in Verus, with contracts that Verus
proves; the window, the dialogs, decoding and the floating-point colour
adjustments live in a thin program around it.

## Layout

- `src/` — the verified library.
  - `pixel.rs`: RGBA8 pixels, their luminance and packed-colour keys, and
    reading and writing them in a byte buffer.
  - `stable_sort.rs`: a stable merge sort by key, proved equal to the unique
    stable sort of its input.
  - `asdf_sort.rs`: Kim Asendorf's ASDFPixelSort (runs between a start and a
    stop pixel, sorted by packed colour, over columns then rows).
  - `portal_sort.rs`: the "Sort Pixel Portal" walk-and-jump sort; each walk is
    stated exactly, the random choices of seeds are quantified over.
  - `file_types.rs`: which file names are images, and their labels.
  - `config.rs`: the recent-images list (record, clean, bounded length).
  - `editor_state.rs`: the loaded image and the epochs that tell a current
    preview from a stale one.
  - `render_queue.rs`: which pending preview or sort request a render worker
    takes next.
  - `status.rs`: resident memory read from a `/proc/self/status` text.
- `tests/` — tests run against the compiled library.
- `app/` — the program: UI wiring, file dialogs, decoding, configuration I/O
  and the colour adjustment pipeline.
