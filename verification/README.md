# scan_code_sync

Sorts footage from several cameras and recorders into folders by production, date, media
type, scene, take and device. Devices film QR codes (and read comma-separated text files)
that carry metadata and paired clock readings; the program reads them from the media,
estimates a common clock, and moves each file to where it belongs.

## Layout

- `src/` — the verified library (Verus):
  - `text.rs` — text operations with their mathematical meaning (splitting, searching,
    trimming, decimal numbers, text order).
  - `data/` — timeline entries and their CSV form, what the QR codes of a frame give, 1-D barcode reading from grey
    images, the blur used before barcode detection, file metadata (creation times, device
    ids, processed file names, custom tags), the timeline and the sorting state, and the
    graph work of clock estimation.
  - `val_hold.rs`, `state.rs`, `tasks/` — values that background tasks borrow and give
    back, and what each task borrows.
  - `command_pool.rs` — reusable command handles per task.
  - `updater.rs`, `util.rs` — release checks, checksums, configuration text, `PATH` edits,
    format lists.
- `tests/` — tests of the library.
- `app/` — the desktop program around the library: window, file system, external tools,
  threads, the QR detector, and the floating point clock fit.
