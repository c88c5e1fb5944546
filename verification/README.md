# strata destination handling

The destination field of the file browser's transfer dialogs ("Copy to…",
"Move to…", "Extract to…"), written in Verus.

- `src/text.rs` – Unicode white space, trimming, prefix tests.
- `src/paths.rs` – paths as text: joining and the absolute test, and trusted
  wrappers around `std::path::Path` and `str::to_lowercase`.
- `src/ordering.rs` – a stable sort by key, with its laws (ordered, a
  permutation, stable).
- `src/destination.rs` – what typed text resolves to, how a chosen folder is
  written back, which folder a partial path lists, root containment.
- `src/suggestions.rs` – which folders are offered, in which order, and
  their labels.
- `src/transfer.rs` – the decisions taken while the user types: listing or
  searching, stale listings, polling the search index.
- `app/` – the GTK widgets, the search index and the file system around the
  library.
