# diskview

A disk-usage explorer: it lists a folder's children, measures the size of
each subdirectory in the background, and shows the sizes as a pie chart in
which children under one percent of the total are gathered into "Other".

`src/` is the verified library (Verus):

- `binary64` — the integer model of `u64 as f64` rounding used by size
  arithmetic.
- `text` — decimal digits, lexicographic order of characters, case folding.
- `size_text` — `format_size`: "512 B", "1.50 KB", … exactly as two-decimal
  `f64` printing gives them.
- `sorting` — stable sort, stated as stable insertion and implemented as a
  merge sort; sortedness, permutation and tie-order laws.
- `entry` — directory entries and the listing order (by lowercased name).
- `threshold` — the one-percent test, decided in integers as `f64` decides it.
- `chart` — the pie chart: slices, labels, "Other".
- `scan` — what one directory's view consists of.
- `cache`, `listing_ops`, `reports`, `explorer` — the navigation state, the
  listings read so far, and what each command does to them.
- `walk` — the directory-size walk as a state machine over its stack.
- `paths` — `std::path` questions the library asks.

`app/` is the Tauri shell: commands, the folder dialog, file-system reads
and removals, the size-scan threads, and the charming rendering of the pie
chart into ECharts options.

`tests/` runs the library on concrete values.
