# disk_cleaner

Disk analysis and reviewed cleanup for Windows volumes, as a verified Verus library with a
thin command line around it. Marking a path never deletes it: only a review by a person
leads to a deletion, and the library holds the rules that make it so.

## Layout

- `src/` is the library. Every function states its contract, and Verus proves it.
  - Snapshots: `model`, `links`, `tree`, `rollup`, `walk`, `subtree`, `keyed`, `compare`,
    `growth`, `frame`, `stored`, `legacy`, `wide`.
  - Scans: `scanning`, `enumeration`, `volume`, `ntfs`, `ntfs_record`, `ntfs_stream`,
    `ntfs_index`, `refs`, `refs_tree`, `refs_index`, `crc64`.
  - Reports: `report`, `treemap`, `treemap_text`, `treemap_lines`, `console`.
  - Plans and reviews: `plan`, `cleanup_path`, `git_audit`, `forest`, `review_tree`,
    `review_depth`, `selection`, `review`, `review_facts`, `review_window`, `window_state`,
    `dialogs`, `eta`, `example`.
  - Deletion: `deletion`, `executor`, `locks`.
  - The rest: `platform`, `path_order`, `elevation`, `text`, `bytes`, `order`.
- `tests/` runs the library on concrete values.
- `app/` is the program around it: the command line, the review window, files, volumes, Git
  and processes. Verus does not see it. The window is drawn by the toolkit's software
  renderer, on Windows through winit.

## What is stated

Besides the contracts of the functions, the `law_...` proof functions state what holds of
several of them together: that totals are those of the whole subtree and count every node
once, that selections and reports add up, that a report keeps to its lines, that only what
was selected and reviewed is unlinked, children before parents, that every change to a
selection takes a person's consent back, that the figures of a run agree, that a saved scan is
read back as it was and an altered scan file is refused, that text printed to a terminal is
safe to print.

Results of other crates (a digest, an encoded scan, a formatted time, a checksum, a parsed
ReFS structure) are taken on trust. Each such place is a small function marked
`external_body`, or an `assume_specification`, with a comment that says what is taken.
