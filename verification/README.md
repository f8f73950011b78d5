# fiddlers_db

The verified core of a small row-based database engine.

- `src/layout.rs`: the geometry of a slotted page (`PageDataLayout`).
- `src/fsm/binary_tree.rs`: the max-tree that one page of the free space
  map holds, with the proof that a search finds the leftmost slot with
  enough space and that setting a slot keeps the tree consistent.
- `src/fsm/fsm.rs`: the free space map over many pages: addresses, page
  ids in pre-order, space categories, and the update and the search as
  step functions that the caller drives with the trees it reads and
  writes.
- `src/fsm/map.rs`: laws of the map as a whole: updates keep every parent
  slot equal to the root of the tree behind it and record the category of
  the updated page; a search answers the heap page with the smallest id
  whose recorded category fits, allocates only when none fits, and reads
  only pages the map file holds.
- `src/store/mod.rs`: grouping of index hits by page, and file names.
- `src/bench.rs`: tallying and averaging benchmark runs.
- `app/`: a benchmark program that keeps the pages in memory, and the
  file-backed store's directory handling.
