# os_exercises

Verified pieces of a set of operating-system exercises.

- `src/page_table.rs` — a simulated RISC-V SV39 three-level page table
  (nodes in a `HashMap` keyed by physical page number). `translate` is proved
  to return the page-table walk of the table; `map_page` and `map_superpage`
  are proved to change the translation of exactly the mapped 4 KiB page or
  2 MiB region, and to keep the table's shape (root on level 2, every link to
  an existing node one level down, no node linked twice).
- `src/page_table_laws.rs` — laws over those contracts: address splitting,
  read-back of a mapping, last mapping wins, distinct mappings commute,
  superpages and pages coexist.
- `src/sorting.rs`, `src/messages.rs`, `src/pipes.rs`, `src/futures.rs`,
  `src/tasks.rs` — what the threaded, process and async exercises compute:
  sorting of results, producer messages, decoding and re-joining child
  output, exit codes, and the poll decisions of two hand-written futures.
- `app/` — the threads, channels, child processes, tokio tasks and `Future`
  impls around the library (not verified).
