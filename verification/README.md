# Basalt

A slotted-page storage engine. The page format, the record directory, the
clock replacement policy, the buffer-pool bookkeeping and the way large
tuples are split into chained fragments are verified with Verus in `src/`;
`app/` holds the parts that touch the file system or share state between
threads.

## Layout

- `src/codec.rs`: little-endian encoding of integers in page images.
- `src/page.rs`: the slotted page (header, slot array, records), with
  contracts over the page's byte image; `src/page_laws.rs` proves what
  insert, delete and vacuum keep on a consistent page.
- `src/directory_page.rs`: directory pages that list data pages and their
  free space, with the best-fit lookup.
- `src/replacer.rs`: the `Replacer` trait and the clock policy.
- `src/buffer_pool.rs`: frames, page table, free list and pin counts, and
  why a page's bytes survive its eviction.
- `src/table_heap.rs`: fragments of a tuple and how they read back from
  page images; the best-fit search over the whole directory chain for a
  page whose recorded free space covers a fragment; storing a fragment in
  the chosen page.
- `src/disk.rs`: page-file arithmetic.
- `src/rid.rs`, `src/tuple.rs`, `src/error.rs`: record ids, tuples, errors.
- `app/`: the disk manager, the buffer manager and the table heap that
  drive the verified parts.
