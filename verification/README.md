# pingora_slice

A slicing reverse proxy's core, verified with Verus: large files are fetched
from the origin as fixed-size byte-range slices, reassembled in order, and
cached in a two-tier cache (memory, then disk or a raw block device).

## Layout

- `src/` — the verified library.
  - `models`, `slice_calculator`, `request_analyzer`, `response_assembler`,
    `subrequest_manager`, `streaming_proxy`, `tiered_cache`, `config`:
    range parsing and formatting, slicing, the slicing decision, response
    headers and reassembly, retry policy and range-response checks, the
    per-request proxy state machine, the memory tier, configuration rules.
  - `raw_disk/`: the raw-device cache's bookkeeping — superblock and block
    header encodings, first-fit block allocation, the directory with its LRU
    order, eviction strategies, defragmentation planning, compression,
    checksums, write buffering and read merging, direct-I/O alignment,
    prefetch pattern counts and cache, counters and their Prometheus text.
  - `text`, `assoc`, `headers`, `clock`: decimal text, association lists,
    header fields, and time.
- `app/` — device and network I/O, locking and background tasks, floating
  point ratios, and the Pingora service, around the library.
- `tests/` — tests of the library.
