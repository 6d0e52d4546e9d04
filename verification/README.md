# onebrc

Aggregation of weather-station measurements (`<station>;<temperature>` lines,
temperatures with one fractional digit) into per-station minimum, mean and
maximum, verified with Verus.

Library (`src/`):

- `temperature` — three temperature readers (byte by byte, by position, and
  branch-free into `i16`) and their acceptance checks.
- `lines` — line and `;` search, and the measurements a byte range holds.
- `words`, `probe` — the words and hash that place a name in a table, and the
  arithmetic of the linear probe sequence.
- `slots` — open-addressing tables of any kind of station entry: what a
  well-formed table holds, the search for a name, and insertion.
- `aggregate` — aggregation of one chunk into such a table, for any kind of
  entry.
- `table`, `process` — entries with inline names, and aggregation of one chunk
  with them.
- `offset_table` — entries that refer to their names by offset, and the chunk
  aggregations built on them.
- `chunk`, `merge`, `sorted`, `order`, `summary` — line-aligned chunking of a
  file; merging statistics (with the laws that chunked processing equals whole
  processing and that line order does not matter); the merge of per-chunk
  results into a list sorted by name; and what the statistics mean.
- `fnv` — the FNV-1a hasher.
- `args`, `stations` — the generator's command line, batch plan and station list.

`app/` holds the program: memory mapping of the file, threads, printing, and
the random measurement generator. `app gen <rows>` writes a measurement file;
`app`, `app offset` and `app bytes` aggregate it with inline-name entries,
offset entries read by position, and offset entries read byte by byte;
`app single` aggregates it on one thread and sorts the entries by name.
