# crash_index

Indexes of an Erlang crash dump, verified with Verus.

- `src/text.rs` — byte-level text handling: finding bytes, splitting lines as
  `str::lines` does, parsing hexadecimal as `usize::from_str_radix(_, 16)`
  does, trimming Unicode white space, and UTF-8 views of byte ranges.
- `src/search.rs` — the line searches (`grep_regex` and `grep_searcher`) that
  find the matched lines of a dump and their offsets.
- `src/indices/global.rs` — the sink that records matched lines and their tags.
- `src/indices/binary.rs` — the `=binary:` records of a dump, by name.
- `src/indices/content.rs` — the process-heap `content` entries and the
  messages they spell out of the binary records.
- `src/indices/proc_heap.rs` — the first heap window that spells any message.
- `src/types.rs` — a list-based index of binary records that decodes the
  base64 data of records of one size into JSON dumps.
- `app/main.rs` — the program: maps and reads the dump file, checks each
  call's precondition, and writes the results.
