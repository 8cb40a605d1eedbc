# estrace

Analysis of storage I/O traces: UFS (`ufshcd_command`) events, block layer
requests and custom UFS request logs.

- `src/` is the verified library. It reads trace lines with configurable
  patterns, post-processes the events (queue depth, dispatch/complete
  latencies, request continuity), filters and samples them, computes the
  latency, size and continuity statistics, plans chunked parsing and CSV
  export, and keeps the pattern registry. Every function carries a
  contract proved by Verus; times are integer nanoseconds, so all of it is
  exact arithmetic. Calls into `regex`, `rand`, `num_cpus` and `flate2`
  stand behind small trusted wrappers whose contracts say what those
  crates do.
- `tests/` runs the library on concrete traces.
- `app/` is the desktop side: file and database access, Arrow and Parquet
  files, the program's caches and the JSON the viewer reads, with
  floating-point summaries of the latencies.
