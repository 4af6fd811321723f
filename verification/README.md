# objwal

A database server's log and tables in an object store, with the decisions verified by Verus.

The library (`src/`) holds no I/O. It takes what was read, says what is to be written next, and
every function of it carries a contract.

- **Runs and commits**: `codec`, `native` (words in the machine's order), `key`, `commit`,
  `bloom`, `run_format` (encoding), `run_read`, `run` (lookups and scans through a bounded cache), `run_answers`, `run_scans`, `run_points`,
  `run_pages`, `run_laws` (what they come to, stated over the entries that a run was built from).
- **Tables**: `row_key`, `staging` (the writes of a transaction, by savepoint), `staging_laws`,
  `rows`, `row_laws`, `tables`, `session`, `precommit`, `scan`.
- **The archive of the log**: `json`, `wire`, `lines`, `archive`, `archive_laws`, `publish`,
  `decode`, `memory_wal`, `publisher`, `restore`, `rebuild`, `restoring` (restoring as a state
  machine that asks for one object at a time), `round_trip` (what was published is what is
  restored).
- **Snapshots**: `image`, `pages`, `page_laws` (an increment gives the file back), `tar_walk`
  (whether an archive's headers can be counted), `export`, `manifest_text`, `incremental`,
  `incremental_manifest`, `preparing`, `inspect`, `create`, `renewal`, `select`, `select_laws`.
- **The store**: `http` (addresses, conditional writes, retries), `faults` (a layer of injected
  failures).
- **Starting up**: `startup`, `strict_sync`.

`app/` holds the transport, the file system and the loops. What a database server provides comes
in through the traits `Server`, `Engine` and `View`.

`tests/` runs the library on concrete values.
