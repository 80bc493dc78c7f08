# nusadb_sql

The query-execution core of a SQL engine, written in Verus: every function states in its contract
what it returns, and Verus proves it.

- `src/` is the library. Storage, expression evaluation, aggregation and conversions between types are
  asked for: a function takes the answers so far, and either completes or names its next request.
  - Values, orders and stored tuples: `value`, `types`, `order`, `row`, `scan`, `array_text`, `numbers`.
  - Rows: `setops`, `sort`, `operators`, `window`, `series`, `recursive`, and their counterparts that
    spill (`spill`, `spill_sort`, `spill_setop`).
  - Plans, expressions and scripts: `exec`, `shape`, `expr`, `sequence`, `bind`, `script`.
  - Catalogs, statistics and vector indexes: `catalog`, `info_schema`, `stats`, `vector`.
  - Settings: `memory`, `session`.
- Proof functions named `law_..` state what holds across functions: that a stored row reads back, that a
  spilled sort gives the rows of a sort in memory, that the rows of a plan depend on the answers it uses
  alone, and when a stream gives exactly the rows of an execution (`exec::streaming` says on which plans
  and with which answers) or the same rows in some order (`exec::reordered`).
- `tests/` runs the library on concrete values.
- `app/` is ordinary Rust around it: the settings of a process, its transient files, floating-point
  formulas, messages, and the loops that answer requests from an engine.

Floating-point values are held as their bit patterns; the library orders, stores and carries them, and
does not compute with them.
