# database

A small query engine. It reads tables from a disk block by block, answers queries of scans,
filters, projections, sorts and cross products, and uses unused blocks of the disk where
memory would not do. What the engine does is stated in contracts and proved with Verus.

The engine does no input or output of its own. The disk manager gathers commands for the
disk and takes its answers; operators make one step at a time; a session turns a query into
actions. The program under `app/` carries them out.

## Layout

- `bytes`, `text`, `data`, `row`, `block`: numbers and values as bytes, rows, and blocks of
  rows
- `disk`: the protocol of the disk, and a model of what it holds
- `query`, `catalog`, `facts`: queries, and what is known of the tables and their files
- `key`: join keys and their hashes
- `executor`: the operators
  - `scan`, `filter`, `project`
  - `order`, `sortkey`, `sorter`, `merge`, `sort`: sorting in memory, and with runs on disk
  - `spill`, `cross`: cross products
  - `jointable`, `partition`, `partjoin`, `joincore`, `hashjoin`: hash joins
  - `traffic`, `runtraffic`, `parttraffic`: what cross products, sorts and hash joins ask of
    the disk
  - `plan`, `builder`: from queries to operators
  - `sortlaws`, `keylaws`, `mergelaws`, `skiplaws`: sorted output is the input in order,
    NaN and mixed zeros apart
  - `joinlaws`, `planlaws`, `planfits`, `equivalence`, `flatten`: a planned join gives what
    filtering the cross product gives
- `session`: a query from its plan to its last row
- `format`: rows as text

Floats are bit patterns throughout. Their order and their text, where it is short, are
worked out on the bits.
