# file_wr

Reading and writing the files of a backtest setup, verified with Verus.

- `src/` is the library. It lays out and reads the whitespace separated column
  tables (`data.dat`, `stat_columns.dat`) and value tables (`stat_values.dat`),
  builds the paths of the source and backtest files, decides how a plot script
  comes into a backtest directory, and encodes and decodes the binary source
  series with bincode. The modules:
  - `text`: characters of strings, `split` and `join` with their specifications;
  - `keyed`: an insertion ordered map with string keys;
  - `columns`, `values`: the two table formats;
  - `roundtrip`: the proofs that reading gives back what was written;
  - `paths`, `file_wr`: file layout and the reader/writer's decisions;
  - `series`: the binary source files.
- `app/` holds the file system work around the library: creating, reading,
  copying and removing files, and turning `f64` values into text and bytes.
- `tests/` runs the library on concrete values.
