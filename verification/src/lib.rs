//! Reading and writing the data files of a backtest: the directory layout,
//! the whitespace separated column and value tables, and the binary source series.

pub mod text;
pub mod keyed;
pub mod columns;
pub mod roundtrip;
pub mod values;
pub mod paths;
pub mod series;
pub mod file_wr;

pub use columns::{
    ColumnMap, ReadError, format_column_maps, format_columns, parse_chunk, parse_data_columns,
    transpose,
};
pub use file_wr::{FileWR, ScriptAction, read_data_columns, read_stat_columns, read_stat_values};
pub use keyed::KeyedList;
pub use paths::{BacktestFiles, SettingsFilesPath, backtest_files, get_backtest_dir, join_path};
pub use series::{
    Series, SeriesError, SymbolSeries, decode_src, decode_src_symbols, encode_src,
    encode_src_symbols,
};
pub use text::{join, split};
pub use values::{ValueMap, format_values, parse_data_values, parse_values_chunk};
