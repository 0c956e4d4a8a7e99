use std::collections::BTreeMap;

use file_wr::{
    ColumnMap, FileWR, KeyedList, ReadError, ScriptAction, SeriesError, SettingsFilesPath,
    SymbolSeries, ValueMap, backtest_files, decode_src, decode_src_symbols, encode_src,
    encode_src_symbols, format_column_maps, format_columns, format_values, get_backtest_dir, join,
    join_path, parse_chunk, parse_data_columns, parse_data_values, read_data_columns,
    read_stat_columns, read_stat_values, split, transpose,
};

fn strings(xs: &[&str]) -> Vec<String> {
    xs.iter().map(|x| x.to_string()).collect()
}

fn table(cols: &[(&str, &[&str])]) -> ColumnMap {
    let mut m: ColumnMap = KeyedList::new();
    for (k, cells) in cols {
        m.insert(k.to_string(), strings(cells));
    }
    m
}

fn values(entries: &[(&str, &str)]) -> ValueMap {
    let mut m: ValueMap = KeyedList::new();
    for (k, v) in entries {
        m.insert(k.to_string(), v.to_string());
    }
    m
}

fn settings() -> SettingsFilesPath {
    SettingsFilesPath {
        src: "test_dir/src".to_string(),
        backtest: "test_dir/backtest".to_string(),
        script_backtest: "scripts/backtest.plt".to_string(),
        script_stat: "scripts/stat.plt".to_string(),
        train_model: "test_dir/train_model".to_string(),
    }
}

#[test]
fn backtest_dir_is_dir_time_symbol() {
    assert_eq!(
        get_backtest_dir("test_dir/backtest", "symbol", 1),
        "test_dir/backtest/1/symbol"
    );
    assert_eq!(get_backtest_dir("d", "s", 0), "d/0/s");
    assert_eq!(get_backtest_dir("", "", 1234567890), "/1234567890/");
    assert_eq!(
        get_backtest_dir("a", "b", u64::MAX),
        format!("a/{}/b", u64::MAX)
    );
}

#[test]
fn file_wr_paths() {
    let s = settings();
    let f = FileWR::new(&s);
    assert_eq!(f.settings(), &s);
    assert_eq!(f.src_file(), "test_dir/src/src.bin");
    assert_eq!(f.src_symbols_file(), "test_dir/src/src_symbols.bin");
    assert_eq!(f.backtest_dir("symbol", 1), "test_dir/backtest/1/symbol");
    assert_eq!(join_path("a/b", "c.dat"), "a/b/c.dat");
    let files = backtest_files("test_dir/backtest/1/symbol");
    assert_eq!(
        files.script_backtest,
        "test_dir/backtest/1/symbol/script_backtest.plt"
    );
    assert_eq!(
        files.script_stat_columns,
        "test_dir/backtest/1/symbol/script_stat_columns.plt"
    );
    assert_eq!(
        files.script_stat_values,
        "test_dir/backtest/1/symbol/script_stat_values.plt"
    );
    assert_eq!(files.data, "test_dir/backtest/1/symbol/data.dat");
    assert_eq!(files.stat_columns, "test_dir/backtest/1/symbol/stat_columns.dat");
    assert_eq!(files.stat_values, "test_dir/backtest/1/symbol/stat_values.dat");
}

#[test]
fn script_action_copies_an_existing_template() {
    let s = settings();
    let f = FileWR::new(&s);
    assert_eq!(
        f.script_action("d", "script_backtest.plt", "plot x", true),
        ScriptAction::Copy {
            from: "scripts/backtest.plt".to_string(),
            to: "d/script_backtest.plt".to_string()
        }
    );
    assert_eq!(
        f.script_action("d", "script_backtest.plt", "plot x", false),
        ScriptAction::Create {
            path: "d/script_backtest.plt".to_string(),
            content: "plot x\n".to_string()
        }
    );
}

#[test]
fn split_is_str_split() {
    let cases = [
        ("a\n\nb", "\n\n"),
        ("a\n\n\nb", "\n\n"),
        ("", "\n"),
        ("\n", "\n"),
        ("x y  z ", " "),
        ("ab\n\n\n\n", "\n\n"),
        ("héllo wörld", "ö"),
    ];
    for (s, sep) in cases {
        let expected: Vec<String> = s.split(sep).map(|p| p.to_string()).collect();
        assert_eq!(split(s, sep), expected);
    }
}

#[test]
fn join_is_slice_join() {
    assert_eq!(join(&strings(&["a", "b", "c"]), " "), "a b c");
    assert_eq!(join(&strings(&[]), " "), "");
    assert_eq!(join(&strings(&["only"]), ", "), "only");
}

#[test]
fn insert_keeps_place_and_replaces_value() {
    let mut m = values(&[("a", "1"), ("b", "2")]);
    m.insert("a".to_string(), "3".to_string());
    m.insert("c".to_string(), "4".to_string());
    assert_eq!(m.len(), 3);
    assert_eq!(
        m.entries(),
        &vec![
            ("a".to_string(), "3".to_string()),
            ("b".to_string(), "2".to_string()),
            ("c".to_string(), "4".to_string())
        ]
    );
    assert_eq!(m.position(&"b".to_string()), Some(1));
    assert_eq!(m.position(&"z".to_string()), None);
}

#[test]
fn format_columns_layout() {
    let m = table(&[("open", &["1", "2"]), ("close", &["3", "4"])]);
    assert_eq!(format_columns(&m), "open close\n1 3\n2 4\n\n\n\n");
    let empty: ColumnMap = KeyedList::new();
    assert_eq!(format_columns(&empty), "\n");
    let no_rows = table(&[("k", &[])]);
    assert_eq!(format_columns(&no_rows), "k\n\n\n\n");
    let longer_second = table(&[("a", &["1"]), ("b", &["2", "9"])]);
    assert_eq!(format_columns(&longer_second), "a b\n1 2\n\n\n\n");
}

#[test]
fn format_column_maps_concatenates() {
    let ms = vec![table(&[("a", &["1"])]), table(&[("b", &["2"]), ("c", &["3"])])];
    assert_eq!(format_column_maps(&ms), "a\n1\n\n\n\nb c\n2 3\n\n\n\n");
    assert_eq!(format_column_maps(&vec![]), "");
}

#[test]
fn transpose_rows() {
    let rows = vec![strings(&["a", "b"]), strings(&["1", "2"]), strings(&["3", "4"])];
    assert_eq!(
        transpose(&rows),
        Some(vec![strings(&["a", "1", "3"]), strings(&["b", "2", "4"])])
    );
    let ragged = vec![strings(&["a", "b"]), strings(&["1"])];
    assert_eq!(transpose(&ragged), None);
    assert_eq!(transpose(&vec![]), Some(vec![]));
}

#[test]
fn parse_chunk_reads_columns() {
    assert_eq!(
        parse_chunk("a b\n1 2\n3 4"),
        Some(table(&[("a", &["1", "3"]), ("b", &["2", "4"])]))
    );
    assert_eq!(parse_chunk("a b\n1"), None);
    assert_eq!(parse_chunk("a a\n1 2"), Some(table(&[("a", &["2"])])));
}

#[test]
fn parse_data_columns_skips_blank_chunks() {
    let chunks = strings(&["a b\n1 2", "", "\n", "c\n3\n4"]);
    assert_eq!(
        parse_data_columns(&chunks),
        Ok(vec![
            table(&[("a", &["1"]), ("b", &["2"])]),
            table(&[("c", &["3", "4"])])
        ])
    );
    assert_eq!(
        parse_data_columns(&strings(&["a b\n1"])),
        Err(ReadError::RaggedRows)
    );
    assert_eq!(parse_data_columns(&vec![]), Ok(vec![]));
}

#[test]
fn data_columns_read_back() {
    let ms = vec![
        table(&[("open", &["1.5", "2"]), ("close", &["3", "-4e-7"])]),
        table(&[("k", &[])]),
        table(&[("x", &["NaN"]), ("y", &["inf"]), ("z", &["0"])]),
    ];
    let text = format_column_maps(&ms);
    assert_eq!(read_data_columns(&text), Ok(ms));
}

#[test]
fn data_columns_with_empty_cells_read_back() {
    let ms = vec![table(&[("", &["", "1"]), ("b", &["2", ""])])];
    let text = format_column_maps(&ms);
    assert_eq!(text, " b\n 2\n1 \n\n\n\n");
    assert_eq!(read_data_columns(&text), Ok(ms));
}

#[test]
fn one_column_with_an_empty_cell_does_not_read_back() {
    let ms = vec![table(&[("k", &["", "1"])])];
    let text = format_column_maps(&ms);
    assert_eq!(
        read_data_columns(&text),
        Ok(vec![table(&[("k", &[])]), table(&[("1", &[])])])
    );
}

#[test]
fn data_columns_with_spaces_do_not_read_back() {
    let ms = vec![table(&[("a", &["1 2"]), ("b", &["3"])])];
    let text = format_column_maps(&ms);
    assert_eq!(read_data_columns(&text), Err(ReadError::RaggedRows));
}

#[test]
fn stat_columns_read_as_one_chunk() {
    let empty: ColumnMap = KeyedList::new();
    assert_eq!(read_stat_columns(&format_columns(&empty)), Ok(KeyedList::new()));
    let two = table(&[("a", &["1"]), ("b", &["2"])]);
    assert_eq!(
        read_stat_columns(&format_columns(&two)),
        Err(ReadError::RaggedRows)
    );
    let one = table(&[("a", &["1"])]);
    assert_eq!(
        read_stat_columns(&format_columns(&one)),
        Ok(table(&[("a", &["1", "", "", "", ""])]))
    );
    assert_eq!(read_stat_columns("a b\n1 2"), Ok(two));
}

#[test]
fn format_values_layout() {
    let m = values(&[("profit", "1.5"), ("trades", "2")]);
    assert_eq!(format_values(&m), "profit 1.5\ntrades 2\n");
    assert_eq!(format_values(&KeyedList::new()), "");
}

#[test]
fn parse_data_values_per_chunk() {
    assert_eq!(
        parse_data_values(&strings(&["a 1\n\nb 2 extra\n", ""])),
        Ok(vec![values(&[("a", "1"), ("b", "2")]), KeyedList::new()])
    );
    assert_eq!(
        parse_data_values(&strings(&["a 1\nb"])),
        Err(ReadError::MissingValue)
    );
    assert_eq!(
        parse_data_values(&strings(&["a 1\na 2"])),
        Ok(vec![values(&[("a", "2")])])
    );
}

#[test]
fn stat_values_read_back() {
    let m = values(&[("profit", "1.5"), ("drawdown", "-0.25"), ("", "")]);
    assert_eq!(read_stat_values(&format_values(&m)), Ok(m));
    assert_eq!(read_stat_values(""), Ok(KeyedList::new()));
    assert_eq!(read_stat_values("x"), Err(ReadError::MissingValue));
}

fn bits(rows: &[&[f64]]) -> Vec<Vec<[u8; 8]>> {
    rows.iter()
        .map(|r| r.iter().map(|x| x.to_le_bytes()).collect())
        .collect()
}

#[test]
fn src_bytes_are_those_of_the_f64_series() {
    let rows: Vec<Vec<f64>> = vec![vec![1.5, -2.0, 3.25], vec![], vec![f64::MAX]];
    let slices: Vec<&[f64]> = rows.iter().map(|r| r.as_slice()).collect();
    let expected = bincode::serde::encode_to_vec(&rows, bincode::config::standard()).unwrap();
    let bytes = encode_src(&bits(&slices));
    assert_eq!(bytes, expected);
    assert_ne!(bytes, Vec::<u8>::new());
    assert_eq!(decode_src(&bytes), Ok(bits(&slices)));
}

#[test]
fn src_bytes_layout() {
    let rows = vec![vec![[1u8, 2, 3, 4, 5, 6, 7, 8]], vec![]];
    assert_eq!(
        encode_src(&rows),
        vec![2, 1, 1, 2, 3, 4, 5, 6, 7, 8, 0]
    );
    let long: Vec<Vec<[u8; 8]>> = vec![vec![]; 251];
    let bytes = encode_src(&long);
    assert_eq!(&bytes[..3], &[251, 251, 0]);
    assert_eq!(bytes.len(), 3 + 251);
    let mut tail = bytes.clone();
    tail.extend_from_slice(&[9, 9]);
    assert_eq!(decode_src(&tail), Ok(long));
}

#[test]
fn src_decode_errors() {
    assert_eq!(decode_src(&[]), Err(SeriesError::Decode));
    assert_eq!(decode_src(&[2, 1]), Err(SeriesError::Decode));
}

#[test]
fn src_symbols_bytes_are_those_of_the_map() {
    let mut map: BTreeMap<String, Vec<Vec<f64>>> = BTreeMap::new();
    map.insert("BTC".to_string(), vec![vec![1.0, 2.0]]);
    map.insert("ETH".to_string(), vec![vec![3.0], vec![4.5]]);
    let expected = bincode::serde::encode_to_vec(&map, bincode::config::standard()).unwrap();
    let mut m: SymbolSeries = KeyedList::new();
    m.insert("BTC".to_string(), bits(&[&[1.0, 2.0]]));
    m.insert("ETH".to_string(), bits(&[&[3.0], &[4.5]]));
    let bytes = encode_src_symbols(&m);
    assert_eq!(bytes, expected);
    assert_eq!(&bytes[..5], &[2, 3, b'B', b'T', b'C']);
    assert_eq!(decode_src_symbols(&bytes), Ok(m));
    let empty: SymbolSeries = KeyedList::new();
    assert_eq!(
        decode_src_symbols(&encode_src_symbols(&empty)),
        Ok(KeyedList::new())
    );
}

#[test]
fn src_symbols_repeated_key_keeps_last_value() {
    let pairs: Vec<(String, Vec<Vec<f64>>)> = vec![
        ("A".to_string(), vec![vec![1.0]]),
        ("B".to_string(), vec![]),
        ("A".to_string(), vec![vec![2.0]]),
    ];
    let bytes = bincode::serde::encode_to_vec(&pairs, bincode::config::standard()).unwrap();
    let mut m: SymbolSeries = KeyedList::new();
    m.insert("A".to_string(), bits(&[&[2.0]]));
    m.insert("B".to_string(), vec![]);
    assert_eq!(decode_src_symbols(&bytes), Ok(m));
    assert_eq!(decode_src_symbols(&[5]), Err(SeriesError::Decode));
}

#[test]
fn value_maps_from_entries() {
    let m = KeyedList::from_entries(vec![
        ("x".to_string(), "1".to_string()),
        ("y".to_string(), "2".to_string()),
        ("x".to_string(), "3".to_string()),
    ]);
    assert_eq!(m, values(&[("x", "3"), ("y", "2")]));
    assert!(!m.is_empty());
}
