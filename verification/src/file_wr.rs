//! The reader and writer of the files of a backtest setup: what each of its
//! operations reads, decides and writes, apart from the file system itself.

use vstd::prelude::*;

use crate::columns::{
    ColumnMap, ReadError, chunk_break, parse_columns_spec, parse_data_columns,
};
use crate::keyed::{KeyedList, lemma_deep_view_is_view};
use crate::paths::{SettingsFilesPath, decimal, get_backtest_dir, join_path, path_join};
use crate::text::{push_char, split, split_seq};
use crate::values::{ValueMap, parse_data_values, parse_values_spec};

verus! {

broadcast use lemma_deep_view_is_view;

/// The first table, or the empty one where there is none.
pub open spec fn first_or_empty<T>(ms: Seq<Seq<T>>) -> Seq<T> {
    if ms.len() == 0 {
        Seq::empty()
    } else {
        ms[0]
    }
}

/// The tables of `data.dat`: the text split at each `"\n\n"`, then read.
pub fn read_data_columns(text: &str) -> (r: Result<Vec<ColumnMap>, ReadError>)
    ensures
        match r {
            Ok(ms) => parse_columns_spec(split_seq(text@, chunk_break())) == Some(ms.deep_view())
                && parse_columns_spec(split_seq(text@, seq!['\n', '\n'])) == Some(ms.deep_view()),
            Err(e) => parse_columns_spec(split_seq(text@, chunk_break())) is None && e
                == ReadError::RaggedRows,
        },
{
    proof {
        reveal_strlit("\n\n");
    }
    assert("\n\n"@ =~= chunk_break());
    let chunks = split(text, "\n\n");
    parse_data_columns(&chunks)
}

/// The table of `stat_columns.dat`: the whole text read as one chunk; the
/// empty table where the chunk is skipped.
pub fn read_stat_columns(text: &str) -> (r: Result<ColumnMap, ReadError>)
    ensures
        match r {
            Ok(m) => parse_columns_spec(seq![text@]) matches Some(ms) && m@ == first_or_empty(ms)
                && (ms.len() == 0 ==> m@.len() == 0) && (ms.len() > 0 ==> m@ == ms[0]),
            Err(e) => parse_columns_spec(seq![text@]) is None && e == ReadError::RaggedRows,
        },
{
    let mut chunks: Vec<String> = Vec::new();
    chunks.push(String::from_str(text));
    assert(chunks.deep_view() =~= seq![text@]);
    let mut ms = parse_data_columns(&chunks)?;
    if ms.len() == 0 {
        let m: ColumnMap = KeyedList::new();
        Ok(m)
    } else {
        let ghost before = ms.deep_view();
        let m = ms.remove(0);
        assert(before[0] == m@);
        Ok(m)
    }
}

/// The table of `stat_values.dat`: the whole text read as one chunk.
pub fn read_stat_values(text: &str) -> (r: Result<ValueMap, ReadError>)
    ensures
        match r {
            Ok(m) => parse_values_spec(seq![text@]) matches Some(ms) && m@ == first_or_empty(ms)
                && (ms.len() == 0 ==> m@.len() == 0) && (ms.len() > 0 ==> m@ == ms[0]),
            Err(e) => parse_values_spec(seq![text@]) is None && e == ReadError::MissingValue,
        },
{
    let mut chunks: Vec<String> = Vec::new();
    chunks.push(String::from_str(text));
    assert(chunks.deep_view() =~= seq![text@]);
    let mut ms = parse_data_values(&chunks)?;
    if ms.len() == 0 {
        let m: ValueMap = KeyedList::new();
        Ok(m)
    } else {
        let ghost before = ms.deep_view();
        let m = ms.remove(0);
        assert(before[0] == m@);
        Ok(m)
    }
}

/// How a plot script comes into a backtest directory.
#[derive(Debug, PartialEq, Eq)]
pub enum ScriptAction {
    /// Create the new file `path` with `content`.
    Create { path: String, content: String },
    /// Copy the file `from` to `to`.
    Copy { from: String, to: String },
}

/// The reader and writer of the files under the directories of its settings.
pub struct FileWR<'a> {
    s: &'a SettingsFilesPath,
}

impl<'a> FileWR<'a> {
    /// The settings that the paths are taken from.
    pub closed spec fn settings_spec(&self) -> SettingsFilesPath {
        *self.s
    }

    /// A reader and writer for the directories of `s`.
    pub fn new(s: &'a SettingsFilesPath) -> (f: Self)
        ensures
            f.settings_spec() == *s,
    {
        FileWR { s }
    }

    /// The settings that the paths are taken from.
    pub fn settings(&self) -> (s: &SettingsFilesPath)
        ensures
            *s == self.settings_spec(),
    {
        self.s
    }

    /// The path of `src.bin`.
    pub fn src_file(&self) -> (r: String)
        ensures
            r@ == path_join(self.settings_spec().src@, "src.bin"@),
            r@ == self.settings_spec().src@ + seq!['/'] + "src.bin"@,
    {
        join_path(self.s.src.as_str(), "src.bin")
    }

    /// The path of `src_symbols.bin`.
    pub fn src_symbols_file(&self) -> (r: String)
        ensures
            r@ == path_join(self.settings_spec().src@, "src_symbols.bin"@),
            r@ == self.settings_spec().src@ + seq!['/'] + "src_symbols.bin"@,
    {
        join_path(self.s.src.as_str(), "src_symbols.bin")
    }

    /// The backtest directory of `symbol` in the run `time`, under the backtest directory.
    pub fn backtest_dir(&self, symbol: &str, time: u64) -> (r: String)
        ensures
            r@ == path_join(
                path_join(self.settings_spec().backtest@, decimal(time as nat)),
                symbol@,
            ),
            r@ == self.settings_spec().backtest@ + seq!['/'] + decimal(time as nat) + seq!['/']
                + symbol@,
    {
        get_backtest_dir(self.s.backtest.as_str(), symbol, time)
    }

    /// How the script `file_name` comes into `dir`: a copy of the script
    /// template where that exists, else a new file with `script` and a line break.
    pub fn script_action(&self, dir: &str, file_name: &str, script: &str, template_exists: bool) -> (r:
        ScriptAction)
        ensures
            template_exists ==> (r matches ScriptAction::Copy { from, to } && from@
                == self.settings_spec().script_backtest@ && to@ == path_join(dir@, file_name@)),
            !template_exists ==> (r matches ScriptAction::Create { path, content } && path@
                == path_join(dir@, file_name@) && content@ == script@.push('\n')),
            template_exists ==> (r matches ScriptAction::Copy { to, .. } && to@ == dir@ + seq!['/']
                + file_name@),
            !template_exists ==> (r matches ScriptAction::Create { path, .. } && path@ == dir@
                + seq!['/'] + file_name@),
    {
        let path = join_path(dir, file_name);
        if template_exists {
            ScriptAction::Copy { from: self.s.script_backtest.clone(), to: path }
        } else {
            let mut content = String::from_str(script);
            push_char(&mut content, '\n');
            ScriptAction::Create { path, content }
        }
    }
}

} // verus!
