//! The column table format of `data.dat` and `stat_columns.dat`.
//!
//! A table is written as a line of its keys, then one line per row with the
//! cell of every column, all separated by single spaces; a table that has
//! keys ends with three more line breaks, so that tables are parted by a
//! blank run. Reading splits the text into chunks at each `"\n\n"`, skips the
//! chunks that are empty or a lone line break, splits every chunk into lines
//! and the lines into tokens, and turns the rows of tokens into columns: the
//! first token of a column is its key, the others its cells.

use vstd::prelude::*;

use crate::keyed::{
    KeyedList, distinct_keys, insert_all, lemma_deep_view_is_view, lemma_insert_all_distinct,
};
use crate::text::{
    chars_of, join, join_seq, lemma_join_push, lemma_split_nonempty, push_char, split, split_seq,
};

verus! {

broadcast use lemma_deep_view_is_view;

/// A table: each key with its column of cells, in key order.
pub type ColumnMap = KeyedList<Vec<String>>;

/// The view of a table.
pub type ColumnsView = Seq<(Seq<char>, Seq<Seq<char>>)>;

/// Why a text could not be read.
#[derive(Debug, PartialEq, Eq)]
pub enum ReadError {
    /// A chunk of a column table has lines with different numbers of tokens.
    RaggedRows,
    /// A line of a value table has no second token.
    MissingValue,
}

/// A single space.
pub open spec fn space() -> Seq<char> {
    seq![' ']
}

/// A single line break.
pub open spec fn newline() -> Seq<char> {
    seq!['\n']
}

/// Two line breaks: what parts the chunks of a column file.
pub open spec fn chunk_break() -> Seq<char> {
    seq!['\n', '\n']
}

/// The texts one after another.
pub open spec fn concat(texts: Seq<Seq<char>>) -> Seq<char>
    decreases texts.len(),
{
    if texts.len() == 0 {
        Seq::empty()
    } else {
        concat(texts.drop_last()) + texts.last()
    }
}

/// Each line followed by a line break, as `writeln!` writes them.
pub open spec fn terminated(lines: Seq<Seq<char>>) -> Seq<char>
    decreases lines.len(),
{
    if lines.len() == 0 {
        Seq::empty()
    } else {
        terminated(lines.drop_last()) + lines.last() + newline()
    }
}

/// The number of rows that are written: the length of the first column.
pub open spec fn row_count(m: ColumnsView) -> nat {
    if m.len() == 0 {
        0
    } else {
        m[0].1.len()
    }
}

/// Every column has a cell in each row that is written.
pub open spec fn rows_printable(m: ColumnsView) -> bool {
    forall|j: int| 0 <= j < m.len() ==> (#[trigger] m[j]).1.len() >= row_count(m)
}

/// The keys in order.
pub open spec fn keys_of(m: ColumnsView) -> Seq<Seq<char>> {
    Seq::new(m.len(), |j: int| m[j].0)
}

/// Row `i`: the cell of every column at `i`.
pub open spec fn row_of(m: ColumnsView, i: int) -> Seq<Seq<char>> {
    Seq::new(m.len(), |j: int| m[j].1[i])
}

/// The lines of a table: the keys, then the rows.
pub open spec fn table_lines(m: ColumnsView) -> Seq<Seq<char>> {
    seq![join_seq(keys_of(m), space())] + Seq::new(
        row_count(m),
        |i: int| join_seq(row_of(m, i), space()),
    )
}

/// The text of one table.
pub open spec fn table_text(m: ColumnsView) -> Seq<char> {
    terminated(table_lines(m)) + if m.len() > 0 {
        seq!['\n', '\n', '\n']
    } else {
        Seq::empty()
    }
}

/// The text of tables written one after another.
pub open spec fn tables_text(ms: Seq<ColumnsView>) -> Seq<char> {
    concat(ms.map_values(|m: ColumnsView| table_text(m)))
}

/// A chunk that reading skips.
pub open spec fn skipped_chunk(chunk: Seq<char>) -> bool {
    chunk.len() == 0 || chunk == newline()
}

/// The tokens of each line of a chunk.
pub open spec fn chunk_rows(chunk: Seq<char>) -> Seq<Seq<Seq<char>>> {
    split_seq(chunk, newline()).map_values(|line: Seq<char>| split_seq(line, space()))
}

/// The number of columns of rows: the length of the first row.
pub open spec fn width(rows: Seq<Seq<Seq<char>>>) -> nat {
    if rows.len() == 0 {
        0
    } else {
        rows[0].len()
    }
}

/// All rows are as long as the first.
pub open spec fn rectangular(rows: Seq<Seq<Seq<char>>>) -> bool {
    forall|i: int| 0 <= i < rows.len() ==> (#[trigger] rows[i]).len() == width(rows)
}

/// The columns of rectangular rows; `None` where the rows differ in length.
pub open spec fn transpose_spec(rows: Seq<Seq<Seq<char>>>) -> Option<Seq<Seq<Seq<char>>>> {
    if rectangular(rows) {
        Some(
            Seq::new(width(rows), |j: int| Seq::new(rows.len(), |i: int| rows[i][j])),
        )
    } else {
        None
    }
}

/// A column read as its first token, the key, and the rest, the cells.
pub open spec fn column_entry(col: Seq<Seq<char>>) -> (Seq<char>, Seq<Seq<char>>) {
    (col[0], col.drop_first())
}

/// The table that the columns make, inserted in order.
pub open spec fn table_of_columns(cols: Seq<Seq<Seq<char>>>) -> ColumnsView {
    insert_all(cols.map_values(|c: Seq<Seq<char>>| column_entry(c)))
}

/// The table that one chunk is read as.
pub open spec fn parse_chunk_spec(chunk: Seq<char>) -> Option<ColumnsView> {
    match transpose_spec(chunk_rows(chunk)) {
        Some(cols) => Some(table_of_columns(cols)),
        None => None,
    }
}

/// The tables that the chunks are read as, in order; `None` where a chunk is ragged.
pub open spec fn parse_columns_spec(chunks: Seq<Seq<char>>) -> Option<Seq<ColumnsView>>
    decreases chunks.len(),
{
    if chunks.len() == 0 {
        Some(Seq::empty())
    } else {
        let rest = parse_columns_spec(chunks.drop_first());
        if skipped_chunk(chunks[0]) {
            rest
        } else {
            match parse_chunk_spec(chunks[0]) {
                None => None,
                Some(m) => match rest {
                    None => None,
                    Some(r) => Some(seq![m] + r),
                },
            }
        }
    }
}

/// Appends a line and a line break.
fn push_line(r: &mut String, line: &str)
    ensures
        final(r)@ == old(r)@ + line@ + newline(),
{
    r.append(line);
    push_char(r, '\n');
}

/// The text of one table, as it is written to a column file.
pub fn format_columns(m: &ColumnMap) -> (r: String)
    requires
        rows_printable(m@),
    ensures
        r@ == table_text(m@),
{
    let entries = m.entries();
    let k: usize = entries.len();
    let ghost mv = m@;
    let mut keys: Vec<String> = Vec::new();
    let mut j: usize = 0;
    while j < k
        invariant
            k == entries.len(),
            entries.deep_view() == mv,
            j <= k,
            keys.deep_view() == keys_of(mv).take(j as int),
        decreases k - j,
    {
        let ghost before = keys.deep_view();
        keys.push(entries[j].0.clone());
        assert(keys.deep_view() =~= keys_of(mv).take(j + 1)) by {
            assert(keys.deep_view() =~= before.push(mv[j as int].0));
        }
        j += 1;
    }
    assert(keys_of(mv).take(k as int) =~= keys_of(mv));
    proof {
        reveal_strlit(" ");
    }
    assert(" "@ =~= space());
    let header = join(&keys, " ");
    let mut r = String::new();
    push_line(&mut r, header.as_str());
    let ghost lines = table_lines(mv);
    assert(lines.take(1) =~= seq![lines[0]]);
    assert(r@ == terminated(lines.take(1))) by {
        assert(lines.take(1).drop_last() =~= Seq::<Seq<char>>::empty());
        assert(lines[0] == header@);
        assert(terminated(lines.take(1).drop_last()) =~= Seq::<char>::empty());
        assert(lines.take(1).last() == lines[0]);
        assert(r@ =~= Seq::<char>::empty() + header@ + newline());
    }
    let n: usize = if k == 0 {
        0
    } else {
        entries[0].1.len()
    };
    let mut i: usize = 0;
    while i < n
        invariant
            k == entries.len(),
            entries.deep_view() == mv,
            rows_printable(mv),
            n == row_count(mv),
            lines == table_lines(mv),
            i <= n,
            r@ == terminated(lines.take(i + 1)),
        decreases n - i,
    {
        let mut cells: Vec<String> = Vec::new();
        let mut j: usize = 0;
        while j < k
            invariant
                k == entries.len(),
                entries.deep_view() == mv,
                rows_printable(mv),
                n == row_count(mv),
                i < n,
                j <= k,
                cells.deep_view() == row_of(mv, i as int).take(j as int),
            decreases k - j,
        {
            assert(mv[j as int].1.len() >= n);
            assert(entries[j as int].1.deep_view() == mv[j as int].1);
            let ghost before = cells.deep_view();
            cells.push(entries[j].1[i].clone());
            assert(cells.deep_view() =~= row_of(mv, i as int).take(j + 1)) by {
                assert(cells.deep_view() =~= before.push(mv[j as int].1[i as int]));
            }
            j += 1;
        }
        assert(row_of(mv, i as int).take(k as int) =~= row_of(mv, i as int));
        proof {
            reveal_strlit(" ");
        }
        assert(" "@ =~= space());
        let row = join(&cells, " ");
        push_line(&mut r, row.as_str());
        assert(lines.take(i + 2).drop_last() =~= lines.take(i + 1));
        assert(lines[i + 1] == row@);
        i += 1;
    }
    assert(lines.take(n + 1) =~= lines);
    if k > 0 {
        let ghost body = r@;
        push_char(&mut r, '\n');
        push_char(&mut r, '\n');
        push_char(&mut r, '\n');
        assert(r@ =~= body + seq!['\n', '\n', '\n']);
    } else {
        assert(r@ =~= table_text(mv));
    }
    r
}


/// The text of tables written one after another, as a column file holds them.
pub fn format_column_maps(ms: &Vec<ColumnMap>) -> (r: String)
    requires
        forall|i: int| 0 <= i < ms.len() ==> rows_printable(#[trigger] ms@[i]@),
    ensures
        r@ == tables_text(ms.deep_view()),
{
    let ghost texts = ms.deep_view().map_values(|m: ColumnsView| table_text(m));
    let mut r = String::new();
    let mut i: usize = 0;
    assert(texts.take(0) =~= Seq::<Seq<char>>::empty());
    while i < ms.len()
        invariant
            i <= ms.len(),
            forall|i: int| 0 <= i < ms.len() ==> rows_printable(#[trigger] ms@[i]@),
            texts == ms.deep_view().map_values(|m: ColumnsView| table_text(m)),
            r@ == concat(texts.take(i as int)),
        decreases ms.len() - i,
    {
        let t = format_columns(&ms[i]);
        assert(texts.take(i + 1).drop_last() =~= texts.take(i as int));
        assert(texts[i as int] == t@);
        r.append(t.as_str());
        i += 1;
    }
    assert(texts.take(ms.len() as int) =~= texts);
    r
}

/// The columns of the rows when all rows are as long as the first; `None` otherwise.
pub fn transpose(rows: &Vec<Vec<String>>) -> (r: Option<Vec<Vec<String>>>)
    ensures
        match r {
            Some(cols) => transpose_spec(rows.deep_view()) == Some(cols.deep_view()),
            None => transpose_spec(rows.deep_view()) is None,
        },
{
    let ghost rv = rows.deep_view();
    let h: usize = rows.len();
    let w: usize = if h == 0 {
        0
    } else {
        rows[0].len()
    };
    let mut i: usize = 0;
    while i < h
        invariant
            h == rows.len(),
            rv == rows.deep_view(),
            w == width(rv),
            i <= h,
            forall|k: int| 0 <= k < i ==> (#[trigger] rv[k]).len() == w,
        decreases h - i,
    {
        if rows[i].len() != w {
            assert(rv[i as int].len() != width(rv));
            return None;
        }
        i += 1;
    }
    assert(rectangular(rv));
    let ghost cv = Seq::new(width(rv), |j: int| Seq::new(rv.len(), |i: int| rv[i][j]));
    let mut cols: Vec<Vec<String>> = Vec::new();
    let mut j: usize = 0;
    while j < w
        invariant
            h == rows.len(),
            rv == rows.deep_view(),
            w == width(rv),
            rectangular(rv),
            cv == Seq::new(width(rv), |j: int| Seq::new(rv.len(), |i: int| rv[i][j])),
            j <= w,
            cols.deep_view() == cv.take(j as int),
        decreases w - j,
    {
        let mut col: Vec<String> = Vec::new();
        let mut i: usize = 0;
        while i < h
            invariant
                h == rows.len(),
                rv == rows.deep_view(),
                w == width(rv),
                rectangular(rv),
                j < w,
                i <= h,
                col.deep_view() == cv[j as int].take(i as int),
                cv == Seq::new(width(rv), |j: int| Seq::new(rv.len(), |i: int| rv[i][j])),
            decreases h - i,
        {
            assert(rv[i as int].len() == w);
            assert(rows[i as int].deep_view() == rv[i as int]);
            let ghost before = col.deep_view();
            col.push(rows[i][j].clone());
            assert(col.deep_view() =~= cv[j as int].take(i + 1)) by {
                assert(col.deep_view() =~= before.push(rv[i as int][j as int]));
            }
            i += 1;
        }
        assert(cv[j as int].take(h as int) =~= cv[j as int]);
        let ghost before = cols.deep_view();
        cols.push(col);
        assert(cols.deep_view() =~= cv.take(j + 1)) by {
            assert(cols.deep_view() =~= before.push(cv[j as int]));
        }
        j += 1;
    }
    assert(cv.take(w as int) =~= cv);
    Some(cols)
}

/// The table that one chunk of a column file is read as; `None` where its lines
/// have different numbers of tokens.
pub fn parse_chunk(chunk: &str) -> (r: Option<ColumnMap>)
    ensures
        match r {
            Some(m) => parse_chunk_spec(chunk@) == Some(m@) && distinct_keys(m@),
            None => parse_chunk_spec(chunk@) is None,
        },
{
    proof {
        reveal_strlit("\n");
        reveal_strlit(" ");
    }
    assert("\n"@ =~= newline());
    assert(" "@ =~= space());
    let lines = split(chunk, "\n");
    let ghost rs = chunk_rows(chunk@);
    let mut rows: Vec<Vec<String>> = Vec::new();
    let mut i: usize = 0;
    assert(rs.take(0) =~= Seq::<Seq<Seq<char>>>::empty());
    while i < lines.len()
        invariant
            lines.deep_view() == split_seq(chunk@, newline()),
            rs == chunk_rows(chunk@),
            " "@ == space(),
            i <= lines.len(),
            rows.deep_view() == rs.take(i as int),
        decreases lines.len() - i,
    {
        let toks = split(lines[i].as_str(), " ");
        let ghost before = rows.deep_view();
        rows.push(toks);
        assert(rows.deep_view() =~= rs.take(i + 1)) by {
            assert(rows.deep_view() =~= before.push(toks.deep_view()));
        }
        i += 1;
    }
    assert(rs.take(lines.len() as int) =~= rs);
    proof {
        lemma_split_nonempty(chunk@, newline());
    }
    match transpose(&rows) {
        None => None,
        Some(cols) => {
            let ghost cv = cols.deep_view();
            let ghost es = cv.map_values(|c: Seq<Seq<char>>| column_entry(c));
            let mut m: ColumnMap = KeyedList::new();
            let mut j: usize = 0;
            assert(es.take(0) =~= Seq::<(Seq<char>, Seq<Seq<char>>)>::empty());
            while j < cols.len()
                invariant
                    cv == cols.deep_view(),
                    es == cv.map_values(|c: Seq<Seq<char>>| column_entry(c)),
                    rows.deep_view().len() >= 1,
                    transpose_spec(rows.deep_view()) == Some(cv),
                    j <= cols.len(),
                    m@ == insert_all(es.take(j as int)),
                    distinct_keys(m@),
                decreases cols.len() - j,
            {
                let col = &cols[j];
                assert(cv[j as int].len() == rows.deep_view().len());
                assert(col.deep_view() == cv[j as int]);
                let key = col[0].clone();
                let mut cells: Vec<String> = Vec::new();
                let mut k: usize = 1;
                assert(cv[j as int].drop_first().take(0) =~= Seq::<Seq<char>>::empty());
                while k < col.len()
                    invariant
                        col.deep_view() == cv[j as int],
                        1 <= k <= col.len(),
                        cells.deep_view() == cv[j as int].drop_first().take(k - 1),
                    decreases col.len() - k,
                {
                    let ghost before = cells.deep_view();
                    cells.push(col[k].clone());
                    assert(cells.deep_view() =~= cv[j as int].drop_first().take(k as int)) by {
                        assert(cells.deep_view() =~= before.push(cv[j as int][k as int]));
                    }
                    k += 1;
                }
                assert(cv[j as int].drop_first().take(col.len() - 1) =~= cv[j as int].drop_first());
                assert(es[j as int] == (key@, cells.deep_view()));
                assert(es.take(j + 1).drop_last() =~= es.take(j as int));
                m.insert(key, cells);
                j += 1;
            }
            assert(es.take(cols.len() as int) =~= es);
            Some(m)
        },
    }
}

/// Whether reading skips the chunk: it is empty or a lone line break.
fn is_skipped(c: &str) -> (b: bool)
    ensures
        b == skipped_chunk(c@),
{
    let cs = chars_of(c);
    if cs.len() == 0 {
        true
    } else if cs.len() == 1 && cs[0] == '\n' {
        assert(cs@ =~= newline());
        true
    } else {
        assert(cs@.len() != 1 || cs@[0] != newline()[0]);
        false
    }
}

/// The tables that the chunks of a column file are read as, in order, skipping
/// the chunks that are empty or a lone line break.
pub fn parse_data_columns(chunks: &Vec<String>) -> (r: Result<Vec<ColumnMap>, ReadError>)
    ensures
        match r {
            Ok(ms) => parse_columns_spec(chunks.deep_view()) == Some(ms.deep_view()),
            Err(e) => parse_columns_spec(chunks.deep_view()) is None && e == ReadError::RaggedRows,
        },
{
    let ghost cs = chunks.deep_view();
    let mut out: Vec<ColumnMap> = Vec::new();
    let mut i: usize = 0;
    assert(cs.skip(0) =~= cs);
    assert(out.deep_view() =~= Seq::<ColumnsView>::empty());
    while i < chunks.len()
        invariant
            cs == chunks.deep_view(),
            i <= chunks.len(),
            parse_columns_spec(cs) == match parse_columns_spec(cs.skip(i as int)) {
                Some(rest) => Some(out.deep_view() + rest),
                None => None,
            },
        decreases chunks.len() - i,
    {
        let c = chunks[i].as_str();
        assert(cs.skip(i as int)[0] == c@);
        assert(cs.skip(i as int).drop_first() =~= cs.skip(i + 1));
        let ghost tail = parse_columns_spec(cs.skip(i + 1));
        if is_skipped(c) {
        } else {
            match parse_chunk(c) {
                None => {
                    return Err(ReadError::RaggedRows);
                },
                Some(m) => {
                    let ghost before = out.deep_view();
                    out.push(m);
                    assert(out.deep_view() =~= before.push(m@));
                    assert(forall|rest: Seq<ColumnsView>|
                        #![trigger before + (seq![m@] + rest)]
                        before + (seq![m@] + rest) =~= out.deep_view() + rest);
                },
            }
        }
        i += 1;
    }
    assert(cs.skip(chunks.len() as int) =~= Seq::<Seq<char>>::empty());
    assert(out.deep_view() + Seq::<ColumnsView>::empty() =~= out.deep_view());
    Ok(out)
}

/// The entries that a chunk's lines give when every line has as many tokens
/// as the first: column `j` has token `j` of the first line as its key, and
/// token `j` of each later line, in order, as its cells.
pub open spec fn chunk_entries(chunk: Seq<char>) -> ColumnsView {
    let lines = split_seq(chunk, seq!['\n']);
    let head = split_seq(lines[0], seq![' ']);
    Seq::new(
        head.len(),
        |j: int|
            (
                head[j],
                Seq::new((lines.len() - 1) as nat, |i: int| split_seq(lines[i + 1], seq![' '])[j]),
            ),
    )
}

/// Reading a chunk takes every token verbatim: it succeeds exactly when every
/// line has as many space separated tokens as the first, and then column `j`
/// is keyed by token `j` of the first line and holds token `j` of every later
/// line as its cells; a key that comes twice keeps its first place and its
/// last column.
pub proof fn lemma_parse_chunk_tokens(chunk: Seq<char>)
    ensures
        parse_chunk_spec(chunk) is Some <==> forall|i: int|
            0 <= i < split_seq(chunk, seq!['\n']).len() ==> (#[trigger] split_seq(
                split_seq(chunk, seq!['\n'])[i],
                seq![' '],
            )).len() == split_seq(split_seq(chunk, seq!['\n'])[0], seq![' ']).len(),
        parse_chunk_spec(chunk) is Some ==> parse_chunk_spec(chunk) == Some(
            insert_all(chunk_entries(chunk)),
        ),
        parse_chunk_spec(chunk) is Some && distinct_keys(chunk_entries(chunk)) ==> parse_chunk_spec(
            chunk,
        ) == Some(chunk_entries(chunk)),
{
    let lines = split_seq(chunk, seq!['\n']);
    assert(newline() == seq!['\n']);
    assert(space() == seq![' ']);
    lemma_split_nonempty(chunk, newline());
    let rows = chunk_rows(chunk);
    assert(rows.len() == lines.len());
    assert forall|i: int| 0 <= i < lines.len() implies #[trigger] rows[i] == split_seq(lines[i], seq![' ']) by {}
    let w = width(rows);
    assert(w == split_seq(lines[0], seq![' ']).len());
    assert(rectangular(rows) <==> forall|i: int|
        0 <= i < lines.len() ==> (#[trigger] split_seq(lines[i], seq![' '])).len() == w) by {
        if rectangular(rows) {
            assert forall|i: int| 0 <= i < lines.len() implies (#[trigger] split_seq(lines[i], seq![' '])).len() == w by {
                assert(rows[i].len() == w);
            }
        }
        if forall|i: int| 0 <= i < lines.len() ==> (#[trigger] split_seq(lines[i], seq![' '])).len() == w {
            assert forall|i: int| 0 <= i < rows.len() implies (#[trigger] rows[i]).len() == width(rows) by {
                assert(split_seq(lines[i], seq![' ']).len() == w);
            }
        }
    }
    if rectangular(rows) {
        let cols = Seq::new(width(rows), |j: int| Seq::new(rows.len(), |i: int| rows[i][j]));
        assert(transpose_spec(rows) == Some(cols));
        let es = cols.map_values(|c: Seq<Seq<char>>| column_entry(c));
        let ce = chunk_entries(chunk);
        assert forall|j: int| 0 <= j < ce.len() implies #[trigger] es[j] == ce[j] by {
            assert(cols[j][0] == rows[0][j]);
            assert(cols[j].drop_first() =~= ce[j].1);
        }
        assert(es =~= ce);
        if distinct_keys(ce) {
            lemma_insert_all_distinct(ce);
        }
    }
}

/// Writing a table puts its keys verbatim and in order, joined by single
/// spaces, on the first line, then for each row `i` (as many as the first
/// column has cells) the cell `i` of every column, verbatim and in key order,
/// joined by single spaces; each line ends with a line break, and a table with
/// a key ends with three more.
pub proof fn lemma_table_text_layout(m: ColumnsView)
    ensures
        table_text(m) == join_seq(
            seq![join_seq(Seq::new(m.len(), |j: int| m[j].0), seq![' '])] + Seq::new(
                if m.len() == 0 {
                    0nat
                } else {
                    m[0].1.len()
                },
                |i: int| join_seq(Seq::new(m.len(), |j: int| m[j].1[i]), seq![' ']),
            ),
            seq!['\n'],
        ) + seq!['\n'] + if m.len() > 0 {
            seq!['\n', '\n', '\n']
        } else {
            Seq::empty()
        },
{
    let lines = seq![join_seq(Seq::new(m.len(), |j: int| m[j].0), seq![' '])] + Seq::new(
        if m.len() == 0 {
            0nat
        } else {
            m[0].1.len()
        },
        |i: int| join_seq(Seq::new(m.len(), |j: int| m[j].1[i]), seq![' ']),
    );
    assert(space() =~= seq![' ']);
    assert(keys_of(m) =~= Seq::new(m.len(), |j: int| m[j].0));
    assert forall|i: int| 0 <= i < row_count(m) implies #[trigger] row_of(m, i) =~= Seq::new(
        m.len(),
        |j: int| m[j].1[i],
    ) by {}
    assert(table_lines(m) =~= lines);
    lemma_terminated_join(lines);
}

/// Writing tables one after another writes each table's text in turn.
pub proof fn lemma_tables_text_push(ms: Seq<ColumnsView>, m: ColumnsView)
    ensures
        tables_text(Seq::<ColumnsView>::empty()) == Seq::<char>::empty(),
        tables_text(ms.push(m)) == tables_text(ms) + table_text(m),
{
    let f = |m: ColumnsView| table_text(m);
    assert(Seq::<ColumnsView>::empty().map_values(f) =~= Seq::<Seq<char>>::empty());
    assert(ms.push(m).map_values(f).drop_last() =~= ms.map_values(f));
}

/// Each line followed by a line break is the lines joined by line breaks and
/// one more line break.
pub proof fn lemma_terminated_join(lines: Seq<Seq<char>>)
    requires
        lines.len() >= 1,
    ensures
        terminated(lines) == join_seq(lines, newline()) + newline(),
    decreases lines.len(),
{
    if lines.len() == 1 {
        assert(lines.drop_last() =~= Seq::<Seq<char>>::empty());
        assert(terminated(lines.drop_last()) =~= Seq::<char>::empty());
        assert(terminated(lines) =~= lines[0] + newline());
    } else {
        let dl = lines.drop_last();
        lemma_terminated_join(dl);
        lemma_join_push(dl, newline(), lines.last());
        assert(dl.push(lines.last()) =~= lines);
        assert(terminated(lines) =~= join_seq(dl, newline()) + newline() + lines.last() + newline());
    }
}

/// Reading the chunks of a column file goes through them in order: a chunk
/// that is empty or a lone line break is passed over, any other is read as a
/// table that comes before the tables of the later chunks, and one chunk that
/// cannot be read makes the whole read fail.
pub proof fn lemma_parse_columns_front(c: Seq<char>, rest: Seq<Seq<char>>)
    ensures
        parse_columns_spec(Seq::<Seq<char>>::empty()) == Some(Seq::<ColumnsView>::empty()),
        (c.len() == 0 || c == seq!['\n']) ==> parse_columns_spec(seq![c] + rest)
            == parse_columns_spec(rest),
        !(c.len() == 0 || c == seq!['\n']) ==> parse_columns_spec(seq![c] + rest) == match (
            parse_chunk_spec(c),
            parse_columns_spec(rest),
        ) {
            (Some(m), Some(r)) => Some(seq![m] + r),
            _ => None,
        },
{
    let cs = seq![c] + rest;
    assert(cs[0] == c);
    assert(cs.drop_first() =~= rest);
    assert(newline() =~= seq!['\n']);
}

/// The columns of rows: they exist exactly when every row is as long as the
/// first, and then there is one column per token of the first row, and cell
/// `i` of column `j` is token `j` of row `i`.
pub proof fn lemma_transpose_law(rows: Seq<Seq<Seq<char>>>)
    ensures
        transpose_spec(rows) is Some <==> forall|i: int|
            0 <= i < rows.len() ==> (#[trigger] rows[i]).len() == rows[0].len(),
        transpose_spec(rows) matches Some(cols) ==> {
            &&& rows.len() > 0 ==> cols.len() == rows[0].len()
            &&& rows.len() == 0 ==> cols.len() == 0
            &&& forall|j: int| 0 <= j < cols.len() ==> (#[trigger] cols[j]).len() == rows.len()
            &&& forall|j: int, i: int|
                0 <= j < cols.len() && 0 <= i < rows.len() ==> #[trigger] cols[j][i] == rows[i][j]
        },
{
}

} // verus!
