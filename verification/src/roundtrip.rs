//! What reading gives back of what was written: the column tables and the
//! value tables come back as they were, when their keys and cells are tokens.

use vstd::prelude::*;

use crate::columns::{
    ColumnsView, chunk_break, chunk_rows, column_entry, concat, keys_of, newline,
    parse_chunk_spec, parse_columns_spec, row_count, row_of, skipped_chunk, space, table_lines,
    table_of_columns, table_text, tables_text, terminated, transpose_spec, rectangular, width,
    lemma_terminated_join,
};
use crate::values::{
    ValuesView, line_entry, parse_values_chunk_spec, parse_values_spec, skipped_line,
    value_entries, value_line, values_text,
};
use crate::keyed::{distinct_keys, lemma_insert_all_distinct};
use crate::text::{
    join_seq, lemma_join_push, lemma_split_join, matches_at, no_early_match, split_seq,
};

verus! {

/// `t` holds neither the character `c` nor anywhere else.
pub open spec fn free_of(t: Seq<char>, c: char) -> bool {
    forall|i: int| 0 <= i < t.len() ==> t[i] != c
}

/// A token of a table: without a space or a line break.
pub open spec fn token(t: Seq<char>) -> bool {
    &&& free_of(t, ' ')
    &&& free_of(t, '\n')
}

/// A table that reading gives back as it was written: it has a key, its keys
/// are distinct, its columns are equally long, its keys and cells are tokens,
/// and no line of it is empty: a table of one column has no empty key or cell.
pub open spec fn writable_table(m: ColumnsView) -> bool {
    &&& m.len() > 0
    &&& distinct_keys(m)
    &&& forall|j: int| 0 <= j < m.len() ==> (#[trigger] m[j]).1.len() == m[0].1.len()
    &&& forall|j: int| 0 <= j < m.len() ==> token((#[trigger] m[j]).0)
    &&& forall|j: int, i: int|
        0 <= j < m.len() && 0 <= i < m[j].1.len() ==> token(#[trigger] m[j].1[i])
    &&& m.len() == 1 ==> m[0].0.len() > 0 && forall|i: int|
        0 <= i < m[0].1.len() ==> (#[trigger] m[0].1[i]).len() > 0
}

/// The lines of a table joined by line breaks: one chunk of a column file.
pub open spec fn block(m: ColumnsView) -> Seq<char> {
    join_seq(table_lines(m), newline())
}

/// The chunks that a column file of these tables splits into.
pub open spec fn chunks_of(ms: Seq<ColumnsView>) -> Seq<Seq<char>>
    decreases ms.len(),
{
    if ms.len() == 0 {
        seq![Seq::empty()]
    } else {
        seq![block(ms[0]), Seq::empty()] + chunks_of(ms.drop_first())
    }
}

/// A text without a doubled line break, that neither starts nor ends with one.
pub open spec fn sparse(b: Seq<char>) -> bool {
    &&& b.len() > 0
    &&& b[0] != '\n'
    &&& b.last() != '\n'
    &&& forall|i: int| 0 <= i < b.len() - 1 ==> !(b[i] == '\n' && #[trigger] b[i + 1] == '\n')
}

proof fn lemma_concat_front(a: Seq<char>, rest: Seq<Seq<char>>)
    ensures
        concat(seq![a] + rest) == a + concat(rest),
    decreases rest.len(),
{
    if rest.len() == 0 {
        assert(seq![a] + rest =~= seq![a]);
        assert(seq![a].drop_last() =~= Seq::<Seq<char>>::empty());
        assert(concat(Seq::<Seq<char>>::empty()) =~= Seq::<char>::empty());
        assert(seq![a].last() == a);
        assert(concat(seq![a]) =~= a);
        assert(a + concat(rest) =~= a);
    } else {
        lemma_concat_front(a, rest.drop_last());
        assert((seq![a] + rest).drop_last() =~= seq![a] + rest.drop_last());
        assert(concat(seq![a] + rest) =~= a + concat(rest.drop_last()) + rest.last());
    }
}

proof fn lemma_join_free(parts: Seq<Seq<char>>, sep: Seq<char>, c: char)
    requires
        free_of(sep, c),
        forall|k: int| 0 <= k < parts.len() ==> free_of(#[trigger] parts[k], c),
    ensures
        free_of(join_seq(parts, sep), c),
    decreases parts.len(),
{
    if parts.len() == 0 {
    } else if parts.len() == 1 {
        assert(free_of(parts[0], c));
    } else {
        let rest = parts.drop_first();
        assert forall|k: int| 0 <= k < rest.len() implies free_of(#[trigger] rest[k], c) by {
            assert(rest[k] == parts[k + 1]);
        }
        lemma_join_free(rest, sep, c);
        assert(free_of(parts[0], c));
        let j = join_seq(parts, sep);
        assert(j == parts[0] + sep + join_seq(rest, sep));
        assert forall|i: int| 0 <= i < j.len() implies j[i] != c by {
            if i < parts[0].len() {
                assert(j[i] == parts[0][i]);
            } else if i < parts[0].len() + sep.len() {
                assert(j[i] == sep[i - parts[0].len()]);
            } else {
                assert(j[i] == join_seq(rest, sep)[i - parts[0].len() - sep.len()]);
            }
        }
    }
}

proof fn lemma_join_long(parts: Seq<Seq<char>>, sep: Seq<char>)
    requires
        parts.len() >= 1,
    ensures
        join_seq(parts, sep).len() >= parts[0].len(),
        parts.len() >= 2 ==> join_seq(parts, sep).len() >= parts[0].len() + sep.len(),
{
    if parts.len() > 1 {
        let j = join_seq(parts, sep);
        assert(j == parts[0] + sep + join_seq(parts.drop_first(), sep));
    }
}

/// A line of tokens joined by spaces: not empty and without a line break.
proof fn lemma_token_line(parts: Seq<Seq<char>>)
    requires
        parts.len() >= 1,
        forall|k: int| 0 <= k < parts.len() ==> token(#[trigger] parts[k]),
        parts.len() == 1 ==> parts[0].len() > 0,
    ensures
        join_seq(parts, space()).len() > 0,
        free_of(join_seq(parts, space()), '\n'),
{
    lemma_join_long(parts, space());
    assert forall|k: int| 0 <= k < parts.len() implies free_of(#[trigger] parts[k], '\n') by {
        assert(token(parts[k]));
    }
    lemma_join_free(parts, space(), '\n');
}

/// Lines that are not empty and hold no line break, joined by line breaks, are sparse.
proof fn lemma_join_sparse(lines: Seq<Seq<char>>)
    requires
        lines.len() >= 1,
        forall|k: int| 0 <= k < lines.len() ==> (#[trigger] lines[k]).len() > 0 && free_of(lines[k], '\n'),
    ensures
        sparse(join_seq(lines, newline())),
    decreases lines.len(),
{
    let l = lines[0];
    assert(l.len() > 0 && free_of(l, '\n'));
    if lines.len() == 1 {
        assert(join_seq(lines, newline()) == l);
    } else {
        let rest = lines.drop_first();
        assert forall|k: int| 0 <= k < rest.len() implies (#[trigger] rest[k]).len() > 0 && free_of(rest[k], '\n') by {
            assert(rest[k] == lines[k + 1]);
        }
        lemma_join_sparse(rest);
        let r = join_seq(rest, newline());
        let b = join_seq(lines, newline());
        assert(b == l + newline() + r);
        let n: int = l.len() as int;
        assert(b[0] == l[0]);
        assert(b.last() == r.last());
        assert forall|i: int| 0 <= i < b.len() - 1 implies !(b[i] == '\n' && #[trigger] b[i + 1] == '\n') by {
            if i <= n - 1 {
                assert(b[i] == l[i]);
                assert(l[i] != '\n');
            } else if i == n {
                assert(b[i + 1] == r[0]);
            } else {
                let k = i - n - 1;
                assert(b[i] == r[k]);
                assert(b[i + 1] == r[k + 1]);
                assert(!(r[k] == '\n' && r[k + 1] == '\n'));
            }
        }
    }
}

proof fn lemma_sparse_no_early_match(b: Seq<char>)
    requires
        sparse(b),
    ensures
        no_early_match(b, chunk_break()),
{
    let x = b + chunk_break();
    assert forall|i: int| 0 <= i < b.len() implies !matches_at(x, chunk_break(), i) by {
        if matches_at(x, chunk_break(), i) {
            assert(x.subrange(i, i + 2)[0] == '\n');
            assert(x.subrange(i, i + 2)[1] == '\n');
            assert(x[i] == '\n' && x[i + 1] == '\n');
            if i < b.len() - 1 {
                assert(b[i] == '\n' && b[i + 1] == '\n');
            } else {
                assert(b[i] == b.last());
            }
        }
    }
}

proof fn lemma_free_no_early_match(t: Seq<char>, c: char)
    requires
        free_of(t, c),
    ensures
        no_early_match(t, seq![c]),
{
    assert forall|i: int| 0 <= i < t.len() implies !matches_at(t + seq![c], seq![c], i) by {
        if matches_at(t + seq![c], seq![c], i) {
            assert((t + seq![c]).subrange(i, i + 1)[0] == c);
            assert(t[i] == c);
        }
    }
}

/// Splitting tokens joined by spaces gives the tokens back.
proof fn lemma_split_tokens(parts: Seq<Seq<char>>)
    requires
        parts.len() >= 1,
        forall|k: int| 0 <= k < parts.len() ==> token(#[trigger] parts[k]),
    ensures
        split_seq(join_seq(parts, space()), space()) == parts,
{
    assert forall|k: int| 0 <= k < parts.len() implies no_early_match(#[trigger] parts[k], space()) by {
        assert(token(parts[k]));
        lemma_free_no_early_match(parts[k], ' ');
    }
    lemma_split_join(parts, space());
}

/// The rows of tokens of a writable table: its keys, then its rows.
pub open spec fn token_rows(m: ColumnsView) -> Seq<Seq<Seq<char>>> {
    seq![keys_of(m)] + Seq::new(row_count(m), |i: int| row_of(m, i))
}

proof fn lemma_lines_of_tokens(m: ColumnsView)
    requires
        writable_table(m),
    ensures
        forall|k: int| 0 <= k < token_rows(m).len() ==> (#[trigger] token_rows(m)[k]).len() == m.len() && forall|t: int| 0 <= t < token_rows(m)[k].len() ==> token(#[trigger] token_rows(m)[k][t]),
        m.len() == 1 ==> forall|k: int| 0 <= k < token_rows(m).len() ==> (#[trigger] token_rows(m)[k])[0].len() > 0,
        table_lines(m) == token_rows(m).map_values(|p: Seq<Seq<char>>| join_seq(p, space())),
{
    let rows = token_rows(m);
    if m.len() == 1 {
        assert forall|k: int| 0 <= k < rows.len() implies (#[trigger] rows[k])[0].len() > 0 by {
            if k == 0 {
                assert(rows[k][0] == m[0].0);
            } else {
                assert(rows[k][0] == m[0].1[k - 1]);
            }
        }
    }
    assert forall|k: int| 0 <= k < rows.len() implies (#[trigger] rows[k]).len() == m.len() && forall|t: int| 0 <= t < rows[k].len() ==> token(#[trigger] rows[k][t]) by {
        assert forall|t: int| 0 <= t < rows[k].len() implies token(#[trigger] rows[k][t]) by {
            assert(m[t].1.len() == m[0].1.len());
            if k == 0 {
                assert(rows[k][t] == m[t].0);
            } else {
                assert(rows[k][t] == m[t].1[k - 1]);
            }
        }
    }
    assert(table_lines(m) =~= rows.map_values(|p: Seq<Seq<char>>| join_seq(p, space())));
}

/// One table's chunk reads back as the table.
proof fn lemma_block_roundtrip(m: ColumnsView)
    requires
        writable_table(m),
    ensures
        sparse(block(m)),
        !skipped_chunk(block(m)),
        parse_chunk_spec(block(m)) == Some(m),
{
    let rows = token_rows(m);
    let lines = table_lines(m);
    lemma_lines_of_tokens(m);
    assert forall|k: int| 0 <= k < lines.len() implies (#[trigger] lines[k]).len() > 0 && free_of(lines[k], '\n') by {
        assert(lines[k] == join_seq(rows[k], space()));
        lemma_token_line(rows[k]);
    }
    lemma_join_sparse(lines);
    let b = block(m);
    assert(b[0] != newline()[0]);
    assert forall|k: int| 0 <= k < lines.len() implies no_early_match(#[trigger] lines[k], newline()) by {
        lemma_free_no_early_match(lines[k], '\n');
    }
    lemma_split_join(lines, newline());
    assert forall|k: int| 0 <= k < rows.len() implies split_seq(#[trigger] lines[k], space()) == rows[k] by {
        assert(lines[k] == join_seq(rows[k], space()));
        lemma_split_tokens(rows[k]);
    }
    assert(chunk_rows(b) =~= rows);
    let n: nat = row_count(m);
    assert(width(rows) == m.len());
    assert(rectangular(rows));
    let cols = Seq::new(width(rows), |j: int| Seq::new(rows.len(), |i: int| rows[i][j]));
    assert(transpose_spec(rows) == Some(cols));
    let es = cols.map_values(|c: Seq<Seq<char>>| column_entry(c));
    assert forall|j: int| 0 <= j < m.len() implies #[trigger] es[j] == m[j] by {
        assert(m[j].1.len() == n);
        assert(cols[j][0] == m[j].0);
        assert(cols[j].drop_first() =~= m[j].1);
    }
    assert(es =~= m);
    lemma_insert_all_distinct(m);
    assert(table_of_columns(cols) == m);
}

proof fn lemma_tables_text_chunks(ms: Seq<ColumnsView>)
    requires
        forall|i: int| 0 <= i < ms.len() ==> (#[trigger] ms[i]).len() > 0,
    ensures
        tables_text(ms) == join_seq(chunks_of(ms), chunk_break()),
    decreases ms.len(),
{
    if ms.len() == 0 {
        assert(ms.map_values(|m: ColumnsView| table_text(m)) =~= Seq::<Seq<char>>::empty());
        assert(chunks_of(ms) =~= seq![Seq::<char>::empty()]);
    } else {
        let rest = ms.drop_first();
        assert forall|i: int| 0 <= i < rest.len() implies (#[trigger] rest[i]).len() > 0 by {
            assert(rest[i] == ms[i + 1]);
        }
        lemma_tables_text_chunks(rest);
        let texts = ms.map_values(|m: ColumnsView| table_text(m));
        let rest_texts = rest.map_values(|m: ColumnsView| table_text(m));
        assert(texts =~= seq![table_text(ms[0])] + rest_texts);
        lemma_concat_front(table_text(ms[0]), rest_texts);
        let lines = table_lines(ms[0]);
        lemma_terminated_join(lines);
        let cr = chunks_of(rest);
        let c = chunks_of(ms);
        assert(c == seq![block(ms[0]), Seq::<char>::empty()] + cr);
        assert(c.drop_first() =~= seq![Seq::<char>::empty()] + cr);
        assert(cr.len() >= 1);
        assert(c.drop_first().drop_first() =~= cr);
        assert(join_seq(c.drop_first(), chunk_break()) =~= Seq::<char>::empty() + chunk_break() + join_seq(cr, chunk_break()));
        assert(join_seq(c, chunk_break()) =~= block(ms[0]) + chunk_break() + join_seq(c.drop_first(), chunk_break()));
        assert(table_text(ms[0]) =~= block(ms[0]) + newline() + seq!['\n', '\n', '\n']);
        assert(tables_text(ms) =~= join_seq(c, chunk_break()));
    }
}

proof fn lemma_chunks_parse(ms: Seq<ColumnsView>)
    requires
        forall|i: int| 0 <= i < ms.len() ==> writable_table(#[trigger] ms[i]),
    ensures
        parse_columns_spec(chunks_of(ms)) == Some(ms),
        forall|k: int| 0 <= k < chunks_of(ms).len() ==> no_early_match(#[trigger] chunks_of(ms)[k], chunk_break()),
    decreases ms.len(),
{
    let c = chunks_of(ms);
    if ms.len() == 0 {
        assert(skipped_chunk(c[0]));
        assert(c.drop_first() =~= Seq::<Seq<char>>::empty());
        assert(ms =~= Seq::<ColumnsView>::empty());
        assert(parse_columns_spec(Seq::<Seq<char>>::empty()) == Some(Seq::<ColumnsView>::empty()));
        assert(parse_columns_spec(c) == parse_columns_spec(c.drop_first()));
        assert forall|k: int| 0 <= k < c.len() implies no_early_match(#[trigger] c[k], chunk_break()) by {
            assert(c[k].len() == 0);
        }
    } else {
        let rest = ms.drop_first();
        assert forall|i: int| 0 <= i < rest.len() implies writable_table(#[trigger] rest[i]) by {
            assert(rest[i] == ms[i + 1]);
        }
        lemma_chunks_parse(rest);
        assert(writable_table(ms[0]));
        lemma_block_roundtrip(ms[0]);
        lemma_sparse_no_early_match(block(ms[0]));
        let cr = chunks_of(rest);
        assert(c == seq![block(ms[0]), Seq::<char>::empty()] + cr);
        let c1 = c.drop_first();
        assert(c1 =~= seq![Seq::<char>::empty()] + cr);
        assert(c1.drop_first() =~= cr);
        assert(skipped_chunk(c1[0]));
        assert(parse_columns_spec(c1) == Some(rest));
        assert(seq![ms[0]] + rest =~= ms);
        assert forall|k: int| 0 <= k < c.len() implies no_early_match(#[trigger] c[k], chunk_break()) by {
            if k == 0 {
            } else if k == 1 {
                assert(c[k].len() == 0);
            } else {
                assert(c[k] == cr[k - 2]);
            }
        }
    }
}

/// Reading a column file gives back the tables that were written to it, when
/// every table has a key, distinct keys, equally long columns, and only tokens
/// (not empty, without a space or a line break) as keys and cells.
pub proof fn lemma_columns_roundtrip(ms: Seq<ColumnsView>)
    requires
        forall|i: int| 0 <= i < ms.len() ==> writable_table(#[trigger] ms[i]),
    ensures
        parse_columns_spec(split_seq(tables_text(ms), chunk_break())) == Some(ms),
{
    lemma_chunks_parse(ms);
    assert forall|i: int| 0 <= i < ms.len() implies (#[trigger] ms[i]).len() > 0 by {
        assert(writable_table(ms[i]));
    }
    lemma_tables_text_chunks(ms);
    assert(chunks_of(ms).len() >= 1);
    lemma_split_join(chunks_of(ms), chunk_break());
}


proof fn lemma_concat_terminated(lines: Seq<Seq<char>>)
    ensures
        concat(lines.map_values(|l: Seq<char>| l + newline())) == terminated(lines),
    decreases lines.len(),
{
    let t = lines.map_values(|l: Seq<char>| l + newline());
    if lines.len() == 0 {
        assert(t =~= Seq::<Seq<char>>::empty());
    } else {
        lemma_concat_terminated(lines.drop_last());
        assert(t.drop_last() =~= lines.drop_last().map_values(|l: Seq<char>| l + newline()));
        assert(concat(t) =~= terminated(lines.drop_last()) + (lines.last() + newline()));
    }
}

/// The entry lines of a value table, without their line breaks.
pub open spec fn entry_lines(m: ValuesView) -> Seq<Seq<char>> {
    m.map_values(|e: (Seq<char>, Seq<char>)| e.0 + space() + e.1)
}

/// A value table whose keys and values hold neither a space nor a line break,
/// with distinct keys.
pub open spec fn writable_values(m: ValuesView) -> bool {
    &&& distinct_keys(m)
    &&& forall|j: int| 0 <= j < m.len() ==> free_of((#[trigger] m[j]).0, ' ') && free_of(m[j].0, '\n')
        && free_of(m[j].1, ' ') && free_of(m[j].1, '\n')
}

proof fn lemma_entry_line(k: Seq<char>, v: Seq<char>)
    requires
        free_of(k, ' '),
        free_of(k, '\n'),
        free_of(v, ' '),
        free_of(v, '\n'),
    ensures
        free_of(k + space() + v, '\n'),
        !skipped_line(k + space() + v),
        line_entry(k + space() + v) == Some((k, v)),
{
    let l = k + space() + v;
    assert forall|i: int| 0 <= i < l.len() implies l[i] != '\n' by {
        if i < k.len() {
            assert(l[i] == k[i]);
        } else if i == k.len() {
            assert(l[i] == ' ');
        } else {
            assert(l[i] == v[i - k.len() - 1]);
        }
    }
    assert(l[k.len() as int] == ' ');
    assert(l.len() != 1 || l[0] != newline()[0]);
    let parts = seq![k, v];
    assert(parts.drop_first() =~= seq![v]);
    assert(join_seq(parts.drop_first(), space()) == v);
    assert(parts[0] == k);
    assert(join_seq(parts, space()) == k + space() + join_seq(parts.drop_first(), space()));
    assert(join_seq(parts, space()) =~= l);
    lemma_free_no_early_match(k, ' ');
    lemma_free_no_early_match(v, ' ');
    assert(parts[0] == k && parts[1] == v);
    lemma_split_join(parts, space());
}

proof fn lemma_value_entries_from(m: ValuesView, i: int)
    requires
        writable_values(m),
        0 <= i <= m.len(),
    ensures
        value_entries(entry_lines(m).push(Seq::empty()).skip(i)) == Some(m.skip(i)),
    decreases m.len() - i,
{
    let ls = entry_lines(m).push(Seq::empty());
    let t = ls.skip(i);
    if i == m.len() {
        assert(t =~= seq![Seq::<char>::empty()]);
        assert(t.drop_first() =~= Seq::<Seq<char>>::empty());
        assert(skipped_line(t[0]));
        assert(value_entries(Seq::<Seq<char>>::empty()) == Some(Seq::<(Seq<char>, Seq<char>)>::empty()));
        assert(m.skip(i) =~= Seq::<(Seq<char>, Seq<char>)>::empty());
    } else {
        lemma_value_entries_from(m, i + 1);
        assert(t.drop_first() =~= ls.skip(i + 1));
        assert(t[0] == m[i].0 + space() + m[i].1);
        lemma_entry_line(m[i].0, m[i].1);
        assert(seq![m[i]] + m.skip(i + 1) =~= m.skip(i));
    }
}

/// Reading the text of a value table gives the table back, when its keys are
/// distinct and neither keys nor values hold a space or a line break.
pub proof fn lemma_values_roundtrip(m: ValuesView)
    requires
        writable_values(m),
    ensures
        parse_values_spec(seq![values_text(m)]) == Some(seq![m]),
{
    let ls = entry_lines(m);
    assert(m.map_values(|e: (Seq<char>, Seq<char>)| value_line(e)) =~= ls.map_values(|l: Seq<char>| l + newline()));
    lemma_concat_terminated(ls);
    let text = values_text(m);
    assert(text == terminated(ls));
    let parts = ls.push(Seq::empty());
    if ls.len() == 0 {
        assert(parts =~= seq![Seq::<char>::empty()]);
        assert(text =~= join_seq(parts, newline()));
    } else {
        lemma_terminated_join(ls);
        lemma_join_push(ls, newline(), Seq::empty());
        assert(text =~= join_seq(parts, newline()));
    }
    assert forall|k: int| 0 <= k < parts.len() implies no_early_match(#[trigger] parts[k], newline()) by {
        if k < ls.len() {
            assert(parts[k] == m[k].0 + space() + m[k].1);
            lemma_entry_line(m[k].0, m[k].1);
            lemma_free_no_early_match(parts[k], '\n');
        } else {
            assert(parts[k].len() == 0);
        }
    }
    lemma_split_join(parts, newline());
    lemma_value_entries_from(m, 0);
    assert(parts.skip(0) =~= parts);
    assert(m.skip(0) =~= m);
    lemma_insert_all_distinct(m);
    assert(parse_values_chunk_spec(text) == Some(m));
    let cs = seq![text];
    assert(cs.drop_first() =~= Seq::<Seq<char>>::empty());
    assert(parse_values_spec(Seq::<Seq<char>>::empty()) == Some(Seq::<ValuesView>::empty()));
    assert(seq![m] + Seq::<ValuesView>::empty() =~= seq![m]);
}

} // verus!
