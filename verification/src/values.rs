//! The value table format of `stat_values.dat`: one line per key, the key, a
//! space and the value. Reading splits a text into lines, skips the empty ones,
//! and takes the first two space separated tokens of each other line.

use vstd::prelude::*;

use crate::columns::{ReadError, concat, newline, space};
use crate::keyed::{KeyedList, distinct_keys, insert_all, lemma_deep_view_is_view};
use crate::text::{chars_of, push_char, split, split_seq};

verus! {

broadcast use lemma_deep_view_is_view;

/// A value table: each key with its value, in key order.
pub type ValueMap = KeyedList<String>;

/// The view of a value table.
pub type ValuesView = Seq<(Seq<char>, Seq<char>)>;

/// The line of one entry: the key, a space, the value and a line break.
pub open spec fn value_line(e: (Seq<char>, Seq<char>)) -> Seq<char> {
    e.0 + space() + e.1 + newline()
}

/// The text of a value table.
pub open spec fn values_text(m: ValuesView) -> Seq<char> {
    concat(m.map_values(|e: (Seq<char>, Seq<char>)| value_line(e)))
}

/// A line that reading skips.
pub open spec fn skipped_line(line: Seq<char>) -> bool {
    line.len() == 0 || line == newline()
}

/// The entry of a line: its first two tokens; `None` where it has no second token.
pub open spec fn line_entry(line: Seq<char>) -> Option<(Seq<char>, Seq<char>)> {
    let t = split_seq(line, space());
    if t.len() >= 2 {
        Some((t[0], t[1]))
    } else {
        None
    }
}

/// The entries of the lines in order, skipping the empty lines.
pub open spec fn value_entries(lines: Seq<Seq<char>>) -> Option<ValuesView>
    decreases lines.len(),
{
    if lines.len() == 0 {
        Some(Seq::empty())
    } else {
        let rest = value_entries(lines.drop_first());
        if skipped_line(lines[0]) {
            rest
        } else {
            match line_entry(lines[0]) {
                None => None,
                Some(e) => match rest {
                    None => None,
                    Some(r) => Some(seq![e] + r),
                },
            }
        }
    }
}

/// The value table that a chunk is read as.
pub open spec fn parse_values_chunk_spec(chunk: Seq<char>) -> Option<ValuesView> {
    match value_entries(split_seq(chunk, newline())) {
        Some(es) => Some(insert_all(es)),
        None => None,
    }
}

/// The value tables that the chunks are read as, one per chunk.
pub open spec fn parse_values_spec(chunks: Seq<Seq<char>>) -> Option<Seq<ValuesView>>
    decreases chunks.len(),
{
    if chunks.len() == 0 {
        Some(Seq::empty())
    } else {
        match parse_values_chunk_spec(chunks[0]) {
            None => None,
            Some(m) => match parse_values_spec(chunks.drop_first()) {
                None => None,
                Some(r) => Some(seq![m] + r),
            },
        }
    }
}

/// The text of a value table, as it is written to `stat_values.dat`.
pub fn format_values(m: &ValueMap) -> (r: String)
    ensures
        r@ == values_text(m@),
{
    proof {
        reveal_strlit(" ");
    }
    let entries = m.entries();
    let ghost texts = m@.map_values(|e: (Seq<char>, Seq<char>)| value_line(e));
    let mut r = String::new();
    let mut i: usize = 0;
    assert(texts.take(0) =~= Seq::<Seq<char>>::empty());
    while i < entries.len()
        invariant
            entries.deep_view() == m@,
            texts == m@.map_values(|e: (Seq<char>, Seq<char>)| value_line(e)),
            i <= entries.len(),
            r@ == concat(texts.take(i as int)),
            " "@ == space(),
        decreases entries.len() - i,
    {
        let ghost before = r@;
        r.append(entries[i].0.as_str());
        r.append(" ");
        r.append(entries[i].1.as_str());
        push_char(&mut r, '\n');
        assert(texts.take(i + 1).drop_last() =~= texts.take(i as int));
        assert(texts[i as int] == value_line(m@[i as int]));
        assert(r@ =~= before + texts[i as int]);
        i += 1;
    }
    assert(texts.take(entries.len() as int) =~= texts);
    r
}

/// Whether reading skips the line: it is empty or a lone line break.
fn is_skipped_line(line: &str) -> (b: bool)
    ensures
        b == skipped_line(line@),
{
    let cs = chars_of(line);
    if cs.len() == 0 {
        true
    } else if cs.len() == 1 && cs[0] == '\n' {
        assert(cs@ =~= newline());
        true
    } else {
        assert(cs@.len() != 1 || cs@[0] != newline()[0]);
        false
    }
}

/// The value table that a chunk is read as; `None` where a line that is not
/// empty has no second token.
pub fn parse_values_chunk(chunk: &str) -> (r: Option<ValueMap>)
    ensures
        match r {
            Some(m) => parse_values_chunk_spec(chunk@) == Some(m@) && distinct_keys(m@),
            None => parse_values_chunk_spec(chunk@) is None,
        },
{
    proof {
        reveal_strlit("\n");
        reveal_strlit(" ");
    }
    assert("\n"@ =~= newline());
    assert(" "@ =~= space());
    let lines = split(chunk, "\n");
    let ghost ls = lines.deep_view();
    let ghost mut acc: ValuesView = Seq::empty();
    let mut m: ValueMap = KeyedList::new();
    let mut i: usize = 0;
    assert(ls.skip(0) =~= ls);
    assert(acc + Seq::<(Seq<char>, Seq<char>)>::empty() =~= acc);
    assert(insert_all(acc) =~= Seq::<(Seq<char>, Seq<char>)>::empty());
    while i < lines.len()
        invariant
            ls == lines.deep_view(),
            ls == split_seq(chunk@, newline()),
            " "@ == space(),
            i <= lines.len(),
            m@ == insert_all(acc),
            distinct_keys(m@),
            value_entries(ls) == match value_entries(ls.skip(i as int)) {
                Some(r) => Some(acc + r),
                None => None,
            },
        decreases lines.len() - i,
    {
        let line = lines[i].as_str();
        assert(ls.skip(i as int)[0] == line@);
        assert(ls.skip(i as int).drop_first() =~= ls.skip(i + 1));
        if !is_skipped_line(line) {
            let toks = split(line, " ");
            if toks.len() < 2 {
                return None;
            }
            let ghost e = (toks[0]@, toks[1]@);
            assert(line_entry(line@) == Some(e));
            let ghost old_acc = acc;
            proof {
                acc = acc.push(e);
                assert(acc.drop_last() =~= old_acc);
                assert(forall|r: ValuesView|
                    #![trigger old_acc + (seq![e] + r)]
                    old_acc + (seq![e] + r) =~= acc + r);
            }
            m.insert(toks[0].clone(), toks[1].clone());
        }
        i += 1;
    }
    assert(ls.skip(lines.len() as int) =~= Seq::<Seq<char>>::empty());
    assert(acc + Seq::<(Seq<char>, Seq<char>)>::empty() =~= acc);
    Some(m)
}

/// The value tables that the chunks are read as, one per chunk.
pub fn parse_data_values(chunks: &Vec<String>) -> (r: Result<Vec<ValueMap>, ReadError>)
    ensures
        match r {
            Ok(ms) => parse_values_spec(chunks.deep_view()) == Some(ms.deep_view()),
            Err(e) => parse_values_spec(chunks.deep_view()) is None && e == ReadError::MissingValue,
        },
{
    let ghost cs = chunks.deep_view();
    let mut out: Vec<ValueMap> = Vec::new();
    let mut i: usize = 0;
    assert(cs.skip(0) =~= cs);
    assert(out.deep_view() =~= Seq::<ValuesView>::empty());
    while i < chunks.len()
        invariant
            cs == chunks.deep_view(),
            i <= chunks.len(),
            parse_values_spec(cs) == match parse_values_spec(cs.skip(i as int)) {
                Some(rest) => Some(out.deep_view() + rest),
                None => None,
            },
        decreases chunks.len() - i,
    {
        assert(cs.skip(i as int)[0] == chunks[i as int]@);
        assert(cs.skip(i as int).drop_first() =~= cs.skip(i + 1));
        match parse_values_chunk(chunks[i].as_str()) {
            None => {
                return Err(ReadError::MissingValue);
            },
            Some(m) => {
                let ghost before = out.deep_view();
                out.push(m);
                assert(out.deep_view() =~= before.push(m@));
                assert(forall|rest: Seq<ValuesView>|
                    #![trigger before + (seq![m@] + rest)]
                    before + (seq![m@] + rest) =~= out.deep_view() + rest);
            },
        }
        i += 1;
    }
    assert(cs.skip(chunks.len() as int) =~= Seq::<Seq<char>>::empty());
    assert(out.deep_view() + Seq::<ValuesView>::empty() =~= out.deep_view());
    Ok(out)
}

/// The lines that reading keeps: those that are neither empty nor a lone line break.
pub open spec fn kept_lines(lines: Seq<Seq<char>>) -> Seq<Seq<char>> {
    lines.filter(|l: Seq<char>| !(l.len() == 0 || l == seq!['\n']))
}

/// Writing a value table writes each entry in turn as its key verbatim, a
/// space, its value verbatim and a line break.
pub proof fn lemma_values_text_push(m: ValuesView, e: (Seq<char>, Seq<char>))
    ensures
        values_text(Seq::<(Seq<char>, Seq<char>)>::empty()) == Seq::<char>::empty(),
        values_text(m.push(e)) == values_text(m) + e.0 + seq![' '] + e.1 + seq!['\n'],
{
    let f = |e: (Seq<char>, Seq<char>)| value_line(e);
    assert(Seq::<(Seq<char>, Seq<char>)>::empty().map_values(f) =~= Seq::<Seq<char>>::empty());
    assert(m.push(e).map_values(f).drop_last() =~= m.map_values(f));
    assert(m.push(e).map_values(f).last() == value_line(e));
    assert(value_line(e) =~= e.0 + seq![' '] + e.1 + seq!['\n']);
}

/// Reading the lines of a value table takes the tokens verbatim: it succeeds
/// exactly when every kept line has at least two space separated tokens, and
/// then gives, for each kept line in order, its first token as the key and its
/// second as the value.
pub proof fn lemma_value_entries_tokens(lines: Seq<Seq<char>>)
    ensures
        value_entries(lines) is Some <==> forall|k: int|
            0 <= k < kept_lines(lines).len() ==> (#[trigger] split_seq(kept_lines(lines)[k], seq![' '])).len() >= 2,
        value_entries(lines) is Some ==> value_entries(lines) == Some(
            Seq::new(
                kept_lines(lines).len(),
                |k: int|
                    (
                        split_seq(kept_lines(lines)[k], seq![' '])[0],
                        split_seq(kept_lines(lines)[k], seq![' '])[1],
                    ),
            ),
        ),
    decreases lines.len(),
{
    let p = |l: Seq<char>| !(l.len() == 0 || l == seq!['\n']);
    assert(space() =~= seq![' ']);
    assert(newline() =~= seq!['\n']);
    if lines.len() == 0 {
        reveal(Seq::filter);
        assert(kept_lines(lines) =~= Seq::<Seq<char>>::empty());
    } else {
        let l = lines[0];
        let rest = lines.drop_first();
        lemma_value_entries_tokens(rest);
        assert(lines =~= seq![l] + rest);
        Seq::filter_distributes_over_add(seq![l], rest, p);
        reveal_with_fuel(Seq::filter, 2);
        assert(seq![l].drop_last() =~= Seq::<Seq<char>>::empty());
        let kr = kept_lines(rest);
        let kl = kept_lines(lines);
        assert(kl == seq![l].filter(p) + kr);
        if skipped_line(l) {
            assert(!p(l));
            assert(seq![l].filter(p) =~= Seq::<Seq<char>>::empty());
            assert(kl =~= kr);
        } else {
            assert(p(l));
            assert(seq![l].filter(p) =~= seq![l]);
            assert(kl =~= seq![l] + kr);
            assert forall|k: int| 0 <= k < kr.len() implies #[trigger] kl[k + 1] == kr[k] by {}
            if value_entries(lines) is Some {
                let t = split_seq(l, seq![' ']);
                assert(t.len() >= 2);
                assert forall|k: int| 0 <= k < kl.len() implies (#[trigger] split_seq(kl[k], seq![' '])).len() >= 2 by {
                    if k > 0 {
                        assert(kl[k] == kr[k - 1]);
                    }
                }
                let r = value_entries(rest)->0;
                assert(value_entries(lines) == Some(seq![(t[0], t[1])] + r));
                assert(seq![(t[0], t[1])] + r =~= Seq::new(
                    kl.len(),
                    |k: int| (split_seq(kl[k], seq![' '])[0], split_seq(kl[k], seq![' '])[1]),
                ));
            } else {
                if forall|k: int| 0 <= k < kl.len() ==> (#[trigger] split_seq(kl[k], seq![' '])).len() >= 2 {
                    assert(split_seq(kl[0], seq![' ']).len() >= 2);
                    assert forall|k: int| 0 <= k < kr.len() implies (#[trigger] split_seq(kr[k], seq![' '])).len() >= 2 by {
                        assert(split_seq(kl[k + 1], seq![' ']).len() >= 2);
                    }
                }
            }
        }
    }
}

} // verus!
