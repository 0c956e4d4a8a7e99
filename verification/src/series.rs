//! The binary source files `src.bin` and `src_symbols.bin`, encoded with
//! bincode's standard configuration.
//!
//! A price is held as the eight little-endian bytes of its `f64`: bincode
//! writes an `f64` as exactly those bytes, and an array of eight bytes as the
//! same eight bytes, so the files are those of the `f64` series. A symbol map
//! is written as the sequence of its entries, which bincode encodes as it
//! encodes a map: the number of entries, then each key and value.

use vstd::prelude::*;

use crate::keyed::{
    KeyedList, distinct_keys, insert_all, lemma_deep_view_is_view, lemma_insert_all_distinct,
    lemma_view_values,
};
use vstd::utf8::encode_utf8;

verus! {

broadcast use lemma_deep_view_is_view;

/// One series: rows of prices, each price as its eight little-endian bytes.
pub type Series = Vec<Vec<[u8; 8]>>;

/// The series of each symbol.
pub type SymbolSeries = KeyedList<Series>;

/// Why a source file could not be encoded or decoded.
#[derive(Debug, PartialEq, Eq)]
pub enum SeriesError {
    /// bincode could not decode the bytes.
    Decode,
}

#[verifier::external_type_specification]
#[verifier::external_body]
pub struct ExEncodeError(bincode::error::EncodeError);


#[verifier::external_type_specification]
#[verifier::external_body]
pub struct ExDecodeError(bincode::error::DecodeError);

/// `n` as `width` little-endian bytes.
pub open spec fn le_bytes(n: nat, width: nat) -> Seq<u8>
    decreases width,
{
    if width == 0 {
        Seq::empty()
    } else {
        seq![(n % 256) as u8] + le_bytes(n / 256, (width - 1) as nat)
    }
}

/// bincode's variable length encoding of a length: one byte up to 250, else a
/// marker byte 251, 252 or 253 followed by the length in 2, 4 or 8 little-endian bytes.
pub open spec fn varint(n: nat) -> Seq<u8> {
    if n <= 250 {
        seq![n as u8]
    } else if n < 0x1_0000 {
        seq![251u8] + le_bytes(n, 2)
    } else if n < 0x1_0000_0000 {
        seq![252u8] + le_bytes(n, 4)
    } else {
        seq![253u8] + le_bytes(n, 8)
    }
}

/// The byte strings one after another.
pub open spec fn flat(parts: Seq<Seq<u8>>) -> Seq<u8>
    decreases parts.len(),
{
    if parts.len() == 0 {
        Seq::empty()
    } else {
        flat(parts.drop_last()) + parts.last()
    }
}

/// A row of prices: its length, then the eight bytes of each price (an array
/// carries no length).
pub open spec fn row_bytes(row: Seq<Seq<u8>>) -> Seq<u8> {
    varint(row.len()) + flat(row)
}

/// The bincode bytes of a series: the number of rows, then each row.
pub open spec fn series_bytes(rows: Seq<Seq<Seq<u8>>>) -> Seq<u8> {
    varint(rows.len()) + flat(rows.map_values(|row: Seq<Seq<u8>>| row_bytes(row)))
}

/// The bincode bytes of a string: the length of its UTF-8 bytes, then those bytes.
pub open spec fn string_bytes(s: Seq<char>) -> Seq<u8> {
    varint(encode_utf8(s).len()) + encode_utf8(s)
}

/// The bincode bytes of symbol entries: their number, then each key and series.
pub open spec fn symbols_bytes(entries: Seq<(Seq<char>, Seq<Seq<Seq<u8>>>)>) -> Seq<u8> {
    varint(entries.len()) + flat(
        entries.map_values(
            |e: (Seq<char>, Seq<Seq<Seq<u8>>>)| string_bytes(e.0) + series_bytes(e.1),
        ),
    )
}

/// Every price of the rows has eight bytes, as the view of a `Series` has.
pub open spec fn rows_of_eight(rows: Seq<Seq<Seq<u8>>>) -> bool {
    forall|i: int, j: int|
        0 <= i < rows.len() && 0 <= j < rows[i].len() ==> (#[trigger] rows[i][j]).len() == 8
}

/// Every series of the entries has prices of eight bytes.
pub open spec fn entries_of_eight(entries: Seq<(Seq<char>, Seq<Seq<Seq<u8>>>)>) -> bool {
    forall|i: int| 0 <= i < entries.len() ==> rows_of_eight(#[trigger] entries[i].1)
}

/// What bincode's standard configuration decodes from the bytes as a series,
/// with the number of bytes it read; `None` where it fails.
pub uninterp spec fn series_decoding(bytes: Seq<u8>) -> Option<(Seq<Seq<Seq<u8>>>, nat)>;

/// What bincode's standard configuration decodes from the bytes as symbol
/// entries, with the number of bytes it read; `None` where it fails.
pub uninterp spec fn symbols_decoding(bytes: Seq<u8>) -> Option<(Seq<(Seq<char>, Seq<Seq<Seq<u8>>>)>, nat)>;

/// Calls `bincode::serde::encode_to_vec` with `bincode::config::standard()`.
/// The contract claims what bincode's format documents and its code does for
/// this type: the encoding succeeds (a `Vec` gives its length and the output
/// vector cannot fail) and gives `series_bytes` of the rows.
#[verifier::external_body]
fn bincode_encode_series(rows: &Series) -> (r: Result<Vec<u8>, bincode::error::EncodeError>)
    ensures
        r is Ok,
        r matches Ok(b) ==> b@ == series_bytes(rows.deep_view()),
{
    bincode::serde::encode_to_vec(rows, bincode::config::standard())
}

/// Calls `bincode::serde::decode_from_slice` with `bincode::config::standard()`
/// for a series. The contract claims that its result is a function of the
/// bytes (`series_decoding` names it), and that bytes that start with the
/// encoding of some rows decode to those rows, having read that encoding.
/// What it gives for other bytes is not stated.
#[verifier::external_body]
fn bincode_decode_series(bytes: &[u8]) -> (r: Result<(Series, usize), bincode::error::DecodeError>)
    ensures
        match r {
            Ok((v, n)) => series_decoding(bytes@) == Some((v.deep_view(), n as nat)),
            Err(_) => series_decoding(bytes@) is None,
        },
        forall|v: Seq<Seq<Seq<u8>>>|
            rows_of_eight(v) && (#[trigger] series_bytes(v)).is_prefix_of(bytes@) ==> r is Ok
                && r->Ok_0.0.deep_view() == v && r->Ok_0.1 == series_bytes(v).len(),
{
    bincode::serde::decode_from_slice(bytes, bincode::config::standard())
}

/// Calls `bincode::serde::encode_to_vec` with `bincode::config::standard()` for
/// the entries of a symbol map. The contract claims that the encoding succeeds
/// and gives `symbols_bytes` of the entries: a sequence of pairs is written as
/// bincode writes a map, its length, then each key and value.
#[verifier::external_body]
fn bincode_encode_symbols(entries: &Vec<(String, Series)>) -> (r: Result<Vec<u8>, bincode::error::EncodeError>)
    ensures
        r is Ok,
        r matches Ok(b) ==> b@ == symbols_bytes(entries.deep_view()),
{
    bincode::serde::encode_to_vec(entries, bincode::config::standard())
}

/// Calls `bincode::serde::decode_from_slice` with `bincode::config::standard()`
/// for the entries of a symbol map. The contract claims that its result is a
/// function of the bytes (`symbols_decoding` names it), and that bytes that
/// start with the encoding of some entries decode to those entries. What it
/// gives for other bytes is not stated.
#[verifier::external_body]
fn bincode_decode_symbols(bytes: &[u8]) -> (r: Result<(Vec<(String, Series)>, usize), bincode::error::DecodeError>)
    ensures
        match r {
            Ok((v, n)) => symbols_decoding(bytes@) == Some((v.deep_view(), n as nat)),
            Err(_) => symbols_decoding(bytes@) is None,
        },
        forall|es: Seq<(Seq<char>, Seq<Seq<Seq<u8>>>)>|
            entries_of_eight(es) && (#[trigger] symbols_bytes(es)).is_prefix_of(bytes@) ==> r is Ok
                && r->Ok_0.0.deep_view() == es && r->Ok_0.1 == symbols_bytes(es).len(),
{
    bincode::serde::decode_from_slice(bytes, bincode::config::standard())
}

/// What `decode_src` promises of its result `r` for the bytes: any bytes that
/// start with the encoding of some rows give those rows.
pub open spec fn src_read_of(bytes: Seq<u8>, r: Result<Series, SeriesError>) -> bool {
    forall|v: Seq<Seq<Seq<u8>>>|
        rows_of_eight(v) && (#[trigger] series_bytes(v)).is_prefix_of(bytes) ==> (r matches Ok(d)
            && d.deep_view() == v)
}

/// What `decode_src_symbols` promises of its result `r` for the bytes: any
/// bytes that start with the encoding of some entries give the map that
/// inserting them in order makes.
pub open spec fn symbols_read_of(bytes: Seq<u8>, r: Result<SymbolSeries, SeriesError>) -> bool {
    forall|es: Seq<(Seq<char>, Seq<Seq<Seq<u8>>>)>|
        entries_of_eight(es) && (#[trigger] symbols_bytes(es)).is_prefix_of(bytes) ==> (r matches Ok(m)
            && m@ == insert_all(es))
}

/// Every price of a series has eight bytes.
pub proof fn lemma_series_of_eight(s: Series)
    ensures
        rows_of_eight(s.deep_view()),
{
}

/// Every price in a symbol map has eight bytes.
pub proof fn lemma_symbol_series_of_eight(m: SymbolSeries)
    ensures
        entries_of_eight(m@),
{
    lemma_view_values(m);
    assert forall|i: int| 0 <= i < m@.len() implies rows_of_eight(#[trigger] m@[i].1) by {
        lemma_series_of_eight(m.value_at(i));
    }
}

/// The bytes of `src.bin` for a series.
pub fn encode_src(src: &Series) -> (b: Vec<u8>)
    ensures
        b@ == series_bytes(src.deep_view()),
{
    match bincode_encode_series(src) {
        Ok(b) => b,
        Err(_) => {
            proof {
                assert(false);
            }
            Vec::new()
        },
    }
}

/// The series that `src.bin` holds; bytes after it are ignored.
pub fn decode_src(bytes: &[u8]) -> (r: Result<Series, SeriesError>)
    ensures
        match r {
            Ok(v) => series_decoding(bytes@) matches Some((dv, _)) && dv == v.deep_view(),
            Err(e) => series_decoding(bytes@) is None && e == SeriesError::Decode,
        },
        src_read_of(bytes@, r),
{
    match bincode_decode_series(bytes) {
        Ok((v, _)) => Ok(v),
        Err(_) => Err(SeriesError::Decode),
    }
}

/// The bytes of `src_symbols.bin` for a symbol map: its entries in order. The
/// map's keys are distinct and its prices have eight bytes, as the read-back
/// law `lemma_src_symbols_read_back` asks.
pub fn encode_src_symbols(m: &SymbolSeries) -> (b: Vec<u8>)
    ensures
        b@ == symbols_bytes(m@),
        distinct_keys(m@),
        entries_of_eight(m@),
{
    proof {
        lemma_symbol_series_of_eight(*m);
    }
    match bincode_encode_symbols(m.entries()) {
        Ok(b) => b,
        Err(_) => {
            proof {
                assert(false);
            }
            Vec::new()
        },
    }
}

/// The symbol map that `src_symbols.bin` holds: its entries inserted in order,
/// so that a key read twice keeps its first place and its last value.
pub fn decode_src_symbols(bytes: &[u8]) -> (r: Result<SymbolSeries, SeriesError>)
    ensures
        match r {
            Ok(m) => symbols_decoding(bytes@) matches Some((es, _)) && m@ == insert_all(es)
                && distinct_keys(m@),
            Err(e) => symbols_decoding(bytes@) is None && e == SeriesError::Decode,
        },
        symbols_read_of(bytes@, r),
{
    match bincode_decode_symbols(bytes) {
        Ok((entries, _)) => Ok(KeyedList::from_entries(entries)),
        Err(_) => Err(SeriesError::Decode),
    }
}

/// Reading `src.bin` gives back the series that was written: what `decode_src`
/// returns for the bytes that `encode_src` gave is that series.
pub proof fn lemma_src_read_back(src: Seq<Seq<Seq<u8>>>, read: Result<Series, SeriesError>)
    requires
        rows_of_eight(src),
        src_read_of(series_bytes(src), read),
    ensures
        read matches Ok(v) && v.deep_view() == src,
{
    assert(series_bytes(src).is_prefix_of(series_bytes(src)));
}

/// Reading `src_symbols.bin` gives back the symbol map that was written: what
/// `decode_src_symbols` returns for the bytes that `encode_src_symbols` gave is
/// that map. Every `SymbolSeries` meets the first two conditions, which
/// `encode_src_symbols` states of its argument.
pub proof fn lemma_src_symbols_read_back(
    entries: Seq<(Seq<char>, Seq<Seq<Seq<u8>>>)>,
    read: Result<SymbolSeries, SeriesError>,
)
    requires
        entries_of_eight(entries),
        distinct_keys(entries),
        symbols_read_of(symbols_bytes(entries), read),
    ensures
        read matches Ok(m) && m@ == entries,
{
    assert(symbols_bytes(entries).is_prefix_of(symbols_bytes(entries)));
    lemma_insert_all_distinct(entries);
}

} // verus!
