//! Character sequences: conversion between `str` and `Vec<char>`, joining and splitting.

use vstd::prelude::*;

verus! {

/// Appends one character to a string.
///
/// Calls `String::push`, which appends the given `char` to the end of the string;
/// the contract claims exactly that of the view.
#[verifier::external_body]
pub(crate) fn push_char(s: &mut String, c: char)
    ensures
        final(s)@ == old(s)@.push(c),
{
    s.push(c)
}

/// The characters of `s`, in order.
pub fn chars_of(s: &str) -> (r: Vec<char>)
    ensures
        r@ == s@,
{
    let mut r: Vec<char> = Vec::new();
    for c in it: s.chars()
        invariant
            r@ == it.seq().take(it.index() as int),
    {
        r.push(c);
    }
    r
}

/// The string made of the characters `cs[from..to]`.
pub fn string_of(cs: &Vec<char>, from: usize, to: usize) -> (r: String)
    requires
        from <= to <= cs.len(),
    ensures
        r@ == cs@.subrange(from as int, to as int),
{
    let mut r = String::new();
    let mut i: usize = from;
    while i < to
        invariant
            from <= i <= to <= cs.len(),
            r@ == cs@.subrange(from as int, i as int),
        decreases to - i,
    {
        push_char(&mut r, cs[i]);
        i += 1;
        assert(r@ =~= cs@.subrange(from as int, i as int));
    }
    r
}


/// `sep` occurs in `s` at position `i`.
pub open spec fn matches_at(s: Seq<char>, sep: Seq<char>, i: int) -> bool {
    0 <= i && i + sep.len() <= s.len() && s.subrange(i, i + sep.len()) == sep
}

/// The first position at or after `i` where `sep` occurs in `s`.
pub open spec fn find_from(s: Seq<char>, sep: Seq<char>, i: int) -> Option<int>
    decreases s.len() + 1 - i,
{
    if i < 0 || i + sep.len() > s.len() {
        None
    } else if matches_at(s, sep, i) {
        Some(i)
    } else {
        find_from(s, sep, i + 1)
    }
}

/// The pieces of `s` between the occurrences of `sep`, found from the left
/// without overlap, as `str::split` with a non-empty pattern yields them.
pub open spec fn split_seq(s: Seq<char>, sep: Seq<char>) -> Seq<Seq<char>>
    decreases s.len(),
{
    if sep.len() == 0 {
        seq![s]
    } else {
        match find_from(s, sep, 0) {
            Some(i) => {
                proof {
                    lemma_find_from_bounds(s, sep, 0);
                }
                seq![s.take(i)] + split_seq(s.skip(i + sep.len()), sep)
            },
            None => seq![s],
        }
    }
}

/// The pieces joined, with `sep` between each two neighbours.
pub open spec fn join_seq(parts: Seq<Seq<char>>, sep: Seq<char>) -> Seq<char>
    decreases parts.len(),
{
    if parts.len() == 0 {
        Seq::empty()
    } else if parts.len() == 1 {
        parts[0]
    } else {
        parts[0] + sep + join_seq(parts.drop_first(), sep)
    }
}

/// No occurrence of `sep` starts inside `p` when `sep` follows `p`:
/// `p` can stand between two separators and still be split off whole.
pub open spec fn no_early_match(p: Seq<char>, sep: Seq<char>) -> bool {
    forall|i: int| 0 <= i < p.len() ==> !matches_at(p + sep, sep, i)
}

/// What `find_from` returns is a first occurrence, and `None` means there is none.
pub proof fn lemma_find_from_bounds(s: Seq<char>, sep: Seq<char>, i: int)
    ensures
        find_from(s, sep, i) matches Some(k) ==> {
            &&& 0 <= i <= k
            &&& k + sep.len() <= s.len()
            &&& matches_at(s, sep, k)
            &&& forall|j: int| i <= j < k ==> !matches_at(s, sep, j)
        },
        find_from(s, sep, i) is None && 0 <= i ==> forall|j: int|
            i <= j ==> !matches_at(s, sep, j),
    decreases s.len() + 1 - i,
{
    if i < 0 || i + sep.len() > s.len() {
    } else if matches_at(s, sep, i) {
    } else {
        lemma_find_from_bounds(s, sep, i + 1);
    }
}

/// A first occurrence at `k` is what `find_from` finds.
pub proof fn lemma_find_from_first(s: Seq<char>, sep: Seq<char>, i: int, k: int)
    requires
        0 <= i <= k,
        matches_at(s, sep, k),
        forall|j: int| i <= j < k ==> !matches_at(s, sep, j),
    ensures
        find_from(s, sep, i) == Some(k),
    decreases k - i,
{
    if i < k {
        lemma_find_from_first(s, sep, i + 1, k);
    }
}

/// Without any occurrence, `find_from` finds none.
pub proof fn lemma_find_from_none(s: Seq<char>, sep: Seq<char>, i: int)
    requires
        0 <= i,
        forall|j: int| i <= j ==> !matches_at(s, sep, j),
    ensures
        find_from(s, sep, i) is None,
    decreases s.len() + 1 - i,
{
    if i + sep.len() > s.len() {
    } else {
        assert(!matches_at(s, sep, i));
        lemma_find_from_none(s, sep, i + 1);
    }
}

/// Splitting gives at least one piece.
pub proof fn lemma_split_nonempty(s: Seq<char>, sep: Seq<char>)
    ensures
        split_seq(s, sep).len() >= 1,
{
    if sep.len() > 0 {
        if let Some(i) = find_from(s, sep, 0) {
            lemma_find_from_bounds(s, sep, 0);
            assert(split_seq(s, sep) == seq![s.take(i)] + split_seq(s.skip(i + sep.len()), sep));
        }
    }
}

/// Splitting at `sep` undoes joining with `sep`, when no piece lets an
/// occurrence of `sep` start inside it.
pub proof fn lemma_split_join(parts: Seq<Seq<char>>, sep: Seq<char>)
    requires
        sep.len() > 0,
        parts.len() >= 1,
        forall|k: int| 0 <= k < parts.len() ==> no_early_match(#[trigger] parts[k], sep),
    ensures
        split_seq(join_seq(parts, sep), sep) == parts,
    decreases parts.len(),
{
    let p = parts[0];
    assert(no_early_match(p, sep));
    if parts.len() == 1 {
        assert forall|j: int| 0 <= j implies !matches_at(p, sep, j) by {
            if matches_at(p, sep, j) {
                assert(j < p.len());
                assert((p + sep).subrange(j, j + sep.len()) =~= p.subrange(j, j + sep.len()));
                assert(matches_at(p + sep, sep, j));
            }
        }
        lemma_find_from_none(p, sep, 0);
        assert(split_seq(p, sep) == seq![p]);
        assert(parts =~= seq![p]);
    } else {
        let rest = parts.drop_first();
        assert forall|k: int| 0 <= k < rest.len() implies no_early_match(#[trigger] rest[k], sep) by {
            assert(rest[k] == parts[k + 1]);
        }
        lemma_split_join(rest, sep);
        let s = join_seq(parts, sep);
        assert(s == p + sep + join_seq(rest, sep));
        let n: int = p.len() as int;
        assert(s.subrange(n, n + sep.len()) =~= sep);
        assert forall|j: int| 0 <= j < n implies !matches_at(s, sep, j) by {
            assert(s.subrange(j, j + sep.len()) =~= (p + sep).subrange(j, j + sep.len()));
            assert(!matches_at(p + sep, sep, j));
        }
        lemma_find_from_first(s, sep, 0, n);
        assert(s.take(n) =~= p);
        assert(s.skip(n + sep.len()) =~= join_seq(rest, sep));
        assert(parts =~= seq![p] + rest);
    }
}

/// Joining one more piece appends the separator and the piece.
pub proof fn lemma_join_push(parts: Seq<Seq<char>>, sep: Seq<char>, p: Seq<char>)
    requires
        parts.len() >= 1,
    ensures
        join_seq(parts.push(p), sep) == join_seq(parts, sep) + sep + p,
    decreases parts.len(),
{
    let q = parts.push(p);
    assert(q[0] == parts[0]);
    if parts.len() == 1 {
        assert(q.drop_first() =~= seq![p]);
        assert(join_seq(q.drop_first(), sep) == p);
        assert(join_seq(q, sep) =~= parts[0] + sep + p);
    } else {
        lemma_join_push(parts.drop_first(), sep, p);
        assert(q.drop_first() =~= parts.drop_first().push(p));
        assert(join_seq(q, sep) =~= parts[0] + sep + (join_seq(parts.drop_first(), sep) + sep + p));
    }
}


/// Whether `sep` occurs in `cs` at position `i`.
fn occurs_at(cs: &Vec<char>, sep: &Vec<char>, i: usize) -> (b: bool)
    requires
        i + sep.len() <= cs.len(),
    ensures
        b == matches_at(cs@, sep@, i as int),
{
    let mut k: usize = 0;
    while k < sep.len()
        invariant
            i + sep.len() <= cs.len(),
            k <= sep.len(),
            forall|j: int| 0 <= j < k ==> cs@[i + j] == sep@[j],
        decreases sep.len() - k,
    {
        if cs[i + k] != sep[k] {
            assert(cs@.subrange(i as int, i + sep.len())[k as int] != sep@[k as int]);
            return false;
        }
        k += 1;
    }
    assert(cs@.subrange(i as int, i + sep.len()) =~= sep@);
    true
}

/// The pieces of `s` between the occurrences of `sep`, as `s.split(sep)` yields them.
pub fn split(s: &str, sep: &str) -> (r: Vec<String>)
    requires
        sep@.len() > 0,
    ensures
        r.deep_view() == split_seq(s@, sep@),
{
    let cs = chars_of(s);
    let sc = chars_of(sep);
    let n: usize = cs.len();
    let m: usize = sc.len();
    let mut out: Vec<String> = Vec::new();
    let mut start: usize = 0;
    let mut i: usize = 0;
    assert(cs@.skip(0) =~= cs@);
    assert(out.deep_view() =~= Seq::<Seq<char>>::empty());
    assert(out.deep_view() + split_seq(cs@.skip(0), sc@) =~= split_seq(cs@, sc@));
    while m <= n && i <= n - m
        invariant
            cs@ == s@,
            sc@ == sep@,
            n == cs.len(),
            m == sc.len(),
            m > 0,
            start <= i <= n,
            out.deep_view() + split_seq(cs@.skip(start as int), sc@) == split_seq(cs@, sc@),
            forall|j: int| start <= j < i ==> !matches_at(cs@, sc@, j),
        decreases n - i,
    {
        let ghost t = cs@.skip(start as int);
        if occurs_at(&cs, &sc, i) {
            let piece = string_of(&cs, start, i);
            proof {
                let k = (i - start) as int;
                assert(t.subrange(k, k + m) =~= cs@.subrange(i as int, i + m));
                assert forall|j: int| 0 <= j < k implies !matches_at(t, sc@, j) by {
                    assert(t.subrange(j, j + m) =~= cs@.subrange(start + j, start + j + m));
                    assert(!matches_at(cs@, sc@, start + j));
                }
                lemma_find_from_first(t, sc@, 0, k);
                assert(t.take(k) =~= piece@);
                assert(t.skip(k + m) =~= cs@.skip(i + m));
            }
            let ghost before = out.deep_view();
            out.push(piece);
            assert(out.deep_view() =~= before.push(piece@));
            i = i + m;
            start = i;
            assert(out.deep_view() + split_seq(cs@.skip(start as int), sc@) =~= before + (seq![piece@]
                + split_seq(cs@.skip(start as int), sc@)));
        } else {
            i = i + 1;
        }
    }
    let last = string_of(&cs, start, n);
    proof {
        let t = cs@.skip(start as int);
        assert forall|j: int| 0 <= j implies !matches_at(t, sc@, j) by {
            if matches_at(t, sc@, j) {
                assert(t.subrange(j, j + m) =~= cs@.subrange(start + j, start + j + m));
                assert(matches_at(cs@, sc@, start + j));
            }
        }
        lemma_find_from_none(t, sc@, 0);
        assert(t =~= last@);
    }
    let ghost before = out.deep_view();
    out.push(last);
    assert(out.deep_view() =~= before.push(last@));
    out
}


/// The strings joined with `sep` between each two neighbours, as `[..].join(sep)` builds it.
pub fn join(parts: &Vec<String>, sep: &str) -> (r: String)
    ensures
        r@ == join_seq(parts.deep_view(), sep@),
{
    let mut r = String::new();
    let mut i: usize = 0;
    assert(parts.deep_view().take(0) =~= Seq::<Seq<char>>::empty());
    while i < parts.len()
        invariant
            i <= parts.len(),
            r@ == join_seq(parts.deep_view().take(i as int), sep@),
        decreases parts.len() - i,
    {
        let ghost dv = parts.deep_view();
        assert(dv.take(i + 1) =~= dv.take(i as int).push(dv[i as int]));
        if i > 0 {
            proof {
                lemma_join_push(dv.take(i as int), sep@, dv[i as int]);
            }
            r.append(sep);
        } else {
            assert(dv.take(1) =~= seq![dv[0]]);
        }
        r.append(parts[i].as_str());
        i += 1;
    }
    assert(parts.deep_view().take(parts.len() as int) =~= parts.deep_view());
    r
}

/// Joining no piece gives nothing, and joining one piece gives that piece.
pub proof fn lemma_join_small(p: Seq<char>, sep: Seq<char>)
    ensures
        join_seq(Seq::<Seq<char>>::empty(), sep) == Seq::<char>::empty(),
        join_seq(seq![p], sep) == p,
{
}

/// What splitting gives: pieces that, joined with `sep`, make `s` again; no
/// occurrence of `sep` starts inside a piece that a separator follows, and
/// none lies in the last piece. So the separators found are the leftmost ones.
pub proof fn lemma_split_spec(s: Seq<char>, sep: Seq<char>)
    requires
        sep.len() > 0,
    ensures
        split_seq(s, sep).len() >= 1,
        join_seq(split_seq(s, sep), sep) == s,
        forall|k: int, i: int|
            0 <= k < split_seq(s, sep).len() - 1 && 0 <= i < split_seq(s, sep)[k].len()
                ==> (#[trigger] (split_seq(s, sep)[k] + sep).subrange(i, i + sep.len())) != sep,
        forall|i: int|
            0 <= i && i + sep.len() <= split_seq(s, sep).last().len()
                ==> #[trigger] split_seq(s, sep).last().subrange(i, i + sep.len()) != sep,
    decreases s.len(),
{
    let p = split_seq(s, sep);
    lemma_find_from_bounds(s, sep, 0);
    match find_from(s, sep, 0) {
        Some(i) => {
            let l = sep.len() as int;
            let rest = s.skip(i + l);
            lemma_split_spec(rest, sep);
            let q = split_seq(rest, sep);
            assert(p == seq![s.take(i)] + q);
            assert(p.drop_first() =~= q);
            assert(p[0] == s.take(i));
            assert(join_seq(p, sep) == s.take(i) + sep + join_seq(q, sep));
            assert(s.subrange(i, i + l) == sep);
            assert(s =~= s.take(i) + sep + rest);
            assert forall|k: int, j: int|
                0 <= k < p.len() - 1 && 0 <= j < p[k].len() implies #[trigger] (p[k] + sep).subrange(j, j + l) != sep by {
                if k == 0 {
                    assert((s.take(i) + sep).subrange(j, j + l) =~= s.subrange(j, j + l));
                    assert(!matches_at(s, sep, j));
                } else {
                    assert(p[k] == q[k - 1]);
                }
            }
            assert(p.last() == q.last());
        },
        None => {
            assert(p == seq![s]);
            assert forall|j: int| 0 <= j && j + sep.len() <= p.last().len() implies #[trigger] p.last().subrange(j, j + sep.len()) != sep by {
                assert(!matches_at(s, sep, j));
            }
        },
    }
}

} // verus!
