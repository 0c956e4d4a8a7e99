//! Where the files of the library lie: the backtest directory of a symbol and
//! a run, and the file names inside it and inside the source directory.

use vstd::prelude::*;

use crate::text::push_char;

verus! {

/// The character of a decimal digit.
pub open spec fn digit_spec(d: nat) -> char {
    if d == 0 {
        '0'
    } else if d == 1 {
        '1'
    } else if d == 2 {
        '2'
    } else if d == 3 {
        '3'
    } else if d == 4 {
        '4'
    } else if d == 5 {
        '5'
    } else if d == 6 {
        '6'
    } else if d == 7 {
        '7'
    } else if d == 8 {
        '8'
    } else {
        '9'
    }
}

/// The decimal digits of `n`, most significant first, without leading zeros.
pub open spec fn decimal(n: nat) -> Seq<char>
    decreases n,
{
    if n < 10 {
        seq![digit_spec(n)]
    } else {
        decimal(n / 10).push(digit_spec(n % 10))
    }
}

/// The value of a decimal digit character.
pub open spec fn digit_value(c: char) -> int {
    (c as int) - ('0' as int)
}

/// The number that a string of decimal digits denotes, most significant first.
pub open spec fn numeral_value(s: Seq<char>) -> int
    decreases s.len(),
{
    if s.len() == 0 {
        0
    } else {
        numeral_value(s.drop_last()) * 10 + digit_value(s.last())
    }
}

/// A decimal digit character.
pub open spec fn is_digit(c: char) -> bool {
    ('0' as int) <= (c as int) <= ('9' as int)
}

proof fn lemma_digit_spec(d: nat)
    requires
        d < 10,
    ensures
        is_digit(digit_spec(d)),
        digit_value(digit_spec(d)) == d,
{
}

/// `decimal(n)` is the base-ten numeral of `n`: digits only, with no leading
/// zero, and read back as a number it is `n`.
pub proof fn lemma_decimal(n: nat)
    ensures
        decimal(n).len() >= 1,
        forall|i: int| 0 <= i < decimal(n).len() ==> is_digit(#[trigger] decimal(n)[i]),
        numeral_value(decimal(n)) == n,
        decimal(n).len() > 1 ==> decimal(n)[0] != '0',
        n > 0 ==> decimal(n)[0] != '0',
    decreases n,
{
    if n < 10 {
        lemma_digit_spec(n);
        assert(decimal(n) == seq![digit_spec(n)]);
        assert(seq![digit_spec(n)].drop_last() =~= Seq::<char>::empty());
        assert(numeral_value(Seq::<char>::empty()) == 0);
        assert(numeral_value(decimal(n)) == numeral_value(Seq::<char>::empty()) * 10 + digit_value(digit_spec(n)));
    } else {
        lemma_decimal(n / 10);
        lemma_digit_spec(n % 10);
        let d = decimal(n);
        let h = decimal(n / 10);
        assert(d == h.push(digit_spec(n % 10)));
        assert(d.drop_last() =~= h);
        assert(d[0] == h[0]);
        assert forall|i: int| 0 <= i < d.len() implies is_digit(#[trigger] d[i]) by {
            if i < h.len() {
                assert(d[i] == h[i]);
            }
        }
        assert(d.last() == digit_spec(n % 10));
        assert(numeral_value(d) == numeral_value(h) * 10 + digit_value(d.last()));
        assert(n == (n / 10) * 10 + n % 10);
    }
}

fn digit_char(d: u64) -> (c: char)
    requires
        d < 10,
    ensures
        c == digit_spec(d as nat),
{
    if d == 0 {
        '0'
    } else if d == 1 {
        '1'
    } else if d == 2 {
        '2'
    } else if d == 3 {
        '3'
    } else if d == 4 {
        '4'
    } else if d == 5 {
        '5'
    } else if d == 6 {
        '6'
    } else if d == 7 {
        '7'
    } else if d == 8 {
        '8'
    } else {
        '9'
    }
}

/// Appends the decimal digits of `n`.
fn push_decimal(s: &mut String, n: u64)
    ensures
        final(s)@ == old(s)@ + decimal(n as nat),
    decreases n,
{
    if n >= 10 {
        push_decimal(s, n / 10);
    }
    push_char(s, digit_char(n % 10));
    assert(final(s)@ =~= old(s)@ + decimal(n as nat)) by {
        if n >= 10 {
            assert(decimal(n as nat) == decimal((n / 10) as nat).push(digit_spec((n % 10) as nat)));
        }
    }
}

/// The path of `b` inside `a`: the directory verbatim, a slash, and the name
/// verbatim.
pub proof fn lemma_path_join(a: Seq<char>, b: Seq<char>)
    ensures
        path_join(a, b).len() == a.len() + 1 + b.len(),
        path_join(a, b).subrange(0, a.len() as int) == a,
        path_join(a, b)[a.len() as int] == '/',
        path_join(a, b).subrange(a.len() + 1int, a.len() + 1int + b.len()) == b,
{
    assert(path_join(a, b).subrange(0, a.len() as int) =~= a);
    assert(path_join(a, b).subrange(a.len() + 1int, a.len() + 1int + b.len()) =~= b);
}

/// `a`, a slash, and `b`.
pub open spec fn path_join(a: Seq<char>, b: Seq<char>) -> Seq<char> {
    a + seq!['/'] + b
}

/// The path of `name` inside the directory `dir`.
pub fn join_path(dir: &str, name: &str) -> (r: String)
    ensures
        r@ == path_join(dir@, name@),
        r@.len() == dir@.len() + 1 + name@.len(),
        r@.subrange(0, dir@.len() as int) == dir@,
        r@[dir@.len() as int] == '/',
        r@.subrange(dir@.len() + 1int, r@.len() as int) == name@,
{
    let mut r = String::new();
    r.append(dir);
    push_char(&mut r, '/');
    r.append(name);
    assert(r@ =~= dir@ + seq!['/'] + name@);
    assert(r@.subrange(0, dir@.len() as int) =~= dir@);
    assert(r@.subrange(dir@.len() + 1int, r@.len() as int) =~= name@);
    assert(r@ =~= path_join(dir@, name@));
    r
}

/// The directory of the backtest of `symbol` in the run `time`: `{dir}/{time}/{symbol}`.
pub fn get_backtest_dir(dir: &str, symbol: &str, time: u64) -> (r: String)
    ensures
        r@ == path_join(path_join(dir@, decimal(time as nat)), symbol@),
        r@ == dir@ + seq!['/'] + decimal(time as nat) + seq!['/'] + symbol@,
{
    let mut r = String::new();
    r.append(dir);
    push_char(&mut r, '/');
    push_decimal(&mut r, time);
    push_char(&mut r, '/');
    r.append(symbol);
    assert(r@ =~= dir@ + seq!['/'] + decimal(time as nat) + seq!['/'] + symbol@);
    assert(r@ =~= path_join(path_join(dir@, decimal(time as nat)), symbol@));
    r
}

/// The directories that the files of the library live in.
#[derive(Debug, PartialEq, Eq)]
pub struct SettingsFilesPath {
    /// Where the binary source series are kept.
    pub src: String,
    /// Where the backtests are written, one directory per run and symbol.
    pub backtest: String,
    /// A plot script that, where it exists, is copied in place of a written one.
    pub script_backtest: String,
    /// A plot script of the statistics.
    pub script_stat: String,
    /// Where trained models are kept.
    pub train_model: String,
}

/// The file names of a backtest directory.
pub open spec fn backtest_file_names() -> Seq<Seq<char>> {
    seq![
        seq!['s', 'c', 'r', 'i', 'p', 't', '_', 'b', 'a', 'c', 'k', 't', 'e', 's', 't', '.', 'p', 'l', 't'],
        seq![
            's', 'c', 'r', 'i', 'p', 't', '_', 's', 't', 'a', 't', '_', 'c', 'o', 'l', 'u', 'm',
            'n', 's', '.', 'p', 'l', 't',
        ],
        seq![
            's', 'c', 'r', 'i', 'p', 't', '_', 's', 't', 'a', 't', '_', 'v', 'a', 'l', 'u', 'e',
            's', '.', 'p', 'l', 't',
        ],
        seq!['d', 'a', 't', 'a', '.', 'd', 'a', 't'],
        seq!['s', 't', 'a', 't', '_', 'c', 'o', 'l', 'u', 'm', 'n', 's', '.', 'd', 'a', 't'],
        seq!['s', 't', 'a', 't', '_', 'v', 'a', 'l', 'u', 'e', 's', '.', 'd', 'a', 't'],
    ]
}

/// The paths of the files of one backtest directory.
#[derive(Debug, PartialEq, Eq)]
pub struct BacktestFiles {
    /// The plot script of the backtest.
    pub script_backtest: String,
    /// The plot script of the column statistics.
    pub script_stat_columns: String,
    /// The plot script of the value statistics.
    pub script_stat_values: String,
    /// The column tables of the run.
    pub data: String,
    /// The column statistics.
    pub stat_columns: String,
    /// The value statistics.
    pub stat_values: String,
}

impl BacktestFiles {
    /// The paths in the order of `backtest_file_names`.
    pub open spec fn paths(&self) -> Seq<Seq<char>> {
        seq![
            self.script_backtest@,
            self.script_stat_columns@,
            self.script_stat_values@,
            self.data@,
            self.stat_columns@,
            self.stat_values@,
        ]
    }
}

/// The paths of the files of the backtest directory `dir`.
pub fn backtest_files(dir: &str) -> (r: BacktestFiles)
    ensures
        forall|k: int|
            0 <= k < 6 ==> #[trigger] r.paths()[k] == path_join(dir@, backtest_file_names()[k]),
        r.script_backtest@ == dir@ + seq!['/'] + "script_backtest.plt"@,
        r.script_stat_columns@ == dir@ + seq!['/'] + "script_stat_columns.plt"@,
        r.script_stat_values@ == dir@ + seq!['/'] + "script_stat_values.plt"@,
        r.data@ == dir@ + seq!['/'] + "data.dat"@,
        r.stat_columns@ == dir@ + seq!['/'] + "stat_columns.dat"@,
        r.stat_values@ == dir@ + seq!['/'] + "stat_values.dat"@,
{
    proof {
        reveal_strlit("script_backtest.plt");
        reveal_strlit("script_stat_columns.plt");
        reveal_strlit("script_stat_values.plt");
        reveal_strlit("data.dat");
        reveal_strlit("stat_columns.dat");
        reveal_strlit("stat_values.dat");
    }
    let r = BacktestFiles {
        script_backtest: join_path(dir, "script_backtest.plt"),
        script_stat_columns: join_path(dir, "script_stat_columns.plt"),
        script_stat_values: join_path(dir, "script_stat_values.plt"),
        data: join_path(dir, "data.dat"),
        stat_columns: join_path(dir, "stat_columns.dat"),
        stat_values: join_path(dir, "stat_values.dat"),
    };
    assert("script_backtest.plt"@ =~= backtest_file_names()[0]);
    assert("script_stat_columns.plt"@ =~= backtest_file_names()[1]);
    assert("script_stat_values.plt"@ =~= backtest_file_names()[2]);
    assert("data.dat"@ =~= backtest_file_names()[3]);
    assert("stat_columns.dat"@ =~= backtest_file_names()[4]);
    assert("stat_values.dat"@ =~= backtest_file_names()[5]);
    r
}

} // verus!
