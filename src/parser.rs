//! Parsers for the four kernel text formats and for the store path of the
//! installed system.
use vstd::prelude::*;
use crate::table::{entries_of, Entries, Table};
use crate::text::{
    all_digits, chars_of, decimal, digits_value, in_class, is_digit, is_in_class, is_space,
    lemma_decimal, lemma_digits_bound, lemma_digits_div, lemma_pow10_mono, lemma_pow10_pos,
    lemma_run_len, lemma_run_len_concat, pow10, read_digits, READ_BOUND,
    run_end, run_len, skip_ws, slice_chars, trim, trim_bounds, Class,
};
use vstd::string::StrSliceExecFns;

verus! {

broadcast use vstd::string::group_string_axioms;

/// Why a text could not be read.
#[derive(Debug, Clone, Copy, PartialEq, Eq, Structural)]
pub enum ParseError {
    /// The text is not shaped as its format demands: a missing tag, header,
    /// delimiter or key, or a stray token.
    SourceFormat,
    /// A number is missing where one is due, or does not fit its type.
    MalformedNumber,
    /// A swap device is neither a file nor a partition.
    UnknownSwapType,
}

/// Reads an unsigned whole number, after optional whitespace, together with
/// the whitespace that follows it; gives back the number and what is left.
pub open spec fn unsigned_token(s: Seq<char>) -> Result<(usize, Seq<char>), ParseError> {
    let t = skip_ws(s);
    let n = run_len(t, Class::Digit) as int;
    if n == 0 || digits_value(t.take(n)) > usize::MAX {
        Err(ParseError::MalformedNumber)
    } else {
        Ok((digits_value(t.take(n)) as usize, skip_ws(t.skip(n))))
    }
}

/// Reads a whole number with an optional leading minus, after optional
/// whitespace, together with the whitespace that follows it.
pub open spec fn signed_token(s: Seq<char>) -> Result<(isize, Seq<char>), ParseError> {
    let t = skip_ws(s);
    let neg = t.len() > 0 && t[0] == '-';
    let u = if neg { t.drop_first() } else { t };
    let n = run_len(u, Class::Digit) as int;
    let m = digits_value(u.take(n)) as int;
    if n == 0 || (neg && m > isize::MAX + 1) || (!neg && m > isize::MAX) {
        Err(ParseError::MalformedNumber)
    } else {
        Ok(((if neg { -m } else { m }) as isize, skip_ws(u.skip(n))))
    }
}

proof fn lemma_skip_skip(s: Seq<char>, i: int, j: int)
    requires
        0 <= i <= j <= s.len(),
    ensures
        s.skip(i).skip(j - i) == s.skip(j),
{
    assert(s.skip(i).skip(j - i) =~= s.skip(j));
}

/// Skips whitespace from position `i`.
fn skip_spaces(s: &Vec<char>, i: usize) -> (j: usize)
    requires
        i <= s.len(),
    ensures
        i <= j <= s.len(),
        s@.skip(j as int) == skip_ws(s@.skip(i as int)),
{
    let j = run_end(s, i, Class::Space);
    proof {
        lemma_skip_skip(s@, i as int, j as int);
    }
    j
}

/// Reads a digit run starting at `a`, if its value is at most `bound`;
/// gives back the value and the end of the run.
fn digit_run(s: &Vec<char>, a: usize, bound: u128) -> (r: (usize, Option<u128>))
    requires
        a <= s.len(),
        bound <= READ_BOUND,
    ensures
        a <= r.0 <= s.len(),
        r.0 - a == run_len(s@.skip(a as int), Class::Digit),
        s@.skip(a as int).take(r.0 - a) == s@.subrange(a as int, r.0 as int),
        s@.skip(a as int).skip(r.0 - a) == s@.skip(r.0 as int),
        match r.1 {
            Some(v) => v == digits_value(s@.subrange(a as int, r.0 as int)) && v <= bound,
            None => digits_value(s@.subrange(a as int, r.0 as int)) > bound,
        },
{
    let b = run_end(s, a, Class::Digit);
    proof {
        lemma_run_len(s@.skip(a as int), Class::Digit);
        assert(s@.skip(a as int).take(b - a) =~= s@.subrange(a as int, b as int));
        lemma_skip_skip(s@, a as int, b as int);
        assert forall|i: int| 0 <= i < b - a implies #[trigger] is_digit(
            s@.subrange(a as int, b as int)[i],
        ) by {
            assert(s@.subrange(a as int, b as int)[i] == s@.skip(a as int)[i]);
        }
    }
    let v = read_digits(s, a, b, bound);
    (b, v)
}

/// Reads an unsigned token at position `i`; gives back the number and the
/// position after it.
fn read_unsigned(s: &Vec<char>, i: usize) -> (r: Result<(usize, usize), ParseError>)
    requires
        i <= s.len(),
    ensures
        match unsigned_token(s@.skip(i as int)) {
            Ok((v, rest)) => r matches Ok((w, j)) && w == v && j <= s.len() && s@.skip(j as int)
                == rest,
            Err(e) => r == Err::<(usize, usize), ParseError>(e),
        },
{
    let a = skip_spaces(s, i);
    let (b, v) = digit_run(s, a, usize::MAX as u128);
    if b == a {
        return Err(ParseError::MalformedNumber);
    }
    match v {
        None => Err(ParseError::MalformedNumber),
        Some(v) => {
            let j = skip_spaces(s, b);
            Ok((v as usize, j))
        },
    }
}

/// Reads a signed token at position `i`; gives back the number and the
/// position after it.
fn read_signed(s: &Vec<char>, i: usize) -> (r: Result<(isize, usize), ParseError>)
    requires
        i <= s.len(),
    ensures
        match signed_token(s@.skip(i as int)) {
            Ok((v, rest)) => r matches Ok((w, j)) && w == v && j <= s.len() && s@.skip(j as int)
                == rest,
            Err(e) => r == Err::<(isize, usize), ParseError>(e),
        },
{
    let a = skip_spaces(s, i);
    let neg = a < s.len() && s[a] == '-';
    let a2 = if neg { a + 1 } else { a };
    proof {
        if neg {
            assert(s@.skip(a as int).drop_first() =~= s@.skip(a2 as int));
        }
    }
    let bound: u128 = if neg { isize::MAX as u128 + 1 } else { isize::MAX as u128 };
    let (b, v) = digit_run(s, a2, bound);
    if b == a2 {
        return Err(ParseError::MalformedNumber);
    }
    match v {
        None => Err(ParseError::MalformedNumber),
        Some(m) => {
            let j = skip_spaces(s, b);
            let x: isize = if neg {
                if m == isize::MAX as u128 + 1 {
                    isize::MIN
                } else {
                    -(m as isize)
                }
            } else {
                m as isize
            };
            Ok((x, j))
        },
    }
}

/// Tick counters of the aggregate CPU line, in the order the kernel writes them.
#[derive(Debug, PartialEq, Eq, Structural, Clone, Copy, Default)]
pub struct Stat {
    pub user: usize,
    pub nice: usize,
    pub system: usize,
    pub idle: usize,
    pub iowait: usize,
    pub irq: usize,
    pub softirq: usize,
    pub steal: usize,
    pub guest: usize,
    pub guest_nice: usize,
}

/// The number of counters that every kernel writes on the aggregate CPU
/// line; newer ones add `guest` and `guest_nice` after them.
pub const STAT_REQUIRED: usize = 8;

/// Reads `n` unsigned tokens one after the other.
pub open spec fn unsigned_fields(s: Seq<char>, n: nat) -> Result<(Seq<usize>, Seq<char>), ParseError>
    decreases n,
{
    if n == 0 {
        Ok((Seq::empty(), s))
    } else {
        match unsigned_fields(s, (n - 1) as nat) {
            Ok((vs, rest)) => match unsigned_token(rest) {
                Ok((v, r)) => Ok((vs.push(v), r)),
                Err(e) => Err(e),
            },
            Err(e) => Err(e),
        }
    }
}

/// Reads an unsigned token where the text goes on with a digit, and gives 0
/// without reading anything where it does not: a counter that older
/// kernels leave out.
pub open spec fn optional_token(s: Seq<char>) -> Result<(usize, Seq<char>), ParseError> {
    if s.len() > 0 && is_digit(s[0]) {
        unsigned_token(s)
    } else {
        Ok((0, s))
    }
}

/// The aggregate line's tag `cpu ` stands at position `i` (per-core lines,
/// tagged `cpu0`, `cpu1`, ..., do not match).
pub open spec fn cpu_tag_at(s: Seq<char>, i: int) -> bool {
    0 <= i && i + 4 <= s.len() && s[i] == 'c' && s[i + 1] == 'p' && s[i + 2] == 'u' && s[i + 3]
        == ' '
}

pub open spec fn first_cpu_tag(s: Seq<char>, i: int) -> bool {
    cpu_tag_at(s, i) && forall|j: int| 0 <= j < i ==> !cpu_tag_at(s, j)
}

pub open spec fn stat_of(v: Seq<usize>) -> Stat {
    Stat {
        user: v[0],
        nice: v[1],
        system: v[2],
        idle: v[3],
        iowait: v[4],
        irq: v[5],
        softirq: v[6],
        steal: v[7],
        guest: v[8],
        guest_nice: v[9],
    }
}

/// The aggregate accounting text read as a `Stat`: the counters that follow
/// the first `cpu ` tag. The first eight are required; `guest` and
/// `guest_nice` are 0 where the line stops before them.
pub open spec fn spec_parse_stat(s: Seq<char>) -> Result<Stat, ParseError> {
    if exists|i: int| cpu_tag_at(s, i) {
        let i = choose|i: int| first_cpu_tag(s, i);
        match unsigned_fields(s.skip(i + 4), STAT_REQUIRED as nat) {
            Err(e) => Err(e),
            Ok((vs, r)) => match optional_token(r) {
                Err(e) => Err(e),
                Ok((guest, r2)) => match optional_token(r2) {
                    Err(e) => Err(e),
                    Ok((guest_nice, _)) => Ok(stat_of(vs.push(guest).push(guest_nice))),
                },
            },
        }
    } else {
        Err(ParseError::SourceFormat)
    }
}

/// A failure among the first `n` fields is the failure of any longer run.
proof fn lemma_fields_err(s: Seq<char>, n: nat, m: nat)
    requires
        n <= m,
        unsigned_fields(s, n) is Err,
    ensures
        unsigned_fields(s, m) == unsigned_fields(s, n),
    decreases m - n,
{
    if n < m {
        lemma_fields_err(s, n, (m - 1) as nat);
    }
}

fn find_cpu_tag(s: &Vec<char>) -> (r: Option<usize>)
    ensures
        match r {
            Some(i) => first_cpu_tag(s@, i as int),
            None => !exists|i: int| cpu_tag_at(s@, i),
        },
{
    let mut i: usize = 0;
    while s.len() >= 4 && i <= s.len() - 4
        invariant
            forall|j: int| 0 <= j < i ==> !cpu_tag_at(s@, j),
        decreases s.len() - i,
    {
        if s[i] == 'c' && s[i + 1] == 'p' && s[i + 2] == 'u' && s[i + 3] == ' ' {
            return Some(i);
        }
        i = i + 1;
    }
    None
}

/// Reads an optional counter at position `i`: 0, read from nothing, where
/// no digit stands there.
fn read_optional(s: &Vec<char>, i: usize) -> (r: Result<(usize, usize), ParseError>)
    requires
        i <= s.len(),
    ensures
        match optional_token(s@.skip(i as int)) {
            Ok((v, rest)) => r matches Ok((w, j)) && w == v && j <= s.len() && s@.skip(j as int)
                == rest,
            Err(e) => r == Err::<(usize, usize), ParseError>(e),
        },
{
    if i < s.len() && is_in_class(s[i], Class::Digit) {
        read_unsigned(s, i)
    } else {
        Ok((0, i))
    }
}

/// Reads the aggregate CPU line out of the accounting text. It need not be
/// the first line; per-core lines are passed over. The first eight
/// counters are required; `guest` and `guest_nice`, which older kernels do
/// not write, are 0 where the line stops before them.
pub fn parse_stat(i: &str) -> (r: Result<Stat, ParseError>)
    ensures
        r == spec_parse_stat(i@),
{
    let s = chars_of(i);
    let start = match find_cpu_tag(&s) {
        Some(k) => k,
        None => {
            return Err(ParseError::SourceFormat);
        },
    };
    let len = s.len();
    let ghost k = start as int;
    proof {
        let c = choose|i: int| first_cpu_tag(s@, i);
        assert(cpu_tag_at(s@, k));
        assert(first_cpu_tag(s@, c));
        assert(c == k);
        assert(start + 4 <= len);
    }
    let mut vals: Vec<usize> = Vec::new();
    let mut pos = start + 4;
    let mut n: usize = 0;
    while n < STAT_REQUIRED
        invariant
            s@ == i@,
            cpu_tag_at(s@, k),
            (choose|c: int| first_cpu_tag(s@, c)) == k,
            pos <= s.len(),
            n <= STAT_REQUIRED,
            vals.len() == n,
            unsigned_fields(s@.skip(k + 4), n as nat) == Ok::<(Seq<usize>, Seq<char>), ParseError>(
                (vals@, s@.skip(pos as int))),
        decreases STAT_REQUIRED - n,
    {
        match read_unsigned(&s, pos) {
            Ok((v, j)) => {
                vals.push(v);
                pos = j;
            },
            Err(e) => {
                proof {
                    assert(unsigned_fields(s@.skip(k + 4), (n + 1) as nat) == Err::<
                        (Seq<usize>, Seq<char>),
                        ParseError,
                    >(e));
                    lemma_fields_err(s@.skip(k + 4), (n + 1) as nat, STAT_REQUIRED as nat);
                }
                return Err(e);
            },
        }
        n = n + 1;
    }
    let (guest, pos) = match read_optional(&s, pos) {
        Ok(t) => t,
        Err(e) => {
            return Err(e);
        },
    };
    let (guest_nice, _) = match read_optional(&s, pos) {
        Ok(t) => t,
        Err(e) => {
            return Err(e);
        },
    };
    Ok(
        Stat {
            user: vals[0],
            nice: vals[1],
            system: vals[2],
            idle: vals[3],
            iowait: vals[4],
            irq: vals[5],
            softirq: vals[6],
            steal: vals[7],
            guest,
            guest_nice,
        },
    )
}

/// The ten counters in the order the kernel writes them.
pub open spec fn stat_values(s: Stat) -> Seq<usize> {
    seq![
        s.user,
        s.nice,
        s.system,
        s.idle,
        s.iowait,
        s.irq,
        s.softirq,
        s.steal,
        s.guest,
        s.guest_nice,
    ]
}

/// The counters from the `k`-th on, in decimal, each followed by one
/// space but the last, which a newline follows.
pub open spec fn fields_text(vs: Seq<usize>, k: nat) -> Seq<char>
    decreases vs.len() - k,
{
    if k >= vs.len() {
        Seq::empty()
    } else {
        decimal(vs[k as int] as nat) + seq![if k + 1 < vs.len() { ' ' } else { '\n' }]
            + fields_text(vs, k + 1)
    }
}

/// The aggregate CPU line as the kernel writes it: `cpu`, two spaces, and
/// the ten counters in decimal.
pub open spec fn stat_line(s: Stat) -> Seq<char> {
    seq!['c', 'p', 'u', ' ', ' '] + fields_text(stat_values(s), 0)
}

proof fn lemma_skip_ws_start(y: Seq<char>)
    requires
        y.len() == 0 || !is_space(y[0]),
    ensures
        skip_ws(y) == y,
{
    assert(y.skip(0) =~= y);
}

proof fn lemma_skip_ws_space(c: char, y: Seq<char>)
    requires
        is_space(c),
    ensures
        skip_ws(seq![c] + y) == skip_ws(y),
{
    let x = seq![c] + y;
    assert(x.drop_first() =~= y);
    lemma_run_len(y, Class::Space);
    assert(x.skip(1 + run_len(y, Class::Space) as int) =~= y.skip(run_len(y, Class::Space) as int));
}

/// The text of the counters from the `k`-th on starts with a digit.
proof fn lemma_fields_text_start(vs: Seq<usize>, k: nat)
    ensures
        fields_text(vs, k).len() == 0 || is_digit(fields_text(vs, k)[0]),
        k < vs.len() ==> fields_text(vs, k).len() > 0,
{
    if k < vs.len() {
        lemma_decimal(vs[k as int] as nat);
        let d = decimal(vs[k as int] as nat);
        assert(is_digit(d[0]));
        assert(fields_text(vs, k)[0] == d[0]);
    }
}

/// Reading the counters from the `k`-th on, after any whitespace: the first
/// comes out, and the text of the ones after it is left.
proof fn lemma_field_token(x: Seq<char>, vs: Seq<usize>, k: nat)
    requires
        k < vs.len(),
        skip_ws(x) == fields_text(vs, k),
    ensures
        unsigned_token(x) == Ok::<(usize, Seq<char>), ParseError>(
            (vs[k as int], fields_text(vs, k + 1)),
        ),
{
    let d = decimal(vs[k as int] as nat);
    let sep = if k + 1 < vs.len() { ' ' } else { '\n' };
    let rest = seq![sep] + fields_text(vs, k + 1);
    let t = fields_text(vs, k);
    assert(t == d + rest);
    lemma_decimal(vs[k as int] as nat);
    assert forall|i: int| 0 <= i < d.len() implies in_class(#[trigger] d[i], Class::Digit) by {}
    lemma_run_len_concat(d, rest, Class::Digit);
    assert(t.take(d.len() as int) =~= d);
    assert(t.skip(d.len() as int) =~= rest);
    lemma_skip_ws_space(sep, fields_text(vs, k + 1));
    lemma_fields_text_start(vs, k + 1);
    lemma_skip_ws_start(fields_text(vs, k + 1));
}

/// Reading `k` counters, `k >= 1`, out of their text after any whitespace.
proof fn lemma_fields_prefix(x: Seq<char>, vs: Seq<usize>, k: nat)
    requires
        1 <= k <= vs.len(),
        skip_ws(x) == fields_text(vs, 0),
    ensures
        unsigned_fields(x, k) == Ok::<(Seq<usize>, Seq<char>), ParseError>(
            (vs.take(k as int), fields_text(vs, k)),
        ),
    decreases k,
{
    if k == 1 {
        lemma_field_token(x, vs, 0);
        assert(Seq::<usize>::empty().push(vs[0]) =~= vs.take(1));
    } else {
        lemma_fields_prefix(x, vs, (k - 1) as nat);
        lemma_fields_text_start(vs, (k - 1) as nat);
        lemma_skip_ws_start(fields_text(vs, (k - 1) as nat));
        lemma_field_token(fields_text(vs, (k - 1) as nat), vs, (k - 1) as nat);
        assert(vs.take(k - 1).push(vs[k - 1]) =~= vs.take(k as int));
    }
}

/// Writing the ten counters out as the kernel does and reading the line
/// back gives the same ten counters.
pub proof fn lemma_stat_round_trip(s: Stat)
    ensures
        spec_parse_stat(stat_line(s)) == Ok::<Stat, ParseError>(s),
{
    let l = stat_line(s);
    let vs = stat_values(s);
    assert(cpu_tag_at(l, 0));
    let i = choose|i: int| first_cpu_tag(l, i);
    assert(first_cpu_tag(l, 0));
    assert(i == 0);
    let body = fields_text(vs, 0);
    assert(l.skip(4) =~= seq![' '] + body);
    lemma_skip_ws_space(' ', body);
    lemma_fields_text_start(vs, 0);
    lemma_skip_ws_start(body);
    lemma_fields_prefix(l.skip(4), vs, 8);
    lemma_fields_text_start(vs, 8);
    lemma_skip_ws_start(fields_text(vs, 8));
    lemma_field_token(fields_text(vs, 8), vs, 8);
    lemma_fields_text_start(vs, 9);
    lemma_skip_ws_start(fields_text(vs, 9));
    lemma_field_token(fields_text(vs, 9), vs, 9);
    assert(vs.take(8).push(vs[8]).push(vs[9]) =~= vs);
    assert(stat_of(vs) == s);
}

/// The memory table: each label of the memory-info text with its value in kB.
pub type MemInfo = Table<usize>;

/// One line of the memory-info text, `Label: value [kB]`: the label is what
/// stands before the first colon, with surrounding whitespace taken off.
pub open spec fn meminfo_line(l: Seq<char>) -> Result<(Seq<char>, usize), ParseError> {
    let c = run_len(l, Class::Label) as int;
    if c == l.len() {
        Err(ParseError::SourceFormat)
    } else {
        match unsigned_token(l.skip(c + 1)) {
            Err(e) => Err(e),
            Ok((v, r)) => if r.len() == 0 || (r.len() >= 2 && r[0] == 'k' && r[1] == 'B'
                && skip_ws(r.skip(2)).len() == 0) {
                Ok((trim(l.take(c)), v))
            } else {
                Err(ParseError::SourceFormat)
            },
        }
    }
}

/// The records of the memory-info text, one per line, in order. The last
/// line needs no newline.
pub open spec fn meminfo_records(s: Seq<char>) -> Result<Entries<usize>, ParseError>
    decreases s.len(),
{
    if s.len() == 0 {
        Ok(Seq::empty())
    } else {
        let n = run_len(s, Class::Line) as int;
        let line = if n < s.len() { s.take(n) } else { s };
        let rest = if n < s.len() { s.skip(n + 1) } else { Seq::empty() };
        match meminfo_line(line) {
            Err(e) => Err(e),
            Ok(rec) => match meminfo_records(rest) {
                Ok(rs) => Ok(seq![rec] + rs),
                Err(e) => Err(e),
            },
        }
    }
}

/// The memory table that the memory-info text gives: every label, where a
/// later line for a label replaces the value of an earlier one.
pub open spec fn spec_parse_meminfo(s: Seq<char>) -> Result<Entries<usize>, ParseError> {
    match meminfo_records(s) {
        Ok(rs) => Ok(entries_of(rs)),
        Err(e) => Err(e),
    }
}

/// Records that were read, then what the rest of the text gives.
pub open spec fn after<V>(done: Entries<V>, rest: Result<Entries<V>, ParseError>) -> Result<
    Entries<V>,
    ParseError,
> {
    match rest {
        Ok(rs) => Ok(done + rs),
        Err(e) => Err(e),
    }
}

/// Reads one memory-info line held in `l`; `text[start..]` holds the same
/// characters, so that the label can be cut from it.
fn read_meminfo_line(l: &Vec<char>, text: &str, start: usize) -> (r: Result<
    (String, usize),
    ParseError,
>)
    requires
        start + l.len() <= text@.len() <= usize::MAX,
        text@.subrange(start as int, start + l.len()) == l@,
    ensures
        match meminfo_line(l@) {
            Ok((k, v)) => r matches Ok((rk, rv)) && rk@ == k && rv == v,
            Err(e) => r matches Err(re) && re == e,
        },
{
    let c = run_end(l, 0, Class::Label);
    proof {
        assert(l@.skip(0) =~= l@);
        lemma_run_len(l@, Class::Label);
    }
    if c == l.len() {
        return Err(ParseError::SourceFormat);
    }
    let (v, j) = match read_unsigned(l, c + 1) {
        Ok(t) => t,
        Err(e) => {
            return Err(e);
        },
    };
    let len = l.len();
    let unit_ok = if j == len {
        true
    } else if len - j >= 2 && l[j] == 'k' && l[j + 1] == 'B' {
        let e = skip_spaces(l, j + 2);
        proof {
            assert(l@.skip(j as int).skip(2) =~= l@.skip(j + 2));
        }
        e == len
    } else {
        false
    };
    if !unit_ok {
        return Err(ParseError::SourceFormat);
    }
    let (x, y) = trim_bounds(l, c);
    proof {
        assert(text@.subrange(start + x, start + y) =~= l@.subrange(x as int, y as int));
    }
    let label = text.substring_char(start + x, start + y).to_owned();
    Ok((label, v))
}

/// Reads the memory-info text: one `Label: value [kB]` record per line.
/// Every label is kept, known or not; a later line for a label replaces the
/// value of an earlier one.
pub fn parse_meminfo(i: &str) -> (r: Result<MemInfo, ParseError>)
    ensures
        match spec_parse_meminfo(i@) {
            Ok(t) => r matches Ok(m) && m.wf() && m@ == t,
            Err(e) => r matches Err(re) && re == e,
        },
{
    let s = chars_of(i);
    let len = s.len();
    let mut table: MemInfo = Table::new();
    let ghost mut done: Entries<usize> = Seq::empty();
    let mut pos: usize = 0;
    proof {
        assert(s@.skip(0) =~= s@);
        assert(done + Seq::empty() =~= Seq::<(Seq<char>, usize)>::empty());
    }
    while pos < len
        invariant
            s@ == i@,
            len == s.len(),
            pos <= len,
            table.wf(),
            table@ == entries_of(done),
            after(done, meminfo_records(s@.skip(pos as int))) == meminfo_records(s@),
        decreases len - pos,
    {
        let e = run_end(&s, pos, Class::Line);
        let line = slice_chars(&s, pos, e);
        let ghost rest = s@.skip(pos as int);
        proof {
            lemma_run_len(rest, Class::Line);
            if e < len {
                assert(rest.take(e - pos) =~= line@);
                assert(rest.skip(e - pos + 1) =~= s@.skip(e + 1));
            } else {
                assert(rest =~= line@);
            }
        }
        assert(i@.subrange(pos as int, pos + line.len()) =~= line@);
        match read_meminfo_line(&line, i, pos) {
            Ok((k, v)) => {
                let ghost rec = (k@, v);
                table.insert(k, v);
                proof {
                    let d2 = done.push(rec);
                    assert(d2.drop_last() =~= done);
                    match meminfo_records(if e < len { s@.skip(e + 1) } else { Seq::empty() }) {
                        Ok(rs) => {
                            assert(d2 + rs =~= done + (seq![rec] + rs));
                        },
                        Err(_) => {},
                    }
                    done = d2;
                }
            },
            Err(err) => {
                return Err(err);
            },
        }
        pos = if e < len { e + 1 } else { len };
        proof {
            if e >= len {
                assert(s@.skip(pos as int) =~= Seq::<char>::empty());
            }
        }
    }
    proof {
        assert(s@.skip(pos as int) =~= Seq::<char>::empty());
        assert(done + Seq::empty() =~= done);
    }
    Ok(table)
}

/// How a swap device is backed.
#[derive(Debug, Clone, Copy, PartialEq, Eq, Structural)]
pub enum SwapType {
    File,
    Partition,
}

/// One row of the swap table. That `used` is at most `size` is expected of
/// the kernel, not checked here.
#[derive(Debug, Clone, Copy, PartialEq, Eq, Structural)]
pub struct Swap {
    pub swap_type: SwapType,
    pub size: usize,
    pub used: usize,
    pub priority: isize,
}

/// The swap table: each device's path with its row.
pub type Swaps = Table<Swap>;

/// Reads one word (a run of non-whitespace) after optional whitespace,
/// together with the whitespace that follows it.
pub open spec fn word_token(s: Seq<char>) -> (Seq<char>, Seq<char>) {
    let t = skip_ws(s);
    let n = run_len(t, Class::Word) as int;
    (t.take(n), skip_ws(t.skip(n)))
}

pub open spec fn swap_type_of(w: Seq<char>) -> Option<SwapType> {
    if w == seq!['f', 'i', 'l', 'e'] {
        Some(SwapType::File)
    } else if w == seq!['p', 'a', 'r', 't', 'i', 't', 'i', 'o', 'n'] {
        Some(SwapType::Partition)
    } else {
        None
    }
}

/// The swap table's header line: the words `Filename Type Size Used
/// Priority`, exactly these and no others.
pub open spec fn swaps_header(l: Seq<char>) -> bool {
    let (w1, r1) = word_token(l);
    let (w2, r2) = word_token(r1);
    let (w3, r3) = word_token(r2);
    let (w4, r4) = word_token(r3);
    let (w5, r5) = word_token(r4);
    &&& w1 == seq!['F', 'i', 'l', 'e', 'n', 'a', 'm', 'e']
    &&& w2 == seq!['T', 'y', 'p', 'e']
    &&& w3 == seq!['S', 'i', 'z', 'e']
    &&& w4 == seq!['U', 's', 'e', 'd']
    &&& w5 == seq!['P', 'r', 'i', 'o', 'r', 'i', 't', 'y']
    &&& r5.len() == 0
}

/// One device row: path, type, size, used, priority, and nothing more.
pub open spec fn swap_row(l: Seq<char>) -> Result<(Seq<char>, Swap), ParseError> {
    let (name, r1) = word_token(l);
    let (ty, r2) = word_token(r1);
    if name.len() == 0 {
        Err(ParseError::SourceFormat)
    } else if swap_type_of(ty) is None {
        Err(ParseError::UnknownSwapType)
    } else {
        match unsigned_token(r2) {
            Err(e) => Err(e),
            Ok((size, r3)) => match unsigned_token(r3) {
                Err(e) => Err(e),
                Ok((used, r4)) => match signed_token(r4) {
                    Err(e) => Err(e),
                    Ok((priority, r5)) => if r5.len() == 0 {
                        Ok(
                            (
                                name,
                                Swap {
                                    swap_type: swap_type_of(ty)->Some_0,
                                    size,
                                    used,
                                    priority,
                                },
                            ),
                        )
                    } else {
                        Err(ParseError::SourceFormat)
                    },
                },
            },
        }
    }
}

/// The device rows, one per line, in order. The last line needs no newline.
pub open spec fn swap_records(s: Seq<char>) -> Result<Entries<Swap>, ParseError>
    decreases s.len(),
{
    if s.len() == 0 {
        Ok(Seq::empty())
    } else {
        let n = run_len(s, Class::Line) as int;
        let line = if n < s.len() { s.take(n) } else { s };
        let rest = if n < s.len() { s.skip(n + 1) } else { Seq::empty() };
        match swap_row(line) {
            Err(e) => Err(e),
            Ok(rec) => match swap_records(rest) {
                Ok(rs) => Ok(seq![rec] + rs),
                Err(e) => Err(e),
            },
        }
    }
}

/// The swap table that the swap-table text gives: a header line, then the
/// device rows, where a later row for a path replaces an earlier one.
pub open spec fn spec_parse_swaps(s: Seq<char>) -> Result<Entries<Swap>, ParseError> {
    let n = run_len(s, Class::Line) as int;
    let line = if n < s.len() { s.take(n) } else { s };
    let rest = if n < s.len() { s.skip(n + 1) } else { Seq::empty() };
    if !swaps_header(line) {
        Err(ParseError::SourceFormat)
    } else {
        match swap_records(rest) {
            Ok(rs) => Ok(entries_of(rs)),
            Err(e) => Err(e),
        }
    }
}

/// Reads a word at position `i`: its bounds, and the position after the
/// whitespace that follows it.
fn read_word(l: &Vec<char>, i: usize) -> (r: (usize, usize, usize))
    requires
        i <= l.len(),
    ensures
        r.0 <= r.1 <= r.2 <= l.len(),
        word_token(l@.skip(i as int)).0 == l@.subrange(r.0 as int, r.1 as int),
        word_token(l@.skip(i as int)).1 == l@.skip(r.2 as int),
{
    let a = skip_spaces(l, i);
    let b = run_end(l, a, Class::Word);
    let j = skip_spaces(l, b);
    proof {
        lemma_run_len(l@.skip(a as int), Class::Word);
        assert(l@.skip(a as int).take(b - a) =~= l@.subrange(a as int, b as int));
        lemma_skip_skip(l@, a as int, b as int);
    }
    (a, b, j)
}

/// Whether `l[a..b]` is the word `w`.
fn word_is(l: &Vec<char>, a: usize, b: usize, w: &Vec<char>) -> (r: bool)
    requires
        a <= b <= l.len(),
    ensures
        r == (l@.subrange(a as int, b as int) == w@),
{
    if b - a != w.len() {
        return false;
    }
    let mut k: usize = 0;
    while k < w.len()
        invariant
            a <= b <= l.len(),
            b - a == w.len(),
            k <= w.len(),
            forall|m: int| 0 <= m < k ==> l@[a + m] == w@[m],
        decreases w.len() - k,
    {
        if l[a + k] != w[k] {
            proof {
                assert(l@.subrange(a as int, b as int)[k as int] != w@[k as int]);
            }
            return false;
        }
        k = k + 1;
    }
    assert(l@.subrange(a as int, b as int) =~= w@);
    true
}

fn check_swaps_header(l: &Vec<char>) -> (r: bool)
    ensures
        r == swaps_header(l@),
{
    proof {
        assert(l@.skip(0) =~= l@);
    }
    let (a1, b1, j1) = read_word(l, 0);
    let (a2, b2, j2) = read_word(l, j1);
    let (a3, b3, j3) = read_word(l, j2);
    let (a4, b4, j4) = read_word(l, j3);
    let (a5, b5, j5) = read_word(l, j4);
    word_is(l, a1, b1, &vec!['F', 'i', 'l', 'e', 'n', 'a', 'm', 'e']) && word_is(
        l,
        a2,
        b2,
        &vec!['T', 'y', 'p', 'e'],
    ) && word_is(l, a3, b3, &vec!['S', 'i', 'z', 'e']) && word_is(
        l,
        a4,
        b4,
        &vec!['U', 's', 'e', 'd'],
    ) && word_is(l, a5, b5, &vec!['P', 'r', 'i', 'o', 'r', 'i', 't', 'y']) && j5 == l.len()
}

/// Reads one device row held in `l`; `text[start..]` holds the same
/// characters, so that the path can be cut from it.
fn read_swap_row(l: &Vec<char>, text: &str, start: usize) -> (r: Result<(String, Swap), ParseError>)
    requires
        start + l.len() <= text@.len() <= usize::MAX,
        text@.subrange(start as int, start + l.len()) == l@,
    ensures
        match swap_row(l@) {
            Ok((k, v)) => r matches Ok((rk, rv)) && rk@ == k && rv == v,
            Err(e) => r matches Err(re) && re == e,
        },
{
    proof {
        assert(l@.skip(0) =~= l@);
    }
    let (a1, b1, j1) = read_word(l, 0);
    let (a2, b2, j2) = read_word(l, j1);
    if b1 == a1 {
        return Err(ParseError::SourceFormat);
    }
    let swap_type = if word_is(l, a2, b2, &vec!['f', 'i', 'l', 'e']) {
        SwapType::File
    } else if word_is(l, a2, b2, &vec!['p', 'a', 'r', 't', 'i', 't', 'i', 'o', 'n']) {
        SwapType::Partition
    } else {
        return Err(ParseError::UnknownSwapType);
    };
    let (size, j3) = match read_unsigned(l, j2) {
        Ok(t) => t,
        Err(e) => {
            return Err(e);
        },
    };
    let (used, j4) = match read_unsigned(l, j3) {
        Ok(t) => t,
        Err(e) => {
            return Err(e);
        },
    };
    let (priority, j5) = match read_signed(l, j4) {
        Ok(t) => t,
        Err(e) => {
            return Err(e);
        },
    };
    if j5 != l.len() {
        return Err(ParseError::SourceFormat);
    }
    proof {
        assert(text@.subrange(start + a1, start + b1) =~= l@.subrange(a1 as int, b1 as int));
    }
    let name = text.substring_char(start + a1, start + b1).to_owned();
    Ok((name, Swap { swap_type, size, used, priority }))
}

/// Reads one device row: path, type (`file` or `partition`), size, used
/// and priority, separated by whitespace, with nothing after them.
pub fn parse_swap_line(i: &str) -> (r: Result<(String, Swap), ParseError>)
    ensures
        match swap_row(i@) {
            Ok((k, v)) => r matches Ok((rk, rv)) && rk@ == k && rv == v,
            Err(e) => r matches Err(re) && re == e,
        },
{
    let s = chars_of(i);
    assert(i@.subrange(0, s.len() as int) =~= s@);
    read_swap_row(&s, i, 0)
}

/// Reads the swap-table text: the header line `Filename Type Size Used
/// Priority`, then one row per device. A text with the header alone gives
/// an empty table.
pub fn parse_swaps(i: &str) -> (r: Result<Swaps, ParseError>)
    ensures
        match spec_parse_swaps(i@) {
            Ok(t) => r matches Ok(m) && m.wf() && m@ == t,
            Err(e) => r matches Err(re) && re == e,
        },
{
    let s = chars_of(i);
    let len = s.len();
    proof {
        assert(s@.skip(0) =~= s@);
    }
    let h = run_end(&s, 0, Class::Line);
    let header = slice_chars(&s, 0, h);
    proof {
        lemma_run_len(s@, Class::Line);
        if h < len {
            assert(s@.take(h as int) =~= header@);
        } else {
            assert(s@ =~= header@);
        }
    }
    if !check_swaps_header(&header) {
        return Err(ParseError::SourceFormat);
    }
    let mut table: Swaps = Table::new();
    let ghost mut done: Entries<Swap> = Seq::empty();
    let mut pos: usize = if h < len { h + 1 } else { len };
    proof {
        if h >= len {
            assert(s@.skip(pos as int) =~= Seq::<char>::empty());
        }
        assert(done + Seq::empty() =~= Seq::<(Seq<char>, Swap)>::empty());
        let rest = if h < len { s@.skip(h + 1) } else { Seq::empty() };
        match swap_records(rest) {
            Ok(rs) => {
                assert(done + rs =~= rs);
            },
            Err(_) => {},
        }
    }
    while pos < len
        invariant
            s@ == i@,
            len == s.len(),
            pos <= len,
            table.wf(),
            table@ == entries_of(done),
            after(done, swap_records(s@.skip(pos as int))) == swap_records(
                if h < len { s@.skip(h + 1) } else { Seq::empty() },
            ),
            spec_parse_swaps(s@) == match swap_records(
                if h < len { s@.skip(h + 1) } else { Seq::empty() },
            ) {
                Ok(rs) => Ok(entries_of(rs)),
                Err(e) => Err(e),
            },
        decreases len - pos,
    {
        let e = run_end(&s, pos, Class::Line);
        let line = slice_chars(&s, pos, e);
        let ghost rest = s@.skip(pos as int);
        proof {
            lemma_run_len(rest, Class::Line);
            if e < len {
                assert(rest.take(e - pos) =~= line@);
                assert(rest.skip(e - pos + 1) =~= s@.skip(e + 1));
            } else {
                assert(rest =~= line@);
            }
        }
        assert(i@.subrange(pos as int, pos + line.len()) =~= line@);
        match read_swap_row(&line, i, pos) {
            Ok((k, v)) => {
                let ghost rec = (k@, v);
                table.insert(k, v);
                proof {
                    let d2 = done.push(rec);
                    assert(d2.drop_last() =~= done);
                    match swap_records(if e < len { s@.skip(e + 1) } else { Seq::empty() }) {
                        Ok(rs) => {
                            assert(d2 + rs =~= done + (seq![rec] + rs));
                        },
                        Err(_) => {},
                    }
                    done = d2;
                }
            },
            Err(err) => {
                return Err(err);
            },
        }
        pos = if e < len { e + 1 } else { len };
        proof {
            if e >= len {
                assert(s@.skip(pos as int) =~= Seq::<char>::empty());
            }
        }
    }
    proof {
        assert(s@.skip(pos as int) =~= Seq::<char>::empty());
        assert(done + Seq::empty() =~= done);
    }
    Ok(table)
}

/// Time since boot, to the nanosecond.
#[derive(Debug, Clone, Copy, PartialEq, Eq, Structural, Default)]
pub struct Uptime {
    pub secs: u64,
    pub nanos: u32,
}

pub const NANOS_PER_SEC: u32 = 1_000_000_000;

impl Uptime {
    /// The nanoseconds stay below one second.
    pub open spec fn wf(&self) -> bool {
        self.nanos < NANOS_PER_SEC
    }
}

/// The largest count of nanoseconds whose whole seconds fit in a `u64`.
pub const MAX_UPTIME_NANOS: u128 = 18_446_744_073_709_551_615_999_999_999;

/// `v * 10^shift`, rounded down to a whole number.
pub open spec fn scaled(v: nat, shift: int) -> nat {
    if shift >= 0 {
        v * pow10(shift as nat)
    } else {
        v / pow10((-shift) as nat)
    }
}

/// The fraction that `r` begins with, `.` and digits: its digits, and what
/// follows them. Where `r` begins with no `.`, no digits and all of `r`.
pub open spec fn fraction_part(r: Seq<char>) -> (Seq<char>, Seq<char>) {
    if r.len() > 0 && r[0] == '.' {
        let f = run_len(r.drop_first(), Class::Digit) as int;
        (r.drop_first().take(f), r.drop_first().skip(f))
    } else {
        (Seq::empty(), r)
    }
}

/// The exponent that `r` begins with, `e` or `E`, an optional sign and
/// digits: whether it is negative, its size, and what follows it. Where `r`
/// begins with no exponent mark, exponent 0 and all of `r`; `None` where the
/// mark has no digits.
pub open spec fn exponent_part(r: Seq<char>) -> Option<(bool, nat, Seq<char>)> {
    if r.len() > 0 && (r[0] == 'e' || r[0] == 'E') {
        let r3 = r.drop_first();
        let neg = r3.len() > 0 && r3[0] == '-';
        let signed = r3.len() > 0 && (r3[0] == '-' || r3[0] == '+');
        let r4 = if signed { r3.drop_first() } else { r3 };
        let en = run_len(r4, Class::Digit) as int;
        if en == 0 {
            None
        } else {
            Some((neg, digits_value(r4.take(en)), r4.skip(en)))
        }
    } else {
        Some((false, 0, r))
    }
}

/// The parts of the decimal number that `s` begins with: its integer
/// digits, its fraction digits and its exponent, as in `12`, `12.5`, `7.`
/// or `1.5e-3`. `None` where `s` does not begin with digits, where an
/// exponent mark has no digits, or where the number does not end at
/// whitespace or at the end of `s`.
pub open spec fn decimal_parts(s: Seq<char>) -> Option<(Seq<char>, Seq<char>, int)> {
    let n = run_len(s, Class::Digit) as int;
    let (f, r2) = fraction_part(s.skip(n));
    if n == 0 {
        None
    } else {
        match exponent_part(r2) {
            None => None,
            Some((neg, e, tail)) => if tail.len() > 0 && !is_space(tail[0]) {
                None
            } else {
                Some((s.take(n), f, if neg { -e } else { e as int }))
            },
        }
    }
}

/// The uptime text read as an `Uptime`: its first number, in seconds, taken
/// down to whole nanoseconds (rounded down); what follows it (the idle
/// time) is not read. It is malformed where it is no decimal number or its
/// whole seconds do not fit in a `u64`.
pub open spec fn spec_parse_uptime(s: Seq<char>) -> Result<Uptime, ParseError> {
    match decimal_parts(skip_ws(s)) {
        None => Err(ParseError::MalformedNumber),
        Some((w, f, e)) => {
            let n = scaled(digits_value(w + f), 9 + e - f.len());
            if n > MAX_UPTIME_NANOS {
                Err(ParseError::MalformedNumber)
            } else {
                Ok(
                    Uptime {
                        secs: (n / NANOS_PER_SEC as nat) as u64,
                        nanos: (n % NANOS_PER_SEC as nat) as u32,
                    },
                )
            }
        },
    }
}

/// Finds the fraction at position `b`: the bounds of its digits, and the
/// position after them.
fn read_fraction(s: &Vec<char>, b: usize) -> (r: (usize, usize, usize))
    requires
        b <= s.len(),
    ensures
        b <= r.0 <= r.1 <= r.2 <= s.len(),
        fraction_part(s@.skip(b as int)).0 == s@.subrange(r.0 as int, r.1 as int),
        fraction_part(s@.skip(b as int)).1 == s@.skip(r.2 as int),
        all_digits(s@.subrange(r.0 as int, r.1 as int)),
{
    if b < s.len() && s[b] == '.' {
        let fs = b + 1;
        let fe = run_end(s, fs, Class::Digit);
        proof {
            assert(s@.skip(b as int).drop_first() =~= s@.skip(fs as int));
            lemma_run_len(s@.skip(fs as int), Class::Digit);
            assert(s@.skip(fs as int).take(fe - fs) =~= s@.subrange(fs as int, fe as int));
            lemma_skip_skip(s@, fs as int, fe as int);
            assert forall|q: int| 0 <= q < fe - fs implies is_digit(
                #[trigger] s@.subrange(fs as int, fe as int)[q],
            ) by {
                assert(s@.subrange(fs as int, fe as int)[q] == s@.skip(fs as int)[q]);
            }
        }
        (fs, fe, fe)
    } else {
        assert(s@.subrange(b as int, b as int) =~= Seq::<char>::empty());
        (b, b, b)
    }
}

/// Reads the exponent at position `p`: whether it is negative, its size
/// where that is at most `s.len() + 40`, and the position after it.
fn read_exponent(s: &Vec<char>, p: usize) -> (r: Option<(bool, Option<u128>, usize)>)
    requires
        p <= s.len(),
    ensures
        match exponent_part(s@.skip(p as int)) {
            None => r is None,
            Some((neg, e, tail)) => r matches Some((rn, ev, q)) && rn == neg && q <= s.len()
                && s@.skip(q as int) == tail && match ev {
                Some(x) => x == e && x <= s.len() + 40,
                None => e > s.len() + 40,
            },
        },
{
    let len = s.len();
    if !(p < len && (s[p] == 'e' || s[p] == 'E')) {
        return Some((false, Some(0), p));
    }
    let mut q = p + 1;
    proof {
        assert(s@.skip(p as int).drop_first() =~= s@.skip(q as int));
    }
    let neg = q < len && s[q] == '-';
    if q < len && (s[q] == '-' || s[q] == '+') {
        q = q + 1;
        proof {
            assert(s@.skip(q - 1).drop_first() =~= s@.skip(q as int));
        }
    }
    let cap = len as u128 + 40;
    let (qe, v) = digit_run(s, q, cap);
    if qe == q {
        return None;
    }
    proof {
        lemma_run_len(s@.skip(q as int), Class::Digit);
    }
    Some((neg, v, qe))
}

/// Finds the parts of the decimal number at position `a`: the end of the
/// integer digits, the bounds of the fraction digits, whether the exponent
/// is negative, and its size where it is at most `s.len() + 40`.
fn read_decimal_parts(s: &Vec<char>, a: usize) -> (r: Option<(usize, usize, usize, bool, Option<u128>)>)
    requires
        a <= s.len(),
    ensures
        match decimal_parts(s@.skip(a as int)) {
            None => r is None,
            Some((w, f, e)) => r matches Some((b, fs, fe, neg, ev)) && a <= b <= fs <= fe
                <= s.len() && s@.subrange(a as int, b as int) == w && s@.subrange(fs as int, fe as int)
                == f && all_digits(w) && all_digits(f) && match ev {
                Some(x) => x <= s.len() + 40 && e == (if neg { -x } else { x as int }),
                None => if neg { e < -(s.len() + 40) } else { e > s.len() + 40 },
            },
        },
{
    let (b, _) = digit_run(s, a, 0);
    if b == a {
        return None;
    }
    proof {
        lemma_run_len(s@.skip(a as int), Class::Digit);
        assert forall|q: int| 0 <= q < b - a implies is_digit(
            #[trigger] s@.subrange(a as int, b as int)[q],
        ) by {
            assert(s@.subrange(a as int, b as int)[q] == s@.skip(a as int)[q]);
        }
    }
    let (fs, fe, p) = read_fraction(s, b);
    let (neg, ev, q) = match read_exponent(s, p) {
        None => {
            return None;
        },
        Some(t) => t,
    };
    if q < s.len() && !is_in_class(s[q], Class::Space) {
        return None;
    }
    Some((b, fs, fe, neg, ev))
}

/// `m` read as digits and scaled by `10^(9 + e - flen)`, rounded down:
/// `None` where that is more than `MAX_UPTIME_NANOS`. `ev` gives the size
/// of the exponent `e`, where it is at most `cap`.
fn scaled_nanos(m: &Vec<char>, flen: usize, neg: bool, ev: Option<u128>, cap: u128, Ghost(e): Ghost<
    int,
>) -> (r: Option<u128>)
    requires
        all_digits(m@),
        flen <= m.len(),
        m.len() + 40 <= cap <= usize::MAX + 40,
        match ev {
            Some(x) => x <= cap && e == (if neg { -x } else { x as int }),
            None => if neg { e < -cap } else { e > cap },
        },
    ensures
        match r {
            Some(n) => n == scaled(digits_value(m@), 9 + e - flen) && n <= MAX_UPTIME_NANOS,
            None => scaled(digits_value(m@), 9 + e - flen) > MAX_UPTIME_NANOS,
        },
{
    let mlen = m.len();
    let ghost v = digits_value(m@);
    let ghost shift = 9 + e - flen;
    proof {
        assert(m@.subrange(0, mlen as int) =~= m@);
        lemma_digits_bound(m@);
    }
    if read_digits(m, 0, mlen, 0).is_some() {
        proof {
            assert(v == 0);
            if shift < 0 {
                lemma_pow10_pos((-shift) as nat);
            }
        }
        return Some(0);
    }
    let x = match ev {
        None => {
            if neg {
                proof {
                    lemma_pow10_mono(mlen as nat, (-shift) as nat);
                    vstd::arithmetic::div_mod::lemma_fundamental_div_mod_converse_div(
                        v as int,
                        pow10((-shift) as nat) as int,
                        0,
                        v as int,
                    );
                }
                return Some(0);
            } else {
                proof {
                    lemma_pow10_mono(29, shift as nat);
                    reveal_with_fuel(pow10, 30);
                    assert(pow10(29) == 100_000_000_000_000_000_000_000_000_000);
                    let p = pow10(shift as nat);
                    assert(v * p >= p) by (nonlinear_arith)
                        requires
                            v >= 1,
                            p >= 1,
                    ;
                }
                return None;
            }
        },
        Some(x) => x,
    };
    let k: i128 = if neg { 9 - (x as i128) - (flen as i128) } else { 9 + (x as i128) - (flen as i128) };
    assert(k == shift);
    if k >= 0 {
        let first = match read_digits(m, 0, mlen, MAX_UPTIME_NANOS) {
            Some(d) => d,
            None => {
                proof {
                    lemma_pow10_pos(shift as nat);
                    let p = pow10(shift as nat);
                    assert(v * p >= v) by (nonlinear_arith)
                        requires
                            p >= 1,
                    ;
                }
                return None;
            },
        };
        let mut acc: u128 = first;
        let mut i: i128 = 0;
        proof {
            assert(m@.subrange(0, mlen as int) == m@);
            assert(pow10(0) == 1);
            assert(acc == v * pow10(0));
        }
        while i < k
            invariant
                0 <= i <= k,
                k == shift,
                shift == 9 + e - flen,
                v == digits_value(m@),
                acc == v * pow10(i as nat),
                acc <= MAX_UPTIME_NANOS,
            decreases k - i,
        {
            if acc > MAX_UPTIME_NANOS / 10 {
                proof {
                    lemma_pow10_mono((i + 1) as nat, shift as nat);
                    let p1 = pow10((i + 1) as nat);
                    let p2 = pow10(shift as nat);
                    assert(p1 == 10 * pow10(i as nat));
                    assert(v * p2 >= v * p1) by (nonlinear_arith)
                        requires
                            p1 <= p2,
                            v >= 0,
                    ;
                    assert(v * p1 == acc * 10) by (nonlinear_arith)
                        requires
                            p1 == 10 * pow10(i as nat),
                            acc == v * pow10(i as nat),
                    ;
                    assert(acc * 10 > MAX_UPTIME_NANOS);
                }
                return None;
            }
            proof {
                let p0 = pow10(i as nat);
                assert(pow10((i + 1) as nat) == 10 * p0);
                assert(acc * 10 == v * (10 * p0)) by (nonlinear_arith)
                    requires
                        acc == v * p0,
                ;
            }
            acc = acc * 10;
            i = i + 1;
        }
        Some(acc)
    } else {
        if -k >= mlen as i128 {
            proof {
                lemma_pow10_mono(mlen as nat, (-shift) as nat);
                vstd::arithmetic::div_mod::lemma_fundamental_div_mod_converse_div(
                    v as int,
                    pow10((-shift) as nat) as int,
                    0,
                    v as int,
                );
            }
            return Some(0);
        }
        let j = (-k) as usize;
        assert(j == -shift);
        proof {
            lemma_digits_div(m@, j as nat);
            assert(m@.subrange(0, mlen - j) =~= m@.take(mlen - j));
            assert(all_digits(m@.subrange(0, mlen - j))) by {
                assert forall|q: int| 0 <= q < mlen - j implies is_digit(
                    #[trigger] m@.subrange(0, mlen - j)[q],
                ) by {
                    assert(m@.subrange(0, mlen - j)[q] == m@[q]);
                }
            }
        }
        read_digits(m, 0, mlen - j, MAX_UPTIME_NANOS)
    }
}

/// The digits of `s[a..b]` followed by those of `s[fs..fe]`.
fn join_digits(s: &Vec<char>, a: usize, b: usize, fs: usize, fe: usize) -> (m: Vec<char>)
    requires
        a <= b <= s.len(),
        fs <= fe <= s.len(),
        all_digits(s@.subrange(a as int, b as int)),
        all_digits(s@.subrange(fs as int, fe as int)),
    ensures
        m@ == s@.subrange(a as int, b as int) + s@.subrange(fs as int, fe as int),
        all_digits(m@),
{
    let mut m = slice_chars(s, a, b);
    let mut f = slice_chars(s, fs, fe);
    let ghost w0 = m@;
    let ghost f0 = f@;
    m.append(&mut f);
    proof {
        assert(m@ =~= w0 + f0);
        assert forall|q: int| 0 <= q < m@.len() implies is_digit(#[trigger] m@[q]) by {
            if q < w0.len() {
                assert(m@[q] == w0[q]);
            } else {
                assert(m@[q] == f0[q - w0.len()]);
            }
        }
    }
    m
}

/// Whole seconds and the nanoseconds left over, out of a count of
/// nanoseconds whose seconds fit in a `u64`.
fn split_nanos(n: u128) -> (u: Uptime)
    requires
        n <= MAX_UPTIME_NANOS,
    ensures
        u.secs == (n as nat) / (NANOS_PER_SEC as nat),
        u.nanos == (n as nat) % (NANOS_PER_SEC as nat),
        u.wf(),
{
    proof {
        let d = NANOS_PER_SEC as int;
        vstd::arithmetic::div_mod::lemma_fundamental_div_mod(n as int, d);
        vstd::arithmetic::div_mod::lemma_mod_pos_bound(n as int, d);
    }
    Uptime { secs: (n / 1_000_000_000) as u64, nanos: (n % 1_000_000_000) as u32 }
}

/// Reads the uptime text: its first number, in seconds, taken down to whole
/// nanoseconds; a fraction and an exponent are accepted.
pub fn parse_uptime(i: &str) -> (r: Result<Uptime, ParseError>)
    ensures
        r == spec_parse_uptime(i@),
        r matches Ok(u) ==> u.wf(),
{
    let s = chars_of(i);
    let a = skip_spaces(&s, 0);
    proof {
        assert(s@.skip(0) =~= s@);
    }
    let (b, fs, fe, neg, ev) = match read_decimal_parts(&s, a) {
        None => {
            return Err(ParseError::MalformedNumber);
        },
        Some(t) => t,
    };
    let ghost parts = decimal_parts(s@.skip(a as int))->Some_0;
    let m = join_digits(&s, a, b, fs, fe);
    let cap = s.len() as u128 + 40;
    match scaled_nanos(&m, fe - fs, neg, ev, cap, Ghost(parts.2)) {
        None => Err(ParseError::MalformedNumber),
        Some(n) => Ok(split_nanos(n)),
    }
}

/// Where the installed system's store paths begin.
pub open spec fn store_prefix() -> Seq<char> {
    seq!['/', 'n', 'i', 'x', '/', 's', 't', 'o', 'r', 'e', '/']
}

/// Takes the store prefix `/nix/store/` off a link target, leaving the
/// identifier of the installed system.
pub fn parse_nix_store_path(i: &str) -> (r: Result<&str, ParseError>)
    ensures
        i@.len() >= store_prefix().len() && i@.take(store_prefix().len() as int) == store_prefix()
            ==> (r matches Ok(id) && id@ == i@.skip(store_prefix().len() as int)),
        !(i@.len() >= store_prefix().len() && i@.take(store_prefix().len() as int)
            == store_prefix()) ==> r == Err::<&str, ParseError>(ParseError::SourceFormat),
{
    let s = chars_of(i);
    let prefix = vec!['/', 'n', 'i', 'x', '/', 's', 't', 'o', 'r', 'e', '/'];
    if s.len() < prefix.len() || !word_is(&s, 0, prefix.len(), &prefix) {
        return Err(ParseError::SourceFormat);
    }
    assert(s@.subrange(0, 11) =~= s@.take(11));
    Ok(i.substring_char(prefix.len(), s.len()))
}

} // verus!
