//! Character classes, scanning over a text held as a vector of characters,
//! and the decimal reading of digit runs.
use vstd::prelude::*;

verus! {

broadcast use vstd::string::group_string_axioms;

/// Whitespace as the kernel's text files use it: space, tab, carriage return, newline.
pub open spec fn is_space(c: char) -> bool {
    c == ' ' || c == '\t' || c == '\r' || c == '\n'
}

pub open spec fn is_digit(c: char) -> bool {
    48 <= (c as u32) && (c as u32) <= 57
}

pub open spec fn digit_value(c: char) -> nat {
    ((c as u32) - 48) as nat
}

/// The classes of characters that a scan can run over.
#[derive(Clone, Copy, PartialEq, Eq, Structural)]
pub enum Class {
    /// Whitespace.
    Space,
    /// Decimal digits.
    Digit,
    /// Anything but whitespace: one word.
    Word,
    /// Anything but a newline: the rest of one line.
    Line,
    /// Anything but a colon: a label before its colon.
    Label,
}

pub open spec fn in_class(c: char, k: Class) -> bool {
    match k {
        Class::Space => is_space(c),
        Class::Digit => is_digit(c),
        Class::Word => !is_space(c),
        Class::Line => c != '\n',
        Class::Label => c != ':',
    }
}

/// Length of the longest prefix of `s` whose characters are all in class `k`.
pub open spec fn run_len(s: Seq<char>, k: Class) -> nat
    decreases s.len(),
{
    if s.len() > 0 && in_class(s[0], k) {
        1 + run_len(s.drop_first(), k)
    } else {
        0
    }
}

/// `s` without its leading whitespace.
pub open spec fn skip_ws(s: Seq<char>) -> Seq<char> {
    s.skip(run_len(s, Class::Space) as int)
}

/// The number that a run of decimal digits denotes.
pub open spec fn digits_value(s: Seq<char>) -> nat
    decreases s.len(),
{
    if s.len() == 0 {
        0
    } else {
        digits_value(s.drop_last()) * 10 + digit_value(s.last())
    }
}

pub fn is_in_class(c: char, k: Class) -> (r: bool)
    ensures
        r == in_class(c, k),
{
    match k {
        Class::Space => c == ' ' || c == '\t' || c == '\r' || c == '\n',
        Class::Digit => 48 <= (c as u32) && (c as u32) <= 57,
        Class::Word => !(c == ' ' || c == '\t' || c == '\r' || c == '\n'),
        Class::Line => c != '\n',
        Class::Label => c != ':',
    }
}

/// The characters of `s`, one per element.
pub fn chars_of(s: &str) -> (r: Vec<char>)
    ensures
        r@ == s@,
{
    let mut v: Vec<char> = Vec::new();
    for c in it: s.chars()
        invariant
            it.seq() == s@,
            v@ == it.seq().take(it.index()),
    {
        proof {
            assert(it.seq().take(it.index() + 1) =~= it.seq().take(it.index()).push(c));
        }
        v.push(c);
    }
    proof {
        assert(v@ =~= s@);
    }
    v
}

/// Position of the first character at or after `i` that is not in class `k`.
pub fn run_end(s: &Vec<char>, i: usize, k: Class) -> (j: usize)
    requires
        i <= s.len(),
    ensures
        i <= j <= s.len(),
        j - i == run_len(s@.skip(i as int), k),
{
    let mut j = i;
    while j < s.len() && is_in_class(s[j], k)
        invariant
            i <= j <= s.len(),
            run_len(s@.skip(i as int), k) == (j - i) + run_len(s@.skip(j as int), k),
        decreases s.len() - j,
    {
        proof {
            assert(s@.skip(j as int).drop_first() =~= s@.skip(j + 1));
        }
        j = j + 1;
    }
    j
}

pub open spec fn all_digits(s: Seq<char>) -> bool {
    forall|i: int| 0 <= i < s.len() ==> is_digit(#[trigger] s[i])
}

/// What `run_len` counts: the characters it covers are in the class, the
/// one after them is not.
pub proof fn lemma_run_len(s: Seq<char>, k: Class)
    ensures
        run_len(s, k) <= s.len(),
        forall|i: int| 0 <= i < run_len(s, k) ==> in_class(#[trigger] s[i], k),
        run_len(s, k) < s.len() ==> !in_class(s[run_len(s, k) as int], k),
    decreases s.len(),
{
    if s.len() > 0 && in_class(s[0], k) {
        lemma_run_len(s.drop_first(), k);
        assert forall|i: int| 0 <= i < run_len(s, k) implies in_class(#[trigger] s[i], k) by {
            if i > 0 {
                assert(s[i] == s.drop_first()[i - 1]);
            }
        }
    }
}

/// A run from the start of `s` is the same run in any prefix that holds it.
pub proof fn lemma_run_len_take(s: Seq<char>, n: int, k: Class)
    requires
        run_len(s, k) <= n <= s.len(),
    ensures
        run_len(s.take(n), k) == run_len(s, k),
    decreases s.len(),
{
    if s.len() > 0 && in_class(s[0], k) {
        assert(s.take(n).drop_first() =~= s.drop_first().take(n - 1));
        lemma_run_len_take(s.drop_first(), n - 1, k);
    }
}

/// Number of whitespace characters at the end of `s`.
pub open spec fn trailing_ws(s: Seq<char>) -> nat
    decreases s.len(),
{
    if s.len() > 0 && is_space(s.last()) {
        1 + trailing_ws(s.drop_last())
    } else {
        0
    }
}

/// `s` without whitespace at either end.
pub open spec fn trim(s: Seq<char>) -> Seq<char> {
    let t = skip_ws(s);
    t.take(t.len() - trailing_ws(t))
}

/// A copy of `s[a..b]`.
pub fn slice_chars(s: &Vec<char>, a: usize, b: usize) -> (r: Vec<char>)
    requires
        a <= b <= s.len(),
    ensures
        r@ == s@.subrange(a as int, b as int),
{
    let mut r: Vec<char> = Vec::new();
    let mut i = a;
    while i < b
        invariant
            a <= i <= b <= s.len(),
            r@ == s@.subrange(a as int, i as int),
        decreases b - i,
    {
        r.push(s[i]);
        assert(r@ =~= s@.subrange(a as int, i + 1));
        i = i + 1;
    }
    r
}

/// The bounds of `s[0..c]` with its surrounding whitespace taken off, where
/// `s[c]` is no whitespace.
pub fn trim_bounds(s: &Vec<char>, c: usize) -> (r: (usize, usize))
    requires
        c < s.len(),
        !is_space(s@[c as int]),
    ensures
        r.0 <= r.1 <= c,
        s@.subrange(r.0 as int, r.1 as int) == trim(s@.take(c as int)),
{
    let x = run_end(s, 0, Class::Space);
    proof {
        lemma_run_len(s@, Class::Space);
        assert(s@.skip(0) =~= s@);
        lemma_run_len_take(s@, c as int, Class::Space);
        assert(skip_ws(s@.take(c as int)) =~= s@.subrange(x as int, c as int));
    }
    let mut y = c;
    while y > x && is_in_class(s[y - 1], Class::Space)
        invariant
            x <= y <= c < s.len(),
            trailing_ws(s@.subrange(x as int, c as int)) == (c - y) + trailing_ws(
                s@.subrange(x as int, y as int),
            ),
        decreases y,
    {
        proof {
            assert(s@.subrange(x as int, y as int).drop_last() =~= s@.subrange(
                x as int,
                y - 1,
            ));
        }
        y = y - 1;
    }
    proof {
        let t = s@.subrange(x as int, c as int);
        assert(t.take(t.len() - trailing_ws(t)) =~= s@.subrange(x as int, y as int));
    }
    (x, y)
}

pub open spec fn pow10(n: nat) -> nat
    decreases n,
{
    if n == 0 {
        1
    } else {
        10 * pow10((n - 1) as nat)
    }
}

/// `n` digits read as less than `10^n`.
pub proof fn lemma_digits_bound(s: Seq<char>)
    requires
        all_digits(s),
    ensures
        digits_value(s) < pow10(s.len()),
    decreases s.len(),
{
    if s.len() > 0 {
        let p = s.drop_last();
        assert(all_digits(p)) by {
            assert forall|i: int| 0 <= i < p.len() implies is_digit(#[trigger] p[i]) by {
                assert(p[i] == s[i]);
            }
        }
        lemma_digits_bound(p);
        assert(is_digit(s[s.len() - 1]));
        let a = digits_value(p);
        let b = pow10(p.len());
        assert(a * 10 + 9 < b * 10) by (nonlinear_arith)
            requires
                a < b,
        ;
    }
}

/// The character of a decimal digit.
pub open spec fn digit_char(d: nat) -> char {
    if d == 0 {
        '0'
    } else if d == 1 {
        '1'
    } else if d == 2 {
        '2'
    } else if d == 3 {
        '3'
    } else if d == 4 {
        '4'
    } else if d == 5 {
        '5'
    } else if d == 6 {
        '6'
    } else if d == 7 {
        '7'
    } else if d == 8 {
        '8'
    } else {
        '9'
    }
}

/// The decimal digits of `n`, without leading zeros.
pub open spec fn decimal(n: nat) -> Seq<char>
    decreases n,
{
    if n < 10 {
        seq![digit_char(n)]
    } else {
        decimal(n / 10).push(digit_char(n % 10))
    }
}

pub proof fn lemma_digit_char(d: nat)
    requires
        d < 10,
    ensures
        is_digit(digit_char(d)),
        digit_value(digit_char(d)) == d,
{
}

/// The decimal digits of `n` read back as `n`.
pub proof fn lemma_decimal(n: nat)
    ensures
        decimal(n).len() >= 1,
        all_digits(decimal(n)),
        digits_value(decimal(n)) == n,
    decreases n,
{
    lemma_digit_char(n % 10);
    if n < 10 {
        assert(decimal(n).drop_last() =~= Seq::<char>::empty());
        assert(n % 10 == n);
        assert(digits_value(decimal(n)) == digits_value(decimal(n).drop_last()) * 10 + digit_value(
            decimal(n).last(),
        ));
    } else {
        lemma_decimal(n / 10);
        let d = decimal(n);
        assert(d.drop_last() =~= decimal(n / 10));
        assert(d.last() == digit_char(n % 10));
        assert(digits_value(d) == digits_value(decimal(n / 10)) * 10 + n % 10);
        assert((n / 10) * 10 + n % 10 == n);
        assert(forall|i: int| 0 <= i < decimal(n / 10).len() ==> d[i] == decimal(n / 10)[i]);
    }
}

/// A run over the whole of `a` ends where `a` does when the next character
/// leaves the class.
pub proof fn lemma_run_len_concat(a: Seq<char>, b: Seq<char>, k: Class)
    requires
        forall|i: int| 0 <= i < a.len() ==> in_class(#[trigger] a[i], k),
        b.len() == 0 || !in_class(b[0], k),
    ensures
        run_len(a + b, k) == a.len(),
    decreases a.len(),
{
    if a.len() > 0 {
        assert((a + b).drop_first() =~= a.drop_first() + b);
        assert forall|i: int| 0 <= i < a.drop_first().len() implies in_class(
            #[trigger] a.drop_first()[i],
            k,
        ) by {
            assert(a.drop_first()[i] == a[i + 1]);
        }
        lemma_run_len_concat(a.drop_first(), b, k);
    } else {
        assert(a + b =~= b);
    }
}

pub proof fn lemma_pow10_pos(n: nat)
    ensures
        1 <= pow10(n),
    decreases n,
{
    if n > 0 {
        lemma_pow10_pos((n - 1) as nat);
    }
}

pub proof fn lemma_pow10_mono(i: nat, j: nat)
    requires
        i <= j,
    ensures
        1 <= pow10(i) <= pow10(j),
    decreases j,
{
    lemma_pow10_pos(i);
    if i < j {
        lemma_pow10_mono(i, (j - 1) as nat);
    }
}

/// Digits after digits: the first run shifted by the length of the second.
pub proof fn lemma_digits_concat(a: Seq<char>, b: Seq<char>)
    ensures
        digits_value(a + b) == digits_value(a) * pow10(b.len()) + digits_value(b),
    decreases b.len(),
{
    if b.len() == 0 {
        assert(a + b =~= a);
        assert(pow10(0) == 1);
        assert(digits_value(b) == 0);
    } else {
        let c = b.drop_last();
        assert((a + b).drop_last() =~= a + c);
        assert((a + b).last() == b.last());
        lemma_digits_concat(a, c);
        let x = digits_value(a);
        let p = pow10(c.len());
        let y = digits_value(c);
        let d = digit_value(b.last());
        assert(digits_value(a + b) == digits_value(a + c) * 10 + d);
        assert(digits_value(b) == y * 10 + d);
        assert(pow10(b.len()) == 10 * p);
        assert((x * p + y) * 10 + d == x * (10 * p) + (y * 10 + d)) by (nonlinear_arith);
    }
}

/// Dropping the last `j` digits divides by `10^j`, rounding down.
pub proof fn lemma_digits_div(m: Seq<char>, j: nat)
    requires
        all_digits(m),
        j <= m.len(),
    ensures
        digits_value(m) / pow10(j) == digits_value(m.take(m.len() - j)),
{
    let k = m.len() - j;
    let a = m.take(k);
    let b = m.skip(k);
    assert(a + b =~= m);
    lemma_digits_concat(a, b);
    assert(all_digits(b)) by {
        assert forall|i: int| 0 <= i < b.len() implies is_digit(#[trigger] b[i]) by {
            assert(b[i] == m[k + i]);
        }
    }
    lemma_digits_bound(b);
    lemma_pow10_mono(0, j);
    vstd::arithmetic::div_mod::lemma_fundamental_div_mod_converse_div(
        digits_value(m) as int,
        pow10(j) as int,
        digits_value(a) as int,
        digits_value(b) as int,
    );
}

/// A run of digits reads as at least as much as any of its prefixes.
pub proof fn lemma_digits_prefix_le(s: Seq<char>, n: int)
    requires
        0 <= n <= s.len(),
    ensures
        digits_value(s.take(n)) <= digits_value(s),
    decreases s.len(),
{
    if n < s.len() {
        lemma_digits_prefix_le(s.drop_last(), n);
        assert(s.drop_last().take(n) =~= s.take(n));
    } else {
        assert(s.take(n) =~= s);
    }
}

/// The largest bound that `read_digits` takes.
pub const READ_BOUND: u128 = 0xFFFF_FFFF_FFFF_FFFF_FFFF_FFFF_FFFF;

/// Reads the digits `s[start..end]` as a number, if it is at most `bound`.
pub fn read_digits(s: &Vec<char>, start: usize, end: usize, bound: u128) -> (r: Option<u128>)
    requires
        start <= end <= s.len(),
        all_digits(s@.subrange(start as int, end as int)),
        bound <= READ_BOUND,
    ensures
        match r {
            Some(v) => v == digits_value(s@.subrange(start as int, end as int)) && v <= bound,
            None => digits_value(s@.subrange(start as int, end as int)) > bound,
        },
{
    let mut acc: u128 = 0;
    let mut i = start;
    while i < end
        invariant
            start <= i <= end <= s.len(),
            all_digits(s@.subrange(start as int, end as int)),
            bound <= READ_BOUND,
            acc == digits_value(s@.subrange(start as int, i as int)),
            acc <= bound,
        decreases end - i,
    {
        let c = s[i];
        assert(s@.subrange(start as int, end as int)[i - start] == c);
        let d = (c as u32 - 48) as u128;
        let next = acc * 10 + d;
        proof {
            let p = s@.subrange(start as int, i + 1);
            assert(p.drop_last() =~= s@.subrange(start as int, i as int));
            assert(p.last() == c);
        }
        if next > bound {
            proof {
                let full = s@.subrange(start as int, end as int);
                lemma_digits_prefix_le(full, i + 1 - start);
                assert(full.take(i + 1 - start) =~= s@.subrange(start as int, i + 1));
            }
            return None;
        }
        acc = next;
        i = i + 1;
    }
    Some(acc)
}

} // verus!
