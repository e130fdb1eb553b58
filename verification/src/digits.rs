//! Decimal digit sequences: rendering integers as text and reading them back,
//! with lemmas showing the two directions invert each other.

use vstd::prelude::*;

verus! {

/// The decimal digit character for a value between 0 and 9.
pub open spec fn digit_char(d: int) -> char {
    if d == 0 {
        '0'
    } else if d == 1 {
        '1'
    } else if d == 2 {
        '2'
    } else if d == 3 {
        '3'
    } else if d == 4 {
        '4'
    } else if d == 5 {
        '5'
    } else if d == 6 {
        '6'
    } else if d == 7 {
        '7'
    } else if d == 8 {
        '8'
    } else {
        '9'
    }
}

/// Whether a character is a decimal digit.
pub open spec fn dec_digit(c: char) -> bool {
    c == '0' || c == '1' || c == '2' || c == '3' || c == '4' || c == '5' || c == '6' || c == '7'
        || c == '8' || c == '9'
}

/// The value of a decimal digit character; any non-digit counts as 9 so the
/// result always lies between 0 and 9.
pub open spec fn digit_val(c: char) -> int {
    if c == '0' {
        0
    } else if c == '1' {
        1
    } else if c == '2' {
        2
    } else if c == '3' {
        3
    } else if c == '4' {
        4
    } else if c == '5' {
        5
    } else if c == '6' {
        6
    } else if c == '7' {
        7
    } else if c == '8' {
        8
    } else {
        9
    }
}

/// The shortest decimal rendering of `n`, most significant digit first.
pub open spec fn spec_digits(n: nat) -> Seq<char>
    decreases n,
{
    if n < 10 {
        seq![digit_char(n as int)]
    } else {
        spec_digits(n / 10).push(digit_char((n % 10) as int))
    }
}

/// `n` rendered as exactly two digits; meaningful for `n` below 100.
pub open spec fn pad2(n: int) -> Seq<char> {
    seq![digit_char(n / 10), digit_char(n % 10)]
}

/// `n` rendered as exactly four digits; meaningful for `n` below 10000.
pub open spec fn pad4(n: int) -> Seq<char> {
    seq![
        digit_char(n / 1000),
        digit_char((n / 100) % 10),
        digit_char((n / 10) % 10),
        digit_char(n % 10),
    ]
}

/// The first position at or after `i` holding no digit.
pub open spec fn digit_run_end(s: Seq<char>, i: int) -> int
    decreases s.len() - i
        when 0 <= i <= s.len()
{
    if i < s.len() && dec_digit(s[i]) {
        digit_run_end(s, i + 1)
    } else {
        i
    }
}

/// The value of the digit characters of `s` between `i` and `j`.
pub open spec fn digits_value(s: Seq<char>, i: int, j: int) -> int
    decreases j - i
        when i <= j
{
    if i >= j {
        0
    } else {
        digits_value(s, i, j - 1) * 10 + digit_val(s[j - 1])
    }
}

pub proof fn lemma_digit_run_end(s: Seq<char>, i: int)
    requires
        0 <= i <= s.len(),
    ensures
        i <= digit_run_end(s, i) <= s.len(),
        forall|k: int| i <= k < digit_run_end(s, i) ==> dec_digit(s[k]),
        digit_run_end(s, i) < s.len() ==> !dec_digit(s[digit_run_end(s, i)]),
    decreases s.len() - i,
{
    if i < s.len() && dec_digit(s[i]) {
        lemma_digit_run_end(s, i + 1);
    }
}

/// Walking past a stretch of digits does not change where the run ends.
pub proof fn lemma_run_end_extends(s: Seq<char>, i: int, k: int)
    requires
        0 <= i <= k <= s.len(),
        forall|m: int| i <= m < k ==> dec_digit(s[m]),
    ensures
        digit_run_end(s, i) == digit_run_end(s, k),
    decreases k - i,
{
    if i < k {
        lemma_run_end_extends(s, i + 1, k);
    }
}

pub proof fn lemma_digits_value_nonneg(s: Seq<char>, i: int, j: int)
    requires
        i <= j,
    ensures
        digits_value(s, i, j) >= 0,
    decreases j - i,
{
    if i < j {
        lemma_digits_value_nonneg(s, i, j - 1);
    }
}

/// Reading more digits never makes the value smaller.
pub proof fn lemma_digits_value_monotone(s: Seq<char>, i: int, k: int, j: int)
    requires
        i <= k <= j,
    ensures
        digits_value(s, i, k) <= digits_value(s, i, j),
    decreases j - k,
{
    if k < j {
        lemma_digits_value_monotone(s, i, k, j - 1);
        lemma_digits_value_nonneg(s, i, j - 1);
    }
}

/// The value of a digit stretch depends only on the characters it covers.
pub proof fn lemma_digits_value_shift(s: Seq<char>, t: Seq<char>, i: int, j: int)
    requires
        0 <= i <= j,
        j - i <= t.len(),
        forall|m: int| 0 <= m < j - i ==> s[i + m] == t[m],
    ensures
        digits_value(s, i, j) == digits_value(t, 0, j - i),
    decreases j - i,
{
    if i < j {
        lemma_digits_value_shift(s, t, i, j - 1);
        assert(s[i + (j - i - 1)] == t[j - i - 1]);
    }
}

pub proof fn lemma_spec_digits_are_digits(n: nat)
    ensures
        spec_digits(n).len() >= 1,
        forall|k: int| 0 <= k < spec_digits(n).len() ==> dec_digit(#[trigger] spec_digits(n)[k]),
    decreases n,
{
    if n >= 10 {
        lemma_spec_digits_are_digits(n / 10);
    }
}

pub proof fn lemma_digits_value_of_spec_digits(n: nat)
    ensures
        digits_value(spec_digits(n), 0, spec_digits(n).len() as int) == n,
    decreases n,
{
    if n < 10 {
        assert(digits_value(spec_digits(n), 0, 0) == 0);
        assert(digits_value(spec_digits(n), 0, 1) == digit_val(digit_char(n as int)));
    } else {
        lemma_digits_value_of_spec_digits(n / 10);
        let s = spec_digits(n);
        let t = spec_digits(n / 10);
        let l = s.len() as int;
        assert(s == t.push(digit_char((n % 10) as int)));
        assert(forall|m: int| 0 <= m < l - 1 ==> s[m] == t[m]);
        lemma_digits_value_shift(s, t, 0, l - 1);
        assert(digits_value(s, 0, l) == digits_value(s, 0, l - 1) * 10 + digit_val(s[l - 1]));
        assert(digits_value(t, 0, l - 1) == n / 10);
        lemma_digits_value_shift(s, s, 0, l - 1);
        assert(digit_val(digit_char((n % 10) as int)) == n % 10);
    }
}

/// Where a rendered number sits inside a larger text and no digit follows it,
/// the digit run covers exactly the rendering and reads back as the number.
pub proof fn lemma_parse_digits_at(s: Seq<char>, i: int, n: nat)
    requires
        0 <= i,
        i + spec_digits(n).len() <= s.len(),
        forall|k: int| 0 <= k < spec_digits(n).len() ==> s[i + k] == #[trigger] spec_digits(n)[k],
        i + spec_digits(n).len() == s.len() || !dec_digit(s[i + spec_digits(n).len()]),
    ensures
        digit_run_end(s, i) == i + spec_digits(n).len(),
        digits_value(s, i, i + spec_digits(n).len()) == n,
{
    let l = spec_digits(n).len() as int;
    lemma_spec_digits_are_digits(n);
    assert(forall|m: int| i <= m < i + l ==> dec_digit(s[m])) by {
        assert(forall|m: int| i <= m < i + l ==> s[m] == spec_digits(n)[m - i]);
    }
    lemma_run_end_extends(s, i, i + l);
    assert(digit_run_end(s, i + l) == i + l);
    lemma_digits_value_shift(s, spec_digits(n), i, i + l);
    lemma_digits_value_of_spec_digits(n);
}

/// Appends the decimal digit character for `d`.
pub fn push_digit(s: &mut String, d: u64)
    requires
        d < 10,
    ensures
        final(s)@ == old(s)@ + seq![digit_char(d as int)],
{
    match d {
        0 => s.append("0"),
        1 => s.append("1"),
        2 => s.append("2"),
        3 => s.append("3"),
        4 => s.append("4"),
        5 => s.append("5"),
        6 => s.append("6"),
        7 => s.append("7"),
        8 => s.append("8"),
        _ => s.append("9"),
    }
    proof {
        reveal_strlit("0");
        reveal_strlit("1");
        reveal_strlit("2");
        reveal_strlit("3");
        reveal_strlit("4");
        reveal_strlit("5");
        reveal_strlit("6");
        reveal_strlit("7");
        reveal_strlit("8");
        reveal_strlit("9");
        assert(s@ =~= old(s)@ + seq![digit_char(d as int)]);
    }
}

/// Appends the shortest decimal rendering of `n`.
pub fn push_digits(s: &mut String, n: u64)
    ensures
        final(s)@ == old(s)@ + spec_digits(n as nat),
    decreases n,
{
    if n >= 10 {
        push_digits(s, n / 10);
    }
    push_digit(s, n % 10);
    proof {
        if n < 10 {
            assert(s@ =~= old(s)@ + spec_digits(n as nat));
        } else {
            assert(s@ =~= old(s)@ + spec_digits(n as nat));
        }
    }
}

/// Appends `n` as exactly two digits.
pub fn push_pad2(s: &mut String, n: u64)
    requires
        n < 100,
    ensures
        final(s)@ == old(s)@ + pad2(n as int),
{
    push_digit(s, n / 10);
    push_digit(s, n % 10);
    proof {
        assert(s@ =~= old(s)@ + pad2(n as int));
    }
}

/// Appends `n` as exactly four digits.
pub fn push_pad4(s: &mut String, n: u64)
    requires
        n < 10000,
    ensures
        final(s)@ == old(s)@ + pad4(n as int),
{
    push_digit(s, n / 1000);
    push_digit(s, (n / 100) % 10);
    push_digit(s, (n / 10) % 10);
    push_digit(s, n % 10);
    proof {
        assert(s@ =~= old(s)@ + pad4(n as int));
    }
}

/// Whether `c` is a decimal digit.
pub fn dec_digit_exec(c: char) -> (r: bool)
    ensures
        r == dec_digit(c),
{
    c == '0' || c == '1' || c == '2' || c == '3' || c == '4' || c == '5' || c == '6' || c == '7'
        || c == '8' || c == '9'
}

/// The value of a digit character.
pub fn digit_val_exec(c: char) -> (r: u64)
    requires
        dec_digit(c),
    ensures
        r == digit_val(c),
{
    if c == '0' {
        0
    } else if c == '1' {
        1
    } else if c == '2' {
        2
    } else if c == '3' {
        3
    } else if c == '4' {
        4
    } else if c == '5' {
        5
    } else if c == '6' {
        6
    } else if c == '7' {
        7
    } else if c == '8' {
        8
    } else {
        9
    }
}

/// Reads the digit run starting at `start`. Yields the value and the position
/// after the run; yields nothing when no digit stands at `start` or the value
/// reaches `limit`.
pub fn parse_digits(s: &str, start: usize, limit: u64) -> (r: Option<(u64, usize)>)
    requires
        start <= s@.len(),
        1 <= limit <= 1_000_000_000_000_000_000,
    ensures
        ({
            let j = digit_run_end(s@, start as int);
            let v = digits_value(s@, start as int, j);
            if j == start {
                r is None
            } else if v >= limit {
                r is None
            } else {
                r == Some((v as u64, j as usize))
            }
        }),
{
    let ghost jj = digit_run_end(s@, start as int);
    proof {
        lemma_digit_run_end(s@, start as int);
    }
    let n = s.unicode_len();
    let mut i = start;
    let mut val: u64 = 0;
    loop
        invariant
            start <= i <= jj <= n == s@.len(),
            jj == digit_run_end(s@, start as int),
            forall|k: int| start <= k < i ==> dec_digit(s@[k]),
            forall|k: int| start <= k < jj ==> dec_digit(s@[k]),
            jj < s@.len() ==> !dec_digit(s@[jj as int]),
            val == digits_value(s@, start as int, i as int),
            val < limit,
            1 <= limit <= 1_000_000_000_000_000_000,
        decreases n - i,
    {
        if i >= n || !dec_digit_exec(s.get_char(i)) {
            proof {
                lemma_run_end_extends(s@, start as int, i as int);
            }
            if i == start {
                return None;
            }
            return Some((val, i));
        }
        let d = digit_val_exec(s.get_char(i));
        let nv = val * 10 + d;
        if nv >= limit {
            proof {
                assert(i + 1 <= jj) by {
                    lemma_run_end_extends(s@, start as int, i + 1 as int);
                    lemma_digit_run_end(s@, i + 1 as int);
                }
                assert(digits_value(s@, start as int, i + 1 as int) == nv);
                lemma_digits_value_monotone(s@, start as int, i + 1 as int, jj as int);
            }
            return None;
        }
        val = nv;
        i = i + 1;
    }
}

/// Reads exactly two digit characters at `i` as a number below 100.
pub fn parse_pad2(s: &str, i: usize) -> (r: Option<u64>)
    requires
        i <= s@.len(),
    ensures
        ({
            if i + 2 <= s@.len() && dec_digit(s@[i as int]) && dec_digit(s@[i + 1]) {
                r == Some((digit_val(s@[i as int]) * 10 + digit_val(s@[i + 1])) as u64)
            } else {
                r is None
            }
        }),
{
    let n = s.unicode_len();
    if n < 2 || i > n - 2 {
        return None;
    }
    let c0 = s.get_char(i);
    let c1 = s.get_char(i + 1);
    if !dec_digit_exec(c0) || !dec_digit_exec(c1) {
        return None;
    }
    Some(digit_val_exec(c0) * 10 + digit_val_exec(c1))
}

/// Reads exactly four digit characters at `i` as a number below 10000.
pub fn parse_pad4(s: &str, i: usize) -> (r: Option<u64>)
    requires
        i <= s@.len(),
    ensures
        ({
            if i + 4 <= s@.len() && dec_digit(s@[i as int]) && dec_digit(s@[i + 1]) && dec_digit(
                s@[i + 2],
            ) && dec_digit(s@[i + 3]) {
                r == Some(
                    (digit_val(s@[i as int]) * 1000 + digit_val(s@[i + 1]) * 100 + digit_val(
                        s@[i + 2],
                    ) * 10 + digit_val(s@[i + 3])) as u64,
                )
            } else {
                r is None
            }
        }),
{
    let n = s.unicode_len();
    if n < 4 || i > n - 4 {
        return None;
    }
    let c0 = s.get_char(i);
    let c1 = s.get_char(i + 1);
    let c2 = s.get_char(i + 2);
    let c3 = s.get_char(i + 3);
    if !dec_digit_exec(c0) || !dec_digit_exec(c1) || !dec_digit_exec(c2) || !dec_digit_exec(c3) {
        return None;
    }
    Some(digit_val_exec(c0) * 1000 + digit_val_exec(c1) * 100 + digit_val_exec(c2) * 10
        + digit_val_exec(c3))
}

} // verus!
