//! The monthly file codec: a versioned envelope holding a list of
//! transactions, written as a compact JSON text and read back.
//!
//! `enc_file` states the exact text `encode` produces. The `sp_` functions
//! state exactly which texts `decode` accepts and what it reads out of them:
//! they also take the forms the format has carried before the canonical one
//! (escaped text, amounts with zero to two fraction digits and an optional
//! sign, timestamps with a numeric zone offset).

use vstd::prelude::*;

use crate::digits::{
    dec_digit, dec_digit_exec, digit_char, digit_run_end, digit_val, digit_val_exec, digits_value,
    pad2, pad4, parse_digits, parse_pad2, parse_pad4, push_digits, push_pad2, push_pad4,
    spec_digits,
};
use crate::transaction::{
    text_char, text_char_exec, views_of, wf_tx, Date, Transaction, TransactionType, TxView,
    AMOUNT_LIMIT,
};
use crate::Error;

verus! {

/// The envelope version is held in a 64-bit integer; this bound keeps its
/// digits readable without overflow. It is a representation limit only: any
/// version below it is accepted without translation.
pub const VALUE_LIMIT: u64 = 1_000_000_000_000_000_000;

/// Bound on the integer digits of an amount, so that the cents stay below
/// `AMOUNT_LIMIT`.
pub const INT_PART_LIMIT: u64 = 10_000_000_000_000;

/// A versioned envelope: what one monthly file holds.
#[derive(Debug)]
pub struct MonthlyFile {
    pub version: u64,
    pub transactions: Vec<Transaction>,
}

/// The mathematical value of an envelope.
pub ghost struct FileView {
    pub version: u64,
    pub transactions: Seq<TxView>,
}

impl View for MonthlyFile {
    type V = FileView;

    open spec fn view(&self) -> FileView {
        FileView { version: self.version, transactions: views_of(self.transactions@) }
    }
}

// ---------------------------------------------------------------------------
// Character tables for escapes.
// ---------------------------------------------------------------------------
pub open spec fn hex_char(d: int) -> char {
    if d == 0 {
        '0'
    } else if d == 1 {
        '1'
    } else if d == 2 {
        '2'
    } else if d == 3 {
        '3'
    } else if d == 4 {
        '4'
    } else if d == 5 {
        '5'
    } else if d == 6 {
        '6'
    } else if d == 7 {
        '7'
    } else if d == 8 {
        '8'
    } else if d == 9 {
        '9'
    } else if d == 10 {
        'a'
    } else if d == 11 {
        'b'
    } else if d == 12 {
        'c'
    } else if d == 13 {
        'd'
    } else if d == 14 {
        'e'
    } else {
        'f'
    }
}

pub open spec fn hex_digit(c: char) -> bool {
    c == '0' || c == '1' || c == '2' || c == '3' || c == '4' || c == '5' || c == '6' || c == '7' || c == '8' || c == '9' || c == 'a' || c == 'b' || c == 'c' || c == 'd' || c == 'e' || c == 'f'
        || c == 'A' || c == 'B' || c == 'C' || c == 'D' || c == 'E' || c == 'F'
}

pub open spec fn hex_val(c: char) -> int {
    if c == '0' {
        0
    } else if c == '1' {
        1
    } else if c == '2' {
        2
    } else if c == '3' {
        3
    } else if c == '4' {
        4
    } else if c == '5' {
        5
    } else if c == '6' {
        6
    } else if c == '7' {
        7
    } else if c == '8' {
        8
    } else if c == '9' {
        9
    } else if c == 'a' {
        10
    } else if c == 'b' {
        11
    } else if c == 'c' {
        12
    } else if c == 'd' {
        13
    } else if c == 'e' {
        14
    } else if c == 'f' {
        15
    } else if c == 'A' {
        10
    } else if c == 'B' {
        11
    } else if c == 'C' {
        12
    } else if c == 'D' {
        13
    } else if c == 'E' {
        14
    } else {
        15
    }
}

pub open spec fn ctl_char(v: int) -> char {
    if v == 0 {
        '\u{0}'
    } else if v == 1 {
        '\u{1}'
    } else if v == 2 {
        '\u{2}'
    } else if v == 3 {
        '\u{3}'
    } else if v == 4 {
        '\u{4}'
    } else if v == 5 {
        '\u{5}'
    } else if v == 6 {
        '\u{6}'
    } else if v == 7 {
        '\u{7}'
    } else if v == 8 {
        '\u{8}'
    } else if v == 9 {
        '\u{9}'
    } else if v == 10 {
        '\u{a}'
    } else if v == 11 {
        '\u{b}'
    } else if v == 12 {
        '\u{c}'
    } else if v == 13 {
        '\u{d}'
    } else if v == 14 {
        '\u{e}'
    } else if v == 15 {
        '\u{f}'
    } else if v == 16 {
        '\u{10}'
    } else if v == 17 {
        '\u{11}'
    } else if v == 18 {
        '\u{12}'
    } else if v == 19 {
        '\u{13}'
    } else if v == 20 {
        '\u{14}'
    } else if v == 21 {
        '\u{15}'
    } else if v == 22 {
        '\u{16}'
    } else if v == 23 {
        '\u{17}'
    } else if v == 24 {
        '\u{18}'
    } else if v == 25 {
        '\u{19}'
    } else if v == 26 {
        '\u{1a}'
    } else if v == 27 {
        '\u{1b}'
    } else if v == 28 {
        '\u{1c}'
    } else if v == 29 {
        '\u{1d}'
    } else if v == 30 {
        '\u{1e}'
    } else {
        '\u{1f}'
    }
}

// ---------------------------------------------------------------------------
// The encoding, stated as sequences of characters.
// ---------------------------------------------------------------------------
/// How one character of free text is serialized: named escapes for the
/// quote, the backslash and the common control characters, a `\u00XX` escape
/// for the other control characters, and the character itself otherwise.
pub open spec fn esc_char(c: char) -> Seq<char> {
    if c == '"' {
        seq!['\\', '"']
    } else if c == '\\' {
        seq!['\\', '\\']
    } else if c == '\n' {
        seq!['\\', 'n']
    } else if c == '\r' {
        seq!['\\', 'r']
    } else if c == '\t' {
        seq!['\\', 't']
    } else if (c as u32) < 32 {
        seq!['\\', 'u', '0', '0', hex_char(c as u32 as int / 16), hex_char(c as u32 as int % 16)]
    } else {
        seq![c]
    }
}

/// Free text serialized character for character.
pub open spec fn enc_text(s: Seq<char>) -> Seq<char>
    decreases s.len(),
{
    if s.len() == 0 {
        Seq::empty()
    } else {
        esc_char(s[0]) + enc_text(s.drop_first())
    }
}

/// The serialized name of a transaction type, closing quote included.
pub open spec fn enc_type(t: TransactionType) -> Seq<char> {
    match t {
        TransactionType::Expense => "expense\""@,
        TransactionType::Income => "income\""@,
    }
}

/// An amount in cents: an optional sign, integer digits, a point and two
/// fraction digits.
pub open spec fn enc_amount(a: i64) -> Seq<char> {
    let m = if a < 0 {
        -(a as int)
    } else {
        a as int
    };
    (if a < 0 {
        seq!['-']
    } else {
        Seq::<char>::empty()
    }) + spec_digits((m / 100) as nat) + seq!['.'] + pad2(m % 100)
}

/// A zone offset: `Z` for zero, else a sign and `HH:MM`.
pub open spec fn enc_offset(off: int) -> Seq<char> {
    if off == 0 {
        seq!['Z']
    } else {
        let m = if off < 0 {
            -off
        } else {
            off
        };
        (if off < 0 {
            seq!['-']
        } else {
            seq!['+']
        }) + pad2(m / 60) + seq![':'] + pad2(m % 60)
    }
}

/// A timestamp as `YYYY-MM-DDTHH:MM:SS` followed by its zone offset.
pub open spec fn enc_date(d: Date) -> Seq<char> {
    pad4(d.year as int) + seq!['-'] + pad2(d.month as int) + seq!['-'] + pad2(d.day as int)
        + seq!['T'] + pad2(d.hour as int) + seq![':'] + pad2(d.minute as int) + seq![':'] + pad2(
        d.second as int,
    ) + enc_offset(d.offset_minutes as int)
}

/// One transaction as a JSON object.
pub open spec fn enc_tx(t: TxView) -> Seq<char> {
    "{\"amount\":"@ + enc_amount(t.amount_cents) + ",\"description\":\""@ + enc_text(t.description)
        + seq!['"'] + ",\"category\":\""@ + enc_text(t.category) + seq!['"']
        + ",\"transaction_type\":\""@ + enc_type(t.transaction_type) + ",\"date\":\""@ + enc_date(
        t.date,
    ) + "\"}"@
}

/// A list of transactions, comma separated.
pub open spec fn enc_txs(ts: Seq<TxView>) -> Seq<char>
    decreases ts.len(),
{
    if ts.len() == 0 {
        Seq::empty()
    } else if ts.len() == 1 {
        enc_tx(ts[0])
    } else {
        enc_tx(ts[0]) + seq![','] + enc_txs(ts.drop_first())
    }
}

/// A whole envelope.
pub open spec fn enc_file(version: u64, ts: Seq<TxView>) -> Seq<char> {
    "{\"version\":"@ + spec_digits(version as nat) + ",\"transactions\":["@ + enc_txs(ts) + "]}"@
}

// ---------------------------------------------------------------------------
// The texts `decode` accepts, and what it reads out of them.
// ---------------------------------------------------------------------------
/// Accepts `lit` standing at `i`; yields the position after it.
pub open spec fn sp_lit(s: Seq<char>, i: int, lit: Seq<char>) -> Option<int> {
    if 0 <= i && i + lit.len() <= s.len() && s.subrange(i, i + lit.len()) == lit {
        Some(i + lit.len())
    } else {
        None
    }
}

/// Accepts a digit run at `i` whose value stays below `limit`.
pub open spec fn sp_number(s: Seq<char>, i: int, limit: u64) -> Option<(u64, int)> {
    let j = digit_run_end(s, i);
    let v = digits_value(s, i, j);
    if j == i || v >= limit {
        None
    } else {
        Some((v as u64, j))
    }
}

/// Accepts exactly two digits at `i`.
pub open spec fn sp_pad2(s: Seq<char>, i: int) -> Option<u64> {
    if 0 <= i && i + 2 <= s.len() && dec_digit(s[i]) && dec_digit(s[i + 1]) {
        Some((digit_val(s[i]) * 10 + digit_val(s[i + 1])) as u64)
    } else {
        None
    }
}

/// Accepts exactly four digits at `i`.
pub open spec fn sp_pad4(s: Seq<char>, i: int) -> Option<u64> {
    if 0 <= i && i + 4 <= s.len() && dec_digit(s[i]) && dec_digit(s[i + 1]) && dec_digit(s[i + 2])
        && dec_digit(s[i + 3]) {
        Some(
            (digit_val(s[i]) * 1000 + digit_val(s[i + 1]) * 100 + digit_val(s[i + 2]) * 10
                + digit_val(s[i + 3])) as u64,
        )
    } else {
        None
    }
}

/// Accepts an amount's fraction: nothing, or a point with one or two digits;
/// yields its value in cents.
pub open spec fn sp_fraction(s: Seq<char>, j: int) -> Option<(int, int)> {
    if j >= s.len() || s[j] != '.' {
        Some((0, j))
    } else if j + 1 < s.len() && dec_digit(s[j + 1]) {
        if j + 2 < s.len() && dec_digit(s[j + 2]) {
            if j + 3 < s.len() && dec_digit(s[j + 3]) {
                None
            } else {
                Some((digit_val(s[j + 1]) * 10 + digit_val(s[j + 2]), j + 3))
            }
        } else {
            Some((digit_val(s[j + 1]) * 10, j + 2))
        }
    } else {
        None
    }
}

/// Accepts an amount: an optional sign, integer digits and an optional
/// fraction of up to two digits.
pub open spec fn sp_amount(s: Seq<char>, i: int) -> Option<(i64, int)> {
    let neg = 0 <= i < s.len() && s[i] == '-';
    let i0 = if neg {
        i + 1
    } else {
        i
    };
    match sp_number(s, i0, INT_PART_LIMIT) {
        None => None,
        Some((ip, j)) => match sp_fraction(s, j) {
            None => None,
            Some((frac, k)) => {
                let m = ip * 100 + frac;
                Some(
                    ((if neg {
                        -m
                    } else {
                        m as int
                    }) as i64, k),
                )
            },
        },
    }
}

/// Accepts one escape sequence standing at `i` (where `s[i]` is the
/// backslash); yields the character it denotes.
pub open spec fn sp_escape(s: Seq<char>, i: int) -> Option<(char, int)> {
    if i + 2 > s.len() {
        None
    } else {
        let e = s[i + 1];
        if e == '"' {
            Some(('"', i + 2))
        } else if e == '\\' {
            Some(('\\', i + 2))
        } else if e == '/' {
            Some(('/', i + 2))
        } else if e == 'n' {
            Some(('\n', i + 2))
        } else if e == 'r' {
            Some(('\r', i + 2))
        } else if e == 't' {
            Some(('\t', i + 2))
        } else if e == 'b' {
            Some(('\u{8}', i + 2))
        } else if e == 'f' {
            Some(('\u{c}', i + 2))
        } else if e == 'u' {
            if i + 6 <= s.len() && s[i + 2] == '0' && s[i + 3] == '0' && hex_digit(s[i + 4])
                && hex_digit(s[i + 5]) && hex_val(s[i + 4]) * 16 + hex_val(s[i + 5]) < 32 {
                Some((ctl_char(hex_val(s[i + 4]) * 16 + hex_val(s[i + 5])), i + 6))
            } else {
                None
            }
        } else {
            None
        }
    }
}

/// Accepts serialized text closed by a quote, escapes resolved; yields the
/// text and the position after the quote.
pub open spec fn sp_string(s: Seq<char>, i: int) -> Option<(Seq<char>, int)>
    decreases s.len() - i
        when 0 <= i <= s.len()
{
    if i >= s.len() {
        None
    } else if s[i] == '"' {
        Some((Seq::empty(), i + 1))
    } else if s[i] == '\\' {
        match sp_escape(s, i) {
            None => None,
            Some((c, j)) => {
                if j <= i || j > s.len() {
                    None
                } else {
                    match sp_string(s, j) {
                        None => None,
                        Some((rest, k)) => Some((seq![c] + rest, k)),
                    }
                }
            },
        }
    } else if text_char(s[i]) {
        match sp_string(s, i + 1) {
            None => None,
            Some((rest, k)) => Some((seq![s[i]] + rest, k)),
        }
    } else {
        None
    }
}

/// Accepts a serialized transaction type, closing quote included.
pub open spec fn sp_type(s: Seq<char>, i: int) -> Option<(TransactionType, int)> {
    if sp_lit(s, i, "expense\""@) is Some {
        Some((TransactionType::Expense, sp_lit(s, i, "expense\""@).unwrap()))
    } else if sp_lit(s, i, "income\""@) is Some {
        Some((TransactionType::Income, sp_lit(s, i, "income\""@).unwrap()))
    } else {
        None
    }
}

/// Accepts a zone offset: `Z`, or a sign and `HH:MM` inside clock ranges;
/// yields it in minutes east of UTC.
pub open spec fn sp_offset(s: Seq<char>, i: int) -> Option<(int, int)> {
    if 0 <= i < s.len() && s[i] == 'Z' {
        Some((0, i + 1))
    } else if 0 <= i < s.len() && (s[i] == '+' || s[i] == '-') {
        if i + 6 <= s.len() && sp_pad2(s, i + 1) is Some && s[i + 3] == ':' && sp_pad2(s, i + 4)
            is Some && sp_pad2(s, i + 1).unwrap() <= 23 && sp_pad2(s, i + 4).unwrap() <= 59 {
            let m = sp_pad2(s, i + 1).unwrap() * 60 + sp_pad2(s, i + 4).unwrap();
            Some(
                ((if s[i] == '-' {
                    -(m as int)
                } else {
                    m as int
                }), i + 6),
            )
        } else {
            None
        }
    } else {
        None
    }
}

/// Accepts a timestamp: the fixed `YYYY-MM-DDTHH:MM:SS` shape and a zone
/// offset, inside calendar ranges.
pub open spec fn sp_date(s: Seq<char>, i: int) -> Option<(Date, int)> {
    if 0 <= i && i + 19 <= s.len() && sp_pad4(s, i) is Some && s[i + 4] == '-' && sp_pad2(s, i + 5)
        is Some && s[i + 7] == '-' && sp_pad2(s, i + 8) is Some && s[i + 10] == 'T' && sp_pad2(
        s,
        i + 11,
    ) is Some && s[i + 13] == ':' && sp_pad2(s, i + 14) is Some && s[i + 16] == ':' && sp_pad2(
        s,
        i + 17,
    ) is Some {
        match sp_offset(s, i + 19) {
            None => None,
            Some((off, k)) => {
                let d = Date {
                    year: sp_pad4(s, i).unwrap() as i32,
                    month: sp_pad2(s, i + 5).unwrap() as u32,
                    day: sp_pad2(s, i + 8).unwrap() as u32,
                    hour: sp_pad2(s, i + 11).unwrap() as u32,
                    minute: sp_pad2(s, i + 14).unwrap() as u32,
                    second: sp_pad2(s, i + 17).unwrap() as u32,
                    offset_minutes: off as i32,
                };
                if d.wf() {
                    Some((d, k))
                } else {
                    None
                }
            },
        }
    } else {
        None
    }
}

/// Accepts one serialized transaction.
pub open spec fn sp_tx(s: Seq<char>, i: int) -> Option<(TxView, int)> {
    match sp_lit(s, i, "{\"amount\":"@) {
        None => None,
        Some(i1) => match sp_amount(s, i1) {
            None => None,
            Some((amount, i2)) => match sp_lit(s, i2, ",\"description\":\""@) {
                None => None,
                Some(i3) => match sp_string(s, i3) {
                    None => None,
                    Some((desc, i4)) => match sp_lit(s, i4, ",\"category\":\""@) {
                        None => None,
                        Some(i5) => match sp_string(s, i5) {
                            None => None,
                            Some((cat, i6)) => match sp_lit(s, i6, ",\"transaction_type\":\""@) {
                                None => None,
                                Some(i7) => match sp_type(s, i7) {
                                    None => None,
                                    Some((ty, i8)) => match sp_lit(s, i8, ",\"date\":\""@) {
                                        None => None,
                                        Some(i9) => match sp_date(s, i9) {
                                            None => None,
                                            Some((date, i10)) => match sp_lit(s, i10, "\"}"@) {
                                                None => None,
                                                Some(i11) => Some(
                                                    (
                                                        TxView {
                                                            amount_cents: amount,
                                                            description: desc,
                                                            category: cat,
                                                            transaction_type: ty,
                                                            date,
                                                        },
                                                        i11,
                                                    ),
                                                ),
                                            },
                                        },
                                    },
                                },
                            },
                        },
                    },
                },
            },
        },
    }
}

/// Accepts the transactions of an envelope up to and including the closing
/// bracket.
pub open spec fn sp_txs(s: Seq<char>, i: int) -> Option<(Seq<TxView>, int)>
    decreases s.len() - i
        when 0 <= i <= s.len()
{
    if i < s.len() && s[i] == ']' {
        Some((Seq::empty(), i + 1))
    } else {
        match sp_tx(s, i) {
            None => None,
            Some((t, j)) => {
                if j <= i || j > s.len() {
                    None
                } else if j < s.len() && s[j] == ',' {
                    match sp_txs(s, j + 1) {
                        None => None,
                        Some((ts, k)) => Some((seq![t] + ts, k)),
                    }
                } else if j < s.len() && s[j] == ']' {
                    Some((seq![t], j + 1))
                } else {
                    None
                }
            },
        }
    }
}

/// Accepts a whole envelope, and nothing after it.
pub open spec fn sp_file(s: Seq<char>) -> Option<FileView> {
    match sp_lit(s, 0, "{\"version\":"@) {
        None => None,
        Some(i1) => match sp_number(s, i1, VALUE_LIMIT) {
            None => None,
            Some((version, i2)) => match sp_lit(s, i2, ",\"transactions\":["@) {
                None => None,
                Some(i3) => match sp_txs(s, i3) {
                    None => None,
                    Some((ts, i4)) => {
                        if i4 + 1 == s.len() && s[i4] == '}' {
                            Some(FileView { version, transactions: ts })
                        } else {
                            None
                        }
                    },
                },
            },
        },
    }
}

// ---------------------------------------------------------------------------
// The executable encoder.
// ---------------------------------------------------------------------------
/// Relies on `String::push`: it appends exactly the given character.
#[verifier::external_body]
fn push_char(s: &mut String, c: char)
    ensures
        final(s)@ == old(s)@ + seq![c],
{
    s.push(c);
}

/// The lower-case hexadecimal digit for a value below 16.
fn hex_char_exec(d: u32) -> (c: char)
    requires
        d < 16,
    ensures
        c == hex_char(d as int),
{
    match d {
        0 => '0',
        1 => '1',
        2 => '2',
        3 => '3',
        4 => '4',
        5 => '5',
        6 => '6',
        7 => '7',
        8 => '8',
        9 => '9',
        10 => 'a',
        11 => 'b',
        12 => 'c',
        13 => 'd',
        14 => 'e',
        _ => 'f',
    }
}

/// Whether `c` is a hexadecimal digit.
fn hex_digit_exec(c: char) -> (r: bool)
    ensures
        r == hex_digit(c),
{
    hex_val_inner(c).0
}

/// The value of a hexadecimal digit.
fn hex_val_exec(c: char) -> (r: u32)
    requires
        hex_digit(c),
    ensures
        r == hex_val(c),
{
    hex_val_inner(c).1
}

/// Whether `c` is a hexadecimal digit, and its value.
fn hex_val_inner(c: char) -> (r: (bool, u32))
    ensures
        r.0 == hex_digit(c),
        hex_digit(c) ==> r.1 == hex_val(c),
{
    if c == '0' {
        (true, 0)
    } else if c == '1' {
        (true, 1)
    } else if c == '2' {
        (true, 2)
    } else if c == '3' {
        (true, 3)
    } else if c == '4' {
        (true, 4)
    } else if c == '5' {
        (true, 5)
    } else if c == '6' {
        (true, 6)
    } else if c == '7' {
        (true, 7)
    } else if c == '8' {
        (true, 8)
    } else if c == '9' {
        (true, 9)
    } else if c == 'a' {
        (true, 10)
    } else if c == 'b' {
        (true, 11)
    } else if c == 'c' {
        (true, 12)
    } else if c == 'd' {
        (true, 13)
    } else if c == 'e' {
        (true, 14)
    } else if c == 'f' {
        (true, 15)
    } else if c == 'A' {
        (true, 10)
    } else if c == 'B' {
        (true, 11)
    } else if c == 'C' {
        (true, 12)
    } else if c == 'D' {
        (true, 13)
    } else if c == 'E' {
        (true, 14)
    } else if c == 'F' {
        (true, 15)
    } else {
        (false, 0)
    }
}

/// The control character with the given scalar value.
fn ctl_char_exec(v: u32) -> (c: char)
    requires
        v < 32,
    ensures
        c == ctl_char(v as int),
{
    match v {
        0 => '\u{0}',
        1 => '\u{1}',
        2 => '\u{2}',
        3 => '\u{3}',
        4 => '\u{4}',
        5 => '\u{5}',
        6 => '\u{6}',
        7 => '\u{7}',
        8 => '\u{8}',
        9 => '\u{9}',
        10 => '\u{a}',
        11 => '\u{b}',
        12 => '\u{c}',
        13 => '\u{d}',
        14 => '\u{e}',
        15 => '\u{f}',
        16 => '\u{10}',
        17 => '\u{11}',
        18 => '\u{12}',
        19 => '\u{13}',
        20 => '\u{14}',
        21 => '\u{15}',
        22 => '\u{16}',
        23 => '\u{17}',
        24 => '\u{18}',
        25 => '\u{19}',
        26 => '\u{1a}',
        27 => '\u{1b}',
        28 => '\u{1c}',
        29 => '\u{1d}',
        30 => '\u{1e}',
        _ => '\u{1f}',
    }
}

/// Serializing one more character extends the serialized text by its escape.
proof fn lemma_enc_text_snoc(d: Seq<char>, c: char)
    ensures
        enc_text(d.push(c)) == enc_text(d) + esc_char(c),
    decreases d.len(),
{
    if d.len() == 0 {
        assert(d.push(c)[0] == c);
        assert(d.push(c).drop_first() =~= Seq::<char>::empty());
        assert(enc_text(d) =~= Seq::<char>::empty());
        assert(enc_text(d.push(c).drop_first()) =~= Seq::<char>::empty());
        assert(enc_text(d.push(c)) == esc_char(c) + enc_text(d.push(c).drop_first()));
        assert(enc_text(d.push(c)) =~= enc_text(d) + esc_char(c));
    } else {
        lemma_enc_text_snoc(d.drop_first(), c);
        assert(d.push(c)[0] == d[0]);
        assert(d.push(c).drop_first() =~= d.drop_first().push(c));
        assert(esc_char(d[0]) + (enc_text(d.drop_first()) + esc_char(c)) =~= (esc_char(d[0])
            + enc_text(d.drop_first())) + esc_char(c));
    }
}

/// Appends free text with every character that needs it escaped.
fn push_text(s: &mut String, t: &str)
    ensures
        final(s)@ == old(s)@ + enc_text(t@),
{
    let n = t.unicode_len();
    let mut i: usize = 0;
    while i < n
        invariant
            i <= n == t@.len(),
            s@ == old(s)@ + enc_text(t@.take(i as int)),
        decreases n - i,
    {
        let c = t.get_char(i);
        proof {
            assert(t@.take(i + 1) =~= t@.take(i as int).push(c));
            lemma_enc_text_snoc(t@.take(i as int), c);
        }
        if text_char_exec(c) {
            push_char(s, c);
            proof {
                assert(esc_char(c) =~= seq![c]);
                assert(s@ =~= old(s)@ + enc_text(t@.take(i + 1)));
            }
        } else if c == '"' {
            push_char(s, '\\');
            push_char(s, '"');
            proof {
                assert(s@ =~= old(s)@ + enc_text(t@.take(i + 1)));
            }
        } else if c == '\\' {
            push_char(s, '\\');
            push_char(s, '\\');
            proof {
                assert(s@ =~= old(s)@ + enc_text(t@.take(i + 1)));
            }
        } else if c == '\n' {
            push_char(s, '\\');
            push_char(s, 'n');
            proof {
                assert(s@ =~= old(s)@ + enc_text(t@.take(i + 1)));
            }
        } else if c == '\r' {
            push_char(s, '\\');
            push_char(s, 'r');
            proof {
                assert(s@ =~= old(s)@ + enc_text(t@.take(i + 1)));
            }
        } else if c == '\t' {
            push_char(s, '\\');
            push_char(s, 't');
            proof {
                assert(s@ =~= old(s)@ + enc_text(t@.take(i + 1)));
            }
        } else {
            let v = c as u32;
            push_char(s, '\\');
            push_char(s, 'u');
            push_char(s, '0');
            push_char(s, '0');
            push_char(s, hex_char_exec(v / 16));
            push_char(s, hex_char_exec(v % 16));
            proof {
                assert(s@ =~= old(s)@ + enc_text(t@.take(i + 1)));
            }
        }
        i = i + 1;
    }
    proof {
        assert(t@.take(n as int) =~= t@);
    }
}

/// Appends the serialized transaction type, closing quote included.
fn push_type(s: &mut String, t: TransactionType)
    ensures
        final(s)@ == old(s)@ + enc_type(t),
{
    match t {
        TransactionType::Expense => s.append("expense\""),
        TransactionType::Income => s.append("income\""),
    }
}

/// Appends an amount in cents: an optional sign, digits, a point and two
/// fraction digits.
fn push_amount(s: &mut String, a: i64)
    requires
        -AMOUNT_LIMIT < a < AMOUNT_LIMIT,
    ensures
        final(s)@ == old(s)@ + enc_amount(a),
{
    let mag: u64 = if a < 0 {
        push_char(s, '-');
        (-a) as u64
    } else {
        a as u64
    };
    push_digits(s, mag / 100);
    push_char(s, '.');
    push_pad2(s, mag % 100);
    proof {
        assert(s@ =~= old(s)@ + enc_amount(a));
    }
}

/// Appends a zone offset: `Z` for zero, else a sign and `HH:MM`.
fn push_offset(s: &mut String, off: i32)
    requires
        -1440 < off < 1440,
    ensures
        final(s)@ == old(s)@ + enc_offset(off as int),
{
    if off == 0 {
        push_char(s, 'Z');
        proof {
            assert(s@ =~= old(s)@ + enc_offset(off as int));
        }
    } else {
        let m: u32 = if off < 0 {
            push_char(s, '-');
            (-off) as u32
        } else {
            push_char(s, '+');
            off as u32
        };
        push_pad2(s, (m / 60) as u64);
        push_char(s, ':');
        push_pad2(s, (m % 60) as u64);
        proof {
            assert(s@ =~= old(s)@ + enc_offset(off as int));
        }
    }
}

/// Appends a timestamp as `enc_date` states it.
fn push_date(s: &mut String, d: Date)
    requires
        d.wf(),
    ensures
        final(s)@ == old(s)@ + enc_date(d),
{
    push_pad4(s, d.year as u64);
    push_char(s, '-');
    push_pad2(s, d.month as u64);
    push_char(s, '-');
    push_pad2(s, d.day as u64);
    push_char(s, 'T');
    push_pad2(s, d.hour as u64);
    push_char(s, ':');
    push_pad2(s, d.minute as u64);
    push_char(s, ':');
    push_pad2(s, d.second as u64);
    push_offset(s, d.offset_minutes);
    proof {
        assert(s@ =~= old(s)@ + enc_date(d));
    }
}

/// Appends one transaction as a JSON object.
fn push_tx(s: &mut String, t: &Transaction)
    requires
        wf_tx(t@),
    ensures
        final(s)@ == old(s)@ + enc_tx(t@),
{
    s.append("{\"amount\":");
    push_amount(s, t.amount_cents);
    s.append(",\"description\":\"");
    push_text(s, t.description.as_str());
    push_char(s, '"');
    s.append(",\"category\":\"");
    push_text(s, t.category.as_str());
    push_char(s, '"');
    s.append(",\"transaction_type\":\"");
    push_type(s, t.transaction_type);
    s.append(",\"date\":\"");
    push_date(s, t.date);
    s.append("\"}");
    proof {
        assert(s@ =~= old(s)@ + enc_tx(t@));
    }
}

proof fn lemma_enc_txs_snoc(ts: Seq<TxView>, t: TxView)
    ensures
        ts.len() == 0 ==> enc_txs(ts.push(t)) == enc_tx(t),
        ts.len() > 0 ==> enc_txs(ts.push(t)) == enc_txs(ts) + seq![','] + enc_tx(t),
    decreases ts.len(),
{
    if ts.len() == 0 {
        assert(ts.push(t)[0] == t);
        assert(enc_txs(ts.push(t)) == enc_tx(t));
    } else {
        lemma_enc_txs_snoc(ts.drop_first(), t);
        assert(ts.push(t).drop_first() =~= ts.drop_first().push(t));
        assert(ts.push(t)[0] == ts[0]);
        if ts.len() == 1 {
            assert(enc_txs(ts.push(t)) == enc_tx(ts[0]) + seq![','] + enc_txs(
                ts.drop_first().push(t),
            ));
            assert(enc_txs(ts) == enc_tx(ts[0]));
        } else {
            assert(enc_txs(ts) == enc_tx(ts[0]) + seq![','] + enc_txs(ts.drop_first()));
            assert((enc_tx(ts[0]) + seq![','] + (enc_txs(ts.drop_first()) + seq![','] + enc_tx(t)))
                =~= (enc_tx(ts[0]) + seq![','] + enc_txs(ts.drop_first())) + seq![','] + enc_tx(
                t,
            ));
        }
    }
}

/// Serializes an envelope with the given version around the given records.
pub fn encode(version: u64, transactions: &Vec<Transaction>) -> (r: String)
    requires
        forall|k: int| 0 <= k < transactions@.len() ==> wf_tx((#[trigger] transactions@[k])@),
    ensures
        r@ == enc_file(version, views_of(transactions@)),
{
    let mut s = String::new();
    s.append("{\"version\":");
    push_digits(&mut s, version);
    s.append(",\"transactions\":[");
    let ghost head = s@;
    let mut k: usize = 0;
    while k < transactions.len()
        invariant
            k <= transactions@.len(),
            forall|m: int| 0 <= m < transactions@.len() ==> wf_tx((#[trigger] transactions@[m])@),
            head == "{\"version\":"@ + spec_digits(version as nat) + ",\"transactions\":["@,
            s@ == head + enc_txs(views_of(transactions@).take(k as int)),
        decreases transactions@.len() - k,
    {
        if k > 0 {
            s.append(",");
        }
        push_tx(&mut s, &transactions[k]);
        proof {
            reveal_strlit(",");
            let vs = views_of(transactions@);
            assert(vs.take(k + 1) =~= vs.take(k as int).push(vs[k as int]));
            lemma_enc_txs_snoc(vs.take(k as int), vs[k as int]);
            assert(vs[k as int] == transactions@[k as int]@);
            if k == 0 {
                assert(s@ =~= head + enc_txs(vs.take(k + 1)));
            } else {
                assert(s@ =~= head + enc_txs(vs.take(k + 1)));
            }
        }
        k = k + 1;
    }
    s.append("]}");
    proof {
        assert(views_of(transactions@).take(transactions@.len() as int) =~= views_of(
            transactions@,
        ));
        assert(s@ =~= enc_file(version, views_of(transactions@)));
    }
    s
}

// ---------------------------------------------------------------------------
// The executable decoder.
// ---------------------------------------------------------------------------
/// Accepts `lit` standing at `i`, as `sp_lit` states.
pub(crate) fn expect_lit(s: &str, i: usize, lit: &str) -> (r: Option<usize>)
    requires
        i <= s@.len(),
    ensures
        ({
            match r {
                Some(j) => sp_lit(s@, i as int, lit@) == Some(j as int) && i <= j <= s@.len(),
                None => sp_lit(s@, i as int, lit@) is None,
            }
        }),
{
    let ll = lit.unicode_len();
    let n = s.unicode_len();
    if ll > n || i > n - ll {
        return None;
    }
    let mut k: usize = 0;
    while k < ll
        invariant
            k <= ll == lit@.len(),
            i + ll <= n == s@.len(),
            forall|m: int| 0 <= m < k ==> s@[i + m] == lit@[m],
        decreases ll - k,
    {
        if s.get_char(i + k) != lit.get_char(k) {
            proof {
                if s@.subrange(i as int, i + ll) == lit@ {
                    assert(s@.subrange(i as int, i + ll)[k as int] == s@[i + k]);
                }
            }
            return None;
        }
        k = k + 1;
    }
    proof {
        assert(s@.subrange(i as int, i + ll) =~= lit@);
    }
    Some(i + ll)
}

/// Reads serialized text closed by a quote, as `sp_string` states.
fn parse_string(s: &str, i: usize) -> (r: Option<(String, usize)>)
    requires
        i <= s@.len(),
    ensures
        ({
            let o = sp_string(s@, i as int);
            match r {
                Some(p) => o == Some((p.0@, p.1 as int)) && i <= p.1 <= s@.len(),
                None => o is None,
            }
        }),
{
    let n = s.unicode_len();
    let mut acc = String::new();
    let mut cur = i;
    loop
        invariant
            i <= cur <= n == s@.len(),
            ({
                let o = sp_string(s@, cur as int);
                let oi = sp_string(s@, i as int);
                match o {
                    Some(p) => oi == Some((acc@ + p.0, p.1)),
                    None => oi is None,
                }
            }),
        decreases n - cur,
    {
        if cur >= n {
            return None;
        }
        let c = s.get_char(cur);
        if c == '"' {
            proof {
                assert(acc@ + Seq::<char>::empty() =~= acc@);
            }
            return Some((acc, cur + 1));
        }
        if c == '\\' {
            if cur + 1 >= n {
                return None;
            }
            let e = s.get_char(cur + 1);
            let (pc, nx): (char, usize) = if e == '"' {
                ('"', cur + 2)
            } else if e == '\\' {
                ('\\', cur + 2)
            } else if e == '/' {
                ('/', cur + 2)
            } else if e == 'n' {
                ('\n', cur + 2)
            } else if e == 'r' {
                ('\r', cur + 2)
            } else if e == 't' {
                ('\t', cur + 2)
            } else if e == 'b' {
                ('\u{8}', cur + 2)
            } else if e == 'f' {
                ('\u{c}', cur + 2)
            } else if e == 'u' {
                if n - cur < 6 {
                    return None;
                }
                if s.get_char(cur + 2) != '0' || s.get_char(cur + 3) != '0' {
                    return None;
                }
                let h1 = s.get_char(cur + 4);
                let h2 = s.get_char(cur + 5);
                if !hex_digit_exec(h1) || !hex_digit_exec(h2) {
                    return None;
                }
                let v = hex_val_exec(h1) * 16 + hex_val_exec(h2);
                if v >= 32 {
                    return None;
                }
                (ctl_char_exec(v), cur + 6)
            } else {
                return None;
            };
            proof {
                assert(sp_escape(s@, cur as int) == Some((pc, nx as int)));
            }
            let ghost prev = acc@;
            push_char(&mut acc, pc);
            proof {
                if sp_string(s@, nx as int) is Some {
                    let p = sp_string(s@, nx as int).unwrap();
                    assert(acc@ + p.0 =~= prev + (seq![pc] + p.0));
                }
            }
            cur = nx;
        } else if text_char_exec(c) {
            let ghost prev = acc@;
            push_char(&mut acc, c);
            proof {
                if sp_string(s@, cur + 1) is Some {
                    let p = sp_string(s@, cur + 1).unwrap();
                    assert(acc@ + p.0 =~= prev + (seq![c] + p.0));
                }
            }
            cur = cur + 1;
        } else {
            return None;
        }
    }
}

/// Reads a serialized transaction type, as `sp_type` states.
fn parse_type(s: &str, i: usize) -> (r: Option<(TransactionType, usize)>)
    requires
        i <= s@.len(),
    ensures
        ({
            let o = sp_type(s@, i as int);
            match r {
                Some(p) => o == Some((p.0, p.1 as int)) && i <= p.1 <= s@.len(),
                None => o is None,
            }
        }),
{
    if let Some(j) = expect_lit(s, i, "expense\"") {
        return Some((TransactionType::Expense, j));
    }
    if let Some(j) = expect_lit(s, i, "income\"") {
        return Some((TransactionType::Income, j));
    }
    None
}

/// Reads a zone offset, as `sp_offset` states.
fn parse_offset(s: &str, i: usize) -> (r: Option<(i32, usize)>)
    requires
        i <= s@.len(),
    ensures
        ({
            let o = sp_offset(s@, i as int);
            match r {
                Some(p) => o == Some((p.0 as int, p.1 as int)) && i <= p.1 <= s@.len(),
                None => o is None,
            }
        }),
{
    let n = s.unicode_len();
    if i >= n {
        return None;
    }
    let c = s.get_char(i);
    if c == 'Z' {
        return Some((0, i + 1));
    }
    if c != '+' && c != '-' {
        return None;
    }
    if n - i < 6 {
        return None;
    }
    let h = match parse_pad2(s, i + 1) {
        Some(v) => v,
        None => {
            return None;
        },
    };
    if s.get_char(i + 3) != ':' {
        return None;
    }
    let m = match parse_pad2(s, i + 4) {
        Some(v) => v,
        None => {
            return None;
        },
    };
    if h > 23 || m > 59 {
        return None;
    }
    let total = (h * 60 + m) as i32;
    Some((if c == '-' { -total } else { total }, i + 6))
}

/// Reads a timestamp, as `sp_date` states.
fn parse_date(s: &str, i: usize) -> (r: Option<(Date, usize)>)
    requires
        i <= s@.len(),
    ensures
        ({
            let o = sp_date(s@, i as int);
            match r {
                Some(p) => o == Some((p.0, p.1 as int)) && i <= p.1 <= s@.len(),
                None => o is None,
            }
        }),
{
    let n = s.unicode_len();
    if n < 19 || i > n - 19 {
        return None;
    }
    let y = match parse_pad4(s, i) {
        Some(v) => v,
        None => {
            return None;
        },
    };
    if s.get_char(i + 4) != '-' {
        return None;
    }
    let mo = match parse_pad2(s, i + 5) {
        Some(v) => v,
        None => {
            return None;
        },
    };
    if s.get_char(i + 7) != '-' {
        return None;
    }
    let d = match parse_pad2(s, i + 8) {
        Some(v) => v,
        None => {
            return None;
        },
    };
    if s.get_char(i + 10) != 'T' {
        return None;
    }
    let h = match parse_pad2(s, i + 11) {
        Some(v) => v,
        None => {
            return None;
        },
    };
    if s.get_char(i + 13) != ':' {
        return None;
    }
    let mi = match parse_pad2(s, i + 14) {
        Some(v) => v,
        None => {
            return None;
        },
    };
    if s.get_char(i + 16) != ':' {
        return None;
    }
    let se = match parse_pad2(s, i + 17) {
        Some(v) => v,
        None => {
            return None;
        },
    };
    let (off, k) = match parse_offset(s, i + 19) {
        Some(p) => p,
        None => {
            return None;
        },
    };
    let date = Date {
        year: y as i32,
        month: mo as u32,
        day: d as u32,
        hour: h as u32,
        minute: mi as u32,
        second: se as u32,
        offset_minutes: off,
    };
    if date.is_wf() {
        Some((date, k))
    } else {
        None
    }
}

/// Reads an amount in cents, as `sp_amount` states.
fn parse_amount(s: &str, i: usize) -> (r: Option<(i64, usize)>)
    requires
        i <= s@.len(),
    ensures
        ({
            let o = sp_amount(s@, i as int);
            match r {
                Some(p) => o == Some((p.0, p.1 as int)) && i <= p.1 <= s@.len(),
                None => o is None,
            }
        }),
{
    let n = s.unicode_len();
    let neg = i < n && s.get_char(i) == '-';
    let i0 = if neg {
        i + 1
    } else {
        i
    };
    proof {
        crate::digits::lemma_digit_run_end(s@, i0 as int);
        crate::digits::lemma_digits_value_nonneg(s@, i0 as int, digit_run_end(s@, i0 as int));
    }
    let (ip, j) = match parse_digits(s, i0, INT_PART_LIMIT) {
        Some(p) => p,
        None => {
            return None;
        },
    };
    let (frac, k): (u64, usize) = if j >= n || s.get_char(j) != '.' {
        (0, j)
    } else if n - j > 1 && dec_digit_exec(s.get_char(j + 1)) {
        if n - j > 2 && dec_digit_exec(s.get_char(j + 2)) {
            if n - j > 3 && dec_digit_exec(s.get_char(j + 3)) {
                return None;
            }
            (digit_val_exec(s.get_char(j + 1)) * 10 + digit_val_exec(s.get_char(j + 2)), j + 3)
        } else {
            (digit_val_exec(s.get_char(j + 1)) * 10, j + 2)
        }
    } else {
        return None;
    };
    let m = ip * 100 + frac;
    let v: i64 = if neg {
        -(m as i64)
    } else {
        m as i64
    };
    Some((v, k))
}

/// Reads one serialized transaction, as `sp_tx` states.
fn parse_tx(s: &str, i: usize) -> (r: Option<(Transaction, usize)>)
    requires
        i <= s@.len(),
    ensures
        ({
            let o = sp_tx(s@, i as int);
            match r {
                Some(p) => o == Some((p.0@, p.1 as int)) && i <= p.1 <= s@.len(),
                None => o is None,
            }
        }),
{
    let i1 = match expect_lit(s, i, "{\"amount\":") {
        Some(j) => j,
        None => {
            return None;
        },
    };
    let (amount, i2) = match parse_amount(s, i1) {
        Some(p) => p,
        None => {
            return None;
        },
    };
    let i3 = match expect_lit(s, i2, ",\"description\":\"") {
        Some(j) => j,
        None => {
            return None;
        },
    };
    let (description, i4) = match parse_string(s, i3) {
        Some(p) => p,
        None => {
            return None;
        },
    };
    let i5 = match expect_lit(s, i4, ",\"category\":\"") {
        Some(j) => j,
        None => {
            return None;
        },
    };
    let (category, i6) = match parse_string(s, i5) {
        Some(p) => p,
        None => {
            return None;
        },
    };
    let i7 = match expect_lit(s, i6, ",\"transaction_type\":\"") {
        Some(j) => j,
        None => {
            return None;
        },
    };
    let (transaction_type, i8) = match parse_type(s, i7) {
        Some(p) => p,
        None => {
            return None;
        },
    };
    let i9 = match expect_lit(s, i8, ",\"date\":\"") {
        Some(j) => j,
        None => {
            return None;
        },
    };
    let (date, i10) = match parse_date(s, i9) {
        Some(p) => p,
        None => {
            return None;
        },
    };
    let i11 = match expect_lit(s, i10, "\"}") {
        Some(j) => j,
        None => {
            return None;
        },
    };
    Some((Transaction { amount_cents: amount, description, category, transaction_type, date }, i11))
}

/// Reads the transactions of an envelope, as `sp_txs` states.
fn parse_txs(s: &str, i: usize) -> (r: Option<(Vec<Transaction>, usize)>)
    requires
        i <= s@.len(),
    ensures
        ({
            let o = sp_txs(s@, i as int);
            match r {
                Some(p) => o == Some((views_of(p.0@), p.1 as int)) && i <= p.1 <= s@.len(),
                None => o is None,
            }
        }),
    decreases s@.len() - i,
{
    let n = s.unicode_len();
    if i < n && s.get_char(i) == ']' {
        let empty: Vec<Transaction> = Vec::new();
        proof {
            assert(views_of(empty@) =~= Seq::<TxView>::empty());
        }
        return Some((empty, i + 1));
    }
    let (t, j) = match parse_tx(s, i) {
        Some(p) => p,
        None => {
            return None;
        },
    };
    if j <= i || j > n {
        return None;
    }
    if j < n && s.get_char(j) == ',' {
        match parse_txs(s, j + 1) {
            Some((mut ts, k)) => {
                ts.insert(0, t);
                proof {
                    let o = sp_txs(s@, j + 1 as int).unwrap();
                    assert(views_of(ts@) =~= seq![t@] + o.0);
                }
                Some((ts, k))
            },
            None => None,
        }
    } else if j < n && s.get_char(j) == ']' {
        let mut one: Vec<Transaction> = Vec::new();
        one.push(t);
        proof {
            assert(views_of(one@) =~= seq![t@]);
        }
        Some((one, j + 1))
    } else {
        None
    }
}

/// Reads a whole envelope. Yields `CorruptData` for any text outside the
/// format the `sp_` functions state.
pub fn decode(s: &str) -> (r: Result<MonthlyFile, Error>)
    ensures
        ({
            match r {
                Ok(f) => sp_file(s@) == Some(f@),
                Err(e) => sp_file(s@) is None && e == Error::CorruptData,
            }
        }),
{
    let n = s.unicode_len();
    let i1 = match expect_lit(s, 0, "{\"version\":") {
        Some(j) => j,
        None => {
            return Err(Error::CorruptData);
        },
    };
    proof {
        crate::digits::lemma_digit_run_end(s@, i1 as int);
    }
    let (version, i2) = match parse_digits(s, i1, VALUE_LIMIT) {
        Some(p) => p,
        None => {
            return Err(Error::CorruptData);
        },
    };
    let i3 = match expect_lit(s, i2, ",\"transactions\":[") {
        Some(j) => j,
        None => {
            return Err(Error::CorruptData);
        },
    };
    let (transactions, i4) = match parse_txs(s, i3) {
        Some(p) => p,
        None => {
            return Err(Error::CorruptData);
        },
    };
    if n - i4 == 1 && s.get_char(i4) == '}' {
        Ok(MonthlyFile { version, transactions })
    } else {
        Err(Error::CorruptData)
    }
}

// ---------------------------------------------------------------------------
// Round trip: whatever `enc_file` writes, the `sp_` functions read back.
// ---------------------------------------------------------------------------
/// `frag` stands character for character at position `i` of `s`.
pub open spec fn matches_at(s: Seq<char>, i: int, frag: Seq<char>) -> bool {
    0 <= i && i + frag.len() <= s.len() && forall|k: int|
        0 <= k < frag.len() ==> s[i + k] == #[trigger] frag[k]
}

pub(crate) proof fn lemma_matches_split(s: Seq<char>, i: int, a: Seq<char>, b: Seq<char>)
    requires
        matches_at(s, i, a + b),
    ensures
        matches_at(s, i, a),
        matches_at(s, i + a.len(), b),
{
    assert forall|k: int| 0 <= k < a.len() implies s[i + k] == #[trigger] a[k] by {
        assert((a + b)[k] == a[k]);
        assert(s[i + k] == (a + b)[k]);
    }
    assert forall|k: int| 0 <= k < b.len() implies s[i + a.len() + k] == #[trigger] b[k] by {
        assert((a + b)[a.len() + k] == b[k]);
        assert(s[i + (a.len() + k)] == (a + b)[a.len() + k]);
    }
}

pub(crate) proof fn lemma_sp_lit_at(s: Seq<char>, i: int, lit: Seq<char>)
    requires
        matches_at(s, i, lit),
    ensures
        sp_lit(s, i, lit) == Some(i + lit.len() as int),
{
    assert(s.subrange(i, i + lit.len()) =~= lit);
}

proof fn lemma_sp_number_at(s: Seq<char>, i: int, n: u64, limit: u64)
    requires
        matches_at(s, i, spec_digits(n as nat)),
        n < limit,
        i + spec_digits(n as nat).len() == s.len() || !dec_digit(
            s[i + spec_digits(n as nat).len()],
        ),
    ensures
        sp_number(s, i, limit) == Some((n, i + spec_digits(n as nat).len() as int)),
{
    crate::digits::lemma_parse_digits_at(s, i, n as nat);
    crate::digits::lemma_spec_digits_are_digits(n as nat);
}

proof fn lemma_sp_pad2_at(s: Seq<char>, i: int, v: u64)
    requires
        matches_at(s, i, pad2(v as int)),
        v < 100,
    ensures
        sp_pad2(s, i) == Some(v),
{
    assert(s[i + 0] == pad2(v as int)[0]);
    assert(s[i + 1] == pad2(v as int)[1]);
}

#[verifier::rlimit(50)]
proof fn lemma_sp_pad4_at(s: Seq<char>, i: int, v: u64)
    requires
        matches_at(s, i, pad4(v as int)),
        v < 10000,
    ensures
        sp_pad4(s, i) == Some(v),
{
    assert(s[i + 0] == pad4(v as int)[0]);
    assert(s[i + 1] == pad4(v as int)[1]);
    assert(s[i + 2] == pad4(v as int)[2]);
    assert(s[i + 3] == pad4(v as int)[3]);
    let a = v as int / 1000;
    let b = (v as int / 100) % 10;
    let c = (v as int / 10) % 10;
    let d = v as int % 10;
    assert(digit_val(digit_char(a)) == a);
    assert(digit_val(digit_char(b)) == b);
    assert(digit_val(digit_char(c)) == c);
    assert(digit_val(digit_char(d)) == d);
    assert(a * 1000 + b * 100 + c * 10 + d == v);
}

proof fn lemma_sp_amount_at(s: Seq<char>, i: int, a: i64)
    requires
        matches_at(s, i, enc_amount(a)),
        -AMOUNT_LIMIT < a < AMOUNT_LIMIT,
        i + enc_amount(a).len() == s.len() || !dec_digit(s[i + enc_amount(a).len()]),
    ensures
        sp_amount(s, i) == Some((a, i + enc_amount(a).len() as int)),
{
    let m = if a < 0 {
        -(a as int)
    } else {
        a as int
    };
    let sign = if a < 0 {
        seq!['-']
    } else {
        Seq::<char>::empty()
    };
    let dig = spec_digits((m / 100) as nat);
    let frac = pad2(m % 100);
    assert(enc_amount(a) == ((sign + dig) + seq!['.']) + frac);
    lemma_matches_split(s, i, (sign + dig) + seq!['.'], frac);
    lemma_matches_split(s, i, sign + dig, seq!['.']);
    lemma_matches_split(s, i, sign, dig);
    let i0 = i + sign.len();
    let j = i0 + dig.len();
    assert(s[j + 0] == seq!['.'][0]);
    assert(s[j] == '.');
    crate::digits::lemma_spec_digits_are_digits((m / 100) as nat);
    if a < 0 {
        assert(s[i + 0] == sign[0]);
        assert(s[i] == '-');
    } else {
        assert(s[i0 + 0] == dig[0]);
        assert(dec_digit(s[i]));
        assert(s[i] != '-');
    }
    lemma_sp_number_at(s, i0, (m / 100) as u64, INT_PART_LIMIT);
    assert(s[j + 1 + 0] == frac[0]);
    assert(s[j + 1 + 1] == frac[1]);
    assert(digit_val(frac[0]) == (m % 100) / 10);
    assert(digit_val(frac[1]) == (m % 100) % 10);
    assert(sp_fraction(s, j) == Some((m % 100, j + 3)));
    assert((m / 100) * 100 + m % 100 == m);
}

/// The escape written for a character that cannot stand plain reads back as
/// that character.
proof fn lemma_esc_char_parses(s: Seq<char>, i: int, c: char)
    requires
        matches_at(s, i, esc_char(c)),
        !text_char(c),
    ensures
        s[i] == '\\',
        sp_escape(s, i) == Some((c, i + esc_char(c).len() as int)),
{
    assert(s[i + 0] == esc_char(c)[0]);
    assert(s[i + 1] == esc_char(c)[1]);
    if c == '"' || c == '\\' || c == '\n' || c == '\r' || c == '\t' {
    } else {
        let v = c as u32 as int;
        assert(v < 32);
        assert(s[i + 2] == esc_char(c)[2]);
        assert(s[i + 3] == esc_char(c)[3]);
        assert(s[i + 4] == esc_char(c)[4]);
        assert(s[i + 5] == esc_char(c)[5]);
        assert(hex_digit(hex_char(v / 16)));
        assert(hex_digit(hex_char(v % 16)));
        assert(hex_val(hex_char(v / 16)) == v / 16);
        assert(hex_val(hex_char(v % 16)) == v % 16);
        assert((v / 16) * 16 + v % 16 == v);
        assert(ctl_char(v) as u32 == v);
        assert(ctl_char(v) == c);
    }
}

/// Serialized text followed by a quote reads back as the text itself.
proof fn lemma_sp_string_at(s: Seq<char>, i: int, d: Seq<char>)
    requires
        matches_at(s, i, enc_text(d)),
        i + enc_text(d).len() < s.len(),
        s[i + enc_text(d).len()] == '"',
    ensures
        sp_string(s, i) == Some((d, i + enc_text(d).len() + 1)),
    decreases d.len(),
{
    if d.len() == 0 {
        assert(s[i] == '"');
        assert(Seq::<char>::empty() =~= d);
    } else {
        let e0 = esc_char(d[0]);
        let rest = enc_text(d.drop_first());
        assert(enc_text(d) == e0 + rest);
        lemma_matches_split(s, i, e0, rest);
        lemma_sp_string_at(s, i + e0.len(), d.drop_first());
        if text_char(d[0]) {
            assert(e0 =~= seq![d[0]]);
            assert(s[i + 0] == e0[0]);
            assert(s[i] == d[0]);
            assert(seq![d[0]] + d.drop_first() =~= d);
        } else {
            lemma_esc_char_parses(s, i, d[0]);
            assert(seq![d[0]] + d.drop_first() =~= d);
        }
    }
}

proof fn lemma_sp_type_at(s: Seq<char>, i: int, t: TransactionType)
    requires
        matches_at(s, i, enc_type(t)),
    ensures
        sp_type(s, i) == Some((t, i + enc_type(t).len() as int)),
{
    reveal_strlit("expense\"");
    reveal_strlit("income\"");
    match t {
        TransactionType::Expense => {
            lemma_sp_lit_at(s, i, "expense\""@);
        },
        TransactionType::Income => {
            lemma_sp_lit_at(s, i, "income\""@);
            assert(s[i + 0] == "income\""@[0]);
            if sp_lit(s, i, "expense\""@) is Some {
                assert(s.subrange(i, i + 8) == "expense\""@);
                assert(s.subrange(i, i + 8)[0] == s[i]);
                assert(false);
            }
        },
    }
}

proof fn lemma_sp_offset_at(s: Seq<char>, i: int, off: int)
    requires
        matches_at(s, i, enc_offset(off)),
        -1440 < off < 1440,
    ensures
        sp_offset(s, i) == Some((off, i + enc_offset(off).len() as int)),
{
    if off == 0 {
        assert(s[i + 0] == seq!['Z'][0]);
        assert(s[i] == 'Z');
    } else {
        let m = if off < 0 {
            -off
        } else {
            off
        };
        let sign = if off < 0 {
            seq!['-']
        } else {
            seq!['+']
        };
        assert(enc_offset(off) == ((sign + pad2(m / 60)) + seq![':']) + pad2(m % 60));
        lemma_matches_split(s, i, (sign + pad2(m / 60)) + seq![':'], pad2(m % 60));
        lemma_matches_split(s, i, sign + pad2(m / 60), seq![':']);
        lemma_matches_split(s, i, sign, pad2(m / 60));
        assert(s[i + 0] == sign[0]);
        assert(s[i + 3 + 0] == seq![':'][0]);
        assert(s[i + 3] == ':');
        lemma_sp_pad2_at(s, i + 1, (m / 60) as u64);
        lemma_sp_pad2_at(s, i + 4, (m % 60) as u64);
        assert((m / 60) * 60 + m % 60 == m);
    }
}

#[verifier::rlimit(60)]
proof fn lemma_sp_date_at(s: Seq<char>, i: int, d: Date)
    requires
        matches_at(s, i, enc_date(d)),
        d.wf(),
    ensures
        sp_date(s, i) == Some((d, i + enc_date(d).len() as int)),
{
    let p1 = pad4(d.year as int);
    let p2 = pad2(d.month as int);
    let p3 = pad2(d.day as int);
    let p4 = pad2(d.hour as int);
    let p5 = pad2(d.minute as int);
    let p6 = pad2(d.second as int);
    let off = enc_offset(d.offset_minutes as int);
    let q12 = p1 + seq!['-'] + p2 + seq!['-'] + p3 + seq!['T'] + p4 + seq![':'] + p5 + seq![':']
        + p6;
    lemma_matches_split(s, i, q12, off);
    let q11 = p1 + seq!['-'] + p2 + seq!['-'] + p3 + seq!['T'] + p4 + seq![':'] + p5 + seq![':'];
    lemma_matches_split(s, i, q11, p6);
    let q10 = p1 + seq!['-'] + p2 + seq!['-'] + p3 + seq!['T'] + p4 + seq![':'] + p5;
    lemma_matches_split(s, i, q10, seq![':']);
    let q9 = p1 + seq!['-'] + p2 + seq!['-'] + p3 + seq!['T'] + p4 + seq![':'];
    lemma_matches_split(s, i, q9, p5);
    let q8 = p1 + seq!['-'] + p2 + seq!['-'] + p3 + seq!['T'] + p4;
    lemma_matches_split(s, i, q8, seq![':']);
    let q7 = p1 + seq!['-'] + p2 + seq!['-'] + p3 + seq!['T'];
    lemma_matches_split(s, i, q7, p4);
    let q6 = p1 + seq!['-'] + p2 + seq!['-'] + p3;
    lemma_matches_split(s, i, q6, seq!['T']);
    let q5 = p1 + seq!['-'] + p2 + seq!['-'];
    lemma_matches_split(s, i, q5, p3);
    let q4 = p1 + seq!['-'] + p2;
    lemma_matches_split(s, i, q4, seq!['-']);
    let q3 = p1 + seq!['-'];
    lemma_matches_split(s, i, q3, p2);
    lemma_matches_split(s, i, p1, seq!['-']);
    lemma_sp_pad4_at(s, i, d.year as u64);
    lemma_sp_pad2_at(s, i + 5, d.month as u64);
    lemma_sp_pad2_at(s, i + 8, d.day as u64);
    lemma_sp_pad2_at(s, i + 11, d.hour as u64);
    lemma_sp_pad2_at(s, i + 14, d.minute as u64);
    lemma_sp_pad2_at(s, i + 17, d.second as u64);
    assert(s[i + 4 + 0] == seq!['-'][0]);
    assert(s[i + 7 + 0] == seq!['-'][0]);
    assert(s[i + 10 + 0] == seq!['T'][0]);
    assert(s[i + 13 + 0] == seq![':'][0]);
    assert(s[i + 16 + 0] == seq![':'][0]);
    assert(s[i + 4] == '-');
    assert(s[i + 7] == '-');
    assert(s[i + 10] == 'T');
    assert(s[i + 13] == ':');
    assert(s[i + 16] == ':');
    lemma_sp_offset_at(s, i + 19, d.offset_minutes as int);
}

#[verifier::rlimit(100)]
proof fn lemma_sp_tx_at(s: Seq<char>, i: int, t: TxView)
    requires
        matches_at(s, i, enc_tx(t)),
        wf_tx(t),
    ensures
        sp_tx(s, i) == Some((t, i + enc_tx(t).len() as int)),
        enc_tx(t).len() > 0,
        s[i] == '{',
{
    let p1 = "{\"amount\":"@;
    let p2 = enc_amount(t.amount_cents);
    let p3 = ",\"description\":\""@;
    let p4 = enc_text(t.description);
    let p5 = seq!['"'];
    let p6 = ",\"category\":\""@;
    let p7 = enc_text(t.category);
    let p8 = seq!['"'];
    let p9 = ",\"transaction_type\":\""@;
    let p10 = enc_type(t.transaction_type);
    let p11 = ",\"date\":\""@;
    let p12 = enc_date(t.date);
    let p13 = "\"}"@;
    let q12 = p1 + p2 + p3 + p4 + p5 + p6 + p7 + p8 + p9 + p10 + p11 + p12;
    lemma_matches_split(s, i, q12, p13);
    let q11 = p1 + p2 + p3 + p4 + p5 + p6 + p7 + p8 + p9 + p10 + p11;
    lemma_matches_split(s, i, q11, p12);
    let q10 = p1 + p2 + p3 + p4 + p5 + p6 + p7 + p8 + p9 + p10;
    lemma_matches_split(s, i, q10, p11);
    let q9 = p1 + p2 + p3 + p4 + p5 + p6 + p7 + p8 + p9;
    lemma_matches_split(s, i, q9, p10);
    let q8 = p1 + p2 + p3 + p4 + p5 + p6 + p7 + p8;
    lemma_matches_split(s, i, q8, p9);
    let q7 = p1 + p2 + p3 + p4 + p5 + p6 + p7;
    lemma_matches_split(s, i, q7, p8);
    let q6 = p1 + p2 + p3 + p4 + p5 + p6;
    lemma_matches_split(s, i, q6, p7);
    let q5 = p1 + p2 + p3 + p4 + p5;
    lemma_matches_split(s, i, q5, p6);
    let q4 = p1 + p2 + p3 + p4;
    lemma_matches_split(s, i, q4, p5);
    let q3 = p1 + p2 + p3;
    lemma_matches_split(s, i, q3, p4);
    let q2 = p1 + p2;
    lemma_matches_split(s, i, q2, p3);
    lemma_matches_split(s, i, p1, p2);
    let o2 = i + p1.len();
    let o3 = o2 + p2.len();
    let o4 = o3 + p3.len();
    let o5 = o4 + p4.len();
    let o6 = o5 + 1;
    let o7 = o6 + p6.len();
    let o8 = o7 + p7.len();
    let o9 = o8 + 1;
    let o10 = o9 + p9.len();
    let o11 = o10 + p10.len();
    let o12 = o11 + p11.len();
    let o13 = o12 + p12.len();
    reveal_strlit(",\"description\":\"");
    lemma_sp_lit_at(s, i, p1);
    assert(s[o3 + 0] == p3[0]);
    assert(!dec_digit(s[o3]));
    lemma_sp_amount_at(s, o2, t.amount_cents);
    lemma_sp_lit_at(s, o3, p3);
    assert(s[o5 + 0] == p5[0]);
    assert(s[o5] == '"');
    lemma_sp_string_at(s, o4, t.description);
    lemma_sp_lit_at(s, o6, p6);
    assert(s[o8 + 0] == p8[0]);
    assert(s[o8] == '"');
    lemma_sp_string_at(s, o7, t.category);
    lemma_sp_lit_at(s, o9, p9);
    lemma_sp_type_at(s, o10, t.transaction_type);
    lemma_sp_lit_at(s, o11, p11);
    lemma_sp_date_at(s, o12, t.date);
    lemma_sp_lit_at(s, o13, p13);
    reveal_strlit("{\"amount\":");
    assert(s[i + 0] == p1[0]);
    assert(s[i] == '{');
}

#[verifier::rlimit(100)]
proof fn lemma_sp_txs_at(s: Seq<char>, i: int, ts: Seq<TxView>)
    requires
        matches_at(s, i, enc_txs(ts) + seq![']']),
        forall|k: int| 0 <= k < ts.len() ==> wf_tx(#[trigger] ts[k]),
    ensures
        sp_txs(s, i) == Some((ts, i + enc_txs(ts).len() + 1)),
    decreases ts.len(),
{
    if ts.len() == 0 {
        assert(s[i + 0] == (enc_txs(ts) + seq![']'])[0]);
        assert(s[i] == ']');
        assert(ts =~= Seq::<TxView>::empty());
    } else if ts.len() == 1 {
        lemma_matches_split(s, i, enc_tx(ts[0]), seq![']']);
        lemma_sp_tx_at(s, i, ts[0]);
        let j = i + enc_tx(ts[0]).len();
        assert(s[j + 0] == seq![']'][0]);
        assert(s[j] == ']');
        assert(s[i] == '{');
        assert(seq![ts[0]] =~= ts);
    } else {
        let e0 = enc_tx(ts[0]);
        let rest = enc_txs(ts.drop_first());
        assert(enc_txs(ts) + seq![']'] =~= (e0 + seq![',']) + (rest + seq![']']));
        lemma_matches_split(s, i, e0 + seq![','], rest + seq![']']);
        lemma_matches_split(s, i, e0, seq![',']);
        lemma_sp_tx_at(s, i, ts[0]);
        let j = i + e0.len();
        assert(s[j + 0] == seq![','][0]);
        assert(s[j] == ',');
        assert(s[i] == '{');
        assert(forall|k: int|
            0 <= k < ts.drop_first().len() ==> wf_tx(#[trigger] ts.drop_first()[k]));
        lemma_sp_txs_at(s, j + 1, ts.drop_first());
        assert(seq![ts[0]] + ts.drop_first() =~= ts);
        assert(enc_txs(ts).len() == e0.len() + 1 + rest.len());
    }
}

/// Whatever `encode` writes for storable records, `decode` reads back
/// unchanged, order preserved.
pub proof fn lemma_round_trip(version: u64, ts: Seq<TxView>)
    requires
        version < VALUE_LIMIT,
        forall|k: int| 0 <= k < ts.len() ==> wf_tx(#[trigger] ts[k]),
    ensures
        sp_file(enc_file(version, ts)) == Some(FileView { version, transactions: ts }),
{
    let s = enc_file(version, ts);
    let f1 = "{\"version\":"@;
    let dig = spec_digits(version as nat);
    let f2 = ",\"transactions\":["@;
    let body = enc_txs(ts);
    reveal_strlit("]}");
    reveal_strlit(",\"transactions\":[");
    assert(matches_at(s, 0, s)) by {
        assert(forall|k: int| 0 <= k < s.len() ==> s[0 + k] == #[trigger] s[k]);
    }
    assert(s =~= (f1 + dig) + (f2 + ((body + seq![']']) + seq!['}'])));
    lemma_matches_split(s, 0, f1 + dig, f2 + ((body + seq![']']) + seq!['}']));
    lemma_matches_split(s, 0, f1, dig);
    let i1 = f1.len() as int;
    let i2 = i1 + dig.len();
    lemma_matches_split(s, i2, f2, (body + seq![']']) + seq!['}']);
    let i3 = i2 + f2.len();
    lemma_matches_split(s, i3, body + seq![']'], seq!['}']);
    let i4 = i3 + body.len() + 1;
    lemma_sp_lit_at(s, 0, f1);
    assert(s[i2 + 0] == f2[0]);
    assert(!dec_digit(s[i1 + dig.len()]));
    lemma_sp_number_at(s, i1, version, VALUE_LIMIT);
    lemma_sp_lit_at(s, i2, f2);
    lemma_sp_txs_at(s, i3, ts);
    assert(s[i4 + 0] == seq!['}'][0]);
    assert(s[i4] == '}');
    assert(i4 + 1 == s.len());
}

/// Every record the `sp_` functions accept is storable.
pub proof fn lemma_sp_tx_wf(s: Seq<char>, i: int)
    ensures
        sp_tx(s, i) is Some ==> wf_tx(sp_tx(s, i).unwrap().0),
{
    if sp_tx(s, i) is Some {
        let i1 = sp_lit(s, i, "{\"amount\":"@).unwrap();
        let neg = 0 <= i1 < s.len() && s[i1] == '-';
        let i0 = if neg {
            i1 + 1
        } else {
            i1
        };
        crate::digits::lemma_digit_run_end(s, i0);
        crate::digits::lemma_digits_value_nonneg(s, i0, digit_run_end(s, i0));
        let (amount, i2) = sp_amount(s, i1).unwrap();
        assert(-AMOUNT_LIMIT < amount < AMOUNT_LIMIT);
    }
}

/// Every record of a decoded envelope is storable.
pub proof fn lemma_sp_txs_wf(s: Seq<char>, i: int)
    requires
        0 <= i <= s.len(),
    ensures
        sp_txs(s, i) is Some ==> forall|k: int|
            0 <= k < sp_txs(s, i).unwrap().0.len() ==> wf_tx(
                #[trigger] sp_txs(s, i).unwrap().0[k],
            ),
    decreases s.len() - i,
{
    if sp_txs(s, i) is Some {
        if i < s.len() && s[i] == ']' {
        } else {
            let (t, j) = sp_tx(s, i).unwrap();
            lemma_sp_tx_wf(s, i);
            let all = sp_txs(s, i).unwrap().0;
            if j < s.len() && s[j] == ',' {
                lemma_sp_txs_wf(s, j + 1);
                let rest = sp_txs(s, j + 1).unwrap().0;
                assert(all == seq![t] + rest);
                assert forall|k: int| 0 <= k < all.len() implies wf_tx(#[trigger] all[k]) by {
                    if k == 0 {
                        assert(all[0] == t);
                    } else {
                        assert(all[k] == rest[k - 1]);
                    }
                }
            } else {
                assert(all == seq![t]);
                assert(all[0] == t);
            }
        }
    }
}

/// Every record of a decoded envelope is storable.
pub proof fn lemma_sp_file_wf(s: Seq<char>)
    ensures
        sp_file(s) is Some ==> forall|k: int|
            0 <= k < sp_file(s).unwrap().transactions.len() ==> wf_tx(
                #[trigger] sp_file(s).unwrap().transactions[k],
            ),
{
    if sp_file(s) is Some {
        match sp_lit(s, 0, "{\"version\":"@) {
            None => {},
            Some(i1) => match sp_number(s, i1, VALUE_LIMIT) {
                None => {},
                Some((version, i2)) => match sp_lit(s, i2, ",\"transactions\":["@) {
                    None => {},
                    Some(i3) => {
                        crate::digits::lemma_digit_run_end(s, i1);
                        lemma_sp_txs_wf(s, i3);
                    },
                },
            },
        }
    }
}

} // verus!
