//! The transaction record: an income or expense event with an amount in
//! cents, free-text description and category, and a timestamp.

use vstd::prelude::*;

verus! {

/// Amounts are held in cents and their magnitude stays below this bound, so
/// that they render with at most thirteen integer digits.
pub const AMOUNT_LIMIT: i64 = 1_000_000_000_000_000;

/// Whether an income or expense event is recorded.
#[derive(Clone, Copy, Debug, PartialEq, Eq, Structural)]
pub enum TransactionType {
    Expense,
    Income,
}

/// A calendar timestamp, second precision, with its zone offset.
#[derive(Clone, Copy, Debug, PartialEq, Eq, Structural)]
pub struct Date {
    pub year: i32,
    pub month: u32,
    pub day: u32,
    pub hour: u32,
    pub minute: u32,
    pub second: u32,
    /// The zone offset east of UTC, in minutes.
    pub offset_minutes: i32,
}

impl Date {
    /// A timestamp the monthly file format can carry: a four-digit year,
    /// fields inside calendar ranges, and an offset of less than a day.
    pub open spec fn wf(self) -> bool {
        &&& 1 <= self.year <= 9999
        &&& 1 <= self.month <= 12
        &&& 1 <= self.day <= 31
        &&& self.hour <= 23
        &&& self.minute <= 59
        &&& self.second <= 59
        &&& -1440 < self.offset_minutes < 1440
    }

    /// Runtime check for `wf`.
    pub fn is_wf(&self) -> (r: bool)
        ensures
            r == self.wf(),
    {
        1 <= self.year && self.year <= 9999 && 1 <= self.month && self.month <= 12 && 1
            <= self.day && self.day <= 31 && self.hour <= 23 && self.minute <= 59 && self.second
            <= 59 && -1440 < self.offset_minutes && self.offset_minutes < 1440
    }
}

/// Whether a character may stand unescaped in a serialized text: no quote,
/// no backslash, no control character. Any other character is escaped.
pub open spec fn text_char(c: char) -> bool {
    c != '"' && c != '\\' && c as u32 >= 32
}

/// Runtime check for `text_char`.
pub fn text_char_exec(c: char) -> (r: bool)
    ensures
        r == text_char(c),
{
    c != '"' && c != '\\' && c as u32 >= 32
}

/// The mathematical value of a transaction.
pub ghost struct TxView {
    pub amount_cents: i64,
    pub description: Seq<char>,
    pub category: Seq<char>,
    pub transaction_type: TransactionType,
    pub date: Date,
}

/// What the store and the monthly files require of every transaction.
pub open spec fn wf_tx(t: TxView) -> bool {
    &&& -AMOUNT_LIMIT < t.amount_cents < AMOUNT_LIMIT
    &&& t.date.wf()
}

/// A single recorded income or expense event.
#[derive(Debug)]
pub struct Transaction {
    pub amount_cents: i64,
    pub description: String,
    pub category: String,
    pub transaction_type: TransactionType,
    pub date: Date,
}

impl View for Transaction {
    type V = TxView;

    open spec fn view(&self) -> TxView {
        TxView {
            amount_cents: self.amount_cents,
            description: self.description@,
            category: self.category@,
            transaction_type: self.transaction_type,
            date: self.date,
        }
    }
}

impl Transaction {
    /// Builds a record from its parts.
    pub fn new(
        transaction_type: TransactionType,
        amount_cents: i64,
        description: &str,
        category: &str,
        date: Date,
    ) -> (r: Self)
        ensures
            r@ == (TxView {
                amount_cents,
                description: description@,
                category: category@,
                transaction_type,
                date,
            }),
    {
        Transaction {
            amount_cents,
            description: description.to_owned(),
            category: category.to_owned(),
            transaction_type,
            date,
        }
    }

    /// Runtime check for `wf_tx`.
    pub fn is_wf(&self) -> (r: bool)
        ensures
            r == wf_tx(self@),
    {
        -AMOUNT_LIMIT < self.amount_cents && self.amount_cents < AMOUNT_LIMIT
            && self.date.is_wf()
    }

    /// A copy whose value equals this record's.
    pub fn duplicate(&self) -> (r: Self)
        ensures
            r@ == self@,
    {
        Transaction {
            amount_cents: self.amount_cents,
            description: self.description.clone(),
            category: self.category.clone(),
            transaction_type: self.transaction_type,
            date: self.date,
        }
    }
}

/// The values of a sequence of records.
pub open spec fn views_of(ts: Seq<Transaction>) -> Seq<TxView> {
    ts.map_values(|t: Transaction| t@)
}

pub proof fn lemma_views_of(ts: Seq<Transaction>)
    ensures
        views_of(ts).len() == ts.len(),
        forall|k: int| 0 <= k < ts.len() ==> #[trigger] views_of(ts)[k] == ts[k]@,
{
}

} // verus!
