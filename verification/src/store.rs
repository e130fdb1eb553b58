//! The transaction store: in-memory records, a tracker of already-loaded
//! monthly files, and the grouping that writes records back to their own
//! month's file.
//!
//! The store itself performs no input or output. A caller asks through
//! `load_request` which file a month needs, reads it, and hands the text to
//! `load_transactions`; `write_plan` returns the file names and texts to
//! write. A missing file is passed as `None` and is not an error.

use vstd::prelude::*;

use crate::codec;
use crate::codec::{enc_file, sp_file};
use crate::digits::{push_digits, spec_digits};
use crate::transaction::{
    lemma_views_of, views_of, wf_tx, Date, Transaction, TransactionType, TxView, AMOUNT_LIMIT,
};
use crate::{Config, Error};

verus! {

/// The storage name of a transaction type: the display form, not the
/// serialized form.
pub open spec fn type_file_name(t: TransactionType) -> Seq<char> {
    match t {
        TransactionType::Expense => "expenses"@,
        TransactionType::Income => "income"@,
    }
}

/// A possibly negative number in decimal.
pub open spec fn spec_int_str(n: int) -> Seq<char> {
    if n < 0 {
        seq!['-'] + spec_digits((-n) as nat)
    } else {
        spec_digits(n as nat)
    }
}

/// The identifier of one monthly file: `{year}-{month}-{type}`, not
/// zero-padded. Total: out-of-range years or months still name a file.
pub open spec fn spec_file_id(t: TransactionType, year: int, month: int) -> Seq<char> {
    spec_int_str(year) + seq!['-'] + spec_int_str(month) + seq!['-'] + type_file_name(t)
}

/// The on-disk name of one monthly file.
pub open spec fn spec_file_name(id: Seq<char>) -> Seq<char> {
    id + ".json"@
}

/// The identifier a record belongs to, derived from its own fields.
pub open spec fn tx_file_id(t: TxView) -> Seq<char> {
    spec_file_id(t.transaction_type, t.date.year as int, t.date.month as int)
}

/// The records of `ts` that belong to `id`, in order.
pub open spec fn group_of(ts: Seq<TxView>, id: Seq<char>) -> Seq<TxView>
    decreases ts.len(),
{
    if ts.len() == 0 {
        Seq::empty()
    } else {
        group_of(ts.drop_last(), id) + (if tx_file_id(ts.last()) == id {
            seq![ts.last()]
        } else {
            Seq::empty()
        })
    }
}

/// One entry of a write plan covers exactly one non-empty group.
pub open spec fn plan_entry_ok(name: Seq<char>, blob: Seq<char>, ts: Seq<TxView>) -> bool {
    exists|id: Seq<char>|
        {
            &&& name == spec_file_name(id)
            &&& blob == enc_file(1, #[trigger] group_of(ts, id))
            &&& group_of(ts, id).len() > 0
        }
}

/// Some entry of `ids` reads as the record's own identifier.
pub open spec fn covered(ids: Seq<String>, t: TxView) -> bool {
    exists|g: int| 0 <= g < ids.len() && (#[trigger] ids[g])@ == tx_file_id(t)
}

/// The identifier is one of the given records' own.
pub open spec fn names_some(id: Seq<char>, ts: Seq<TxView>) -> bool {
    exists|j: int| 0 <= j < ts.len() && id == tx_file_id(#[trigger] ts[j])
}

/// Some plan entry is named after the record's own file.
pub open spec fn planned(r: Seq<(String, String)>, t: TxView) -> bool {
    exists|k: int| 0 <= k < r.len() && (#[trigger] r[k]).0@ == spec_file_name(tx_file_id(t))
}

/// Every record a group holds is one of the grouped records.
pub proof fn lemma_group_of_sub(ts: Seq<TxView>, id: Seq<char>)
    ensures
        forall|m: int|
            0 <= m < group_of(ts, id).len() ==> exists|j: int|
                0 <= j < ts.len() && ts[j] == #[trigger] group_of(ts, id)[m],
    decreases ts.len(),
{
    if ts.len() > 0 {
        lemma_group_of_sub(ts.drop_last(), id);
        assert forall|m: int| 0 <= m < group_of(ts, id).len() implies exists|j: int|
            0 <= j < ts.len() && ts[j] == #[trigger] group_of(ts, id)[m] by {
            let sub = group_of(ts.drop_last(), id);
            if m < sub.len() {
                assert(group_of(ts, id)[m] == sub[m]);
                let j = choose|j: int| 0 <= j < ts.drop_last().len() && ts.drop_last()[j] == sub[m];
                assert(ts[j] == group_of(ts, id)[m]);
            } else {
                assert(group_of(ts, id)[m] == ts.last());
                assert(ts[ts.len() - 1] == group_of(ts, id)[m]);
            }
        }
    }
}

/// A group is inhabited as soon as one grouped record carries its identifier.
pub proof fn lemma_group_of_nonempty(ts: Seq<TxView>, id: Seq<char>, j: int)
    requires
        0 <= j < ts.len(),
        tx_file_id(ts[j]) == id,
    ensures
        group_of(ts, id).len() > 0,
    decreases ts.len(),
{
    if j == ts.len() - 1 {
        assert(tx_file_id(ts.last()) == id);
    } else {
        assert(ts.drop_last()[j] == ts[j]);
        lemma_group_of_nonempty(ts.drop_last(), id, j);
    }
}

/// Appending the same suffix to different texts keeps them different.
proof fn lemma_file_name_injective(a: Seq<char>, b: Seq<char>)
    requires
        spec_file_name(a) == spec_file_name(b),
    ensures
        a == b,
{
    assert((a + ".json"@).len() == (b + ".json"@).len());
    assert forall|k: int| 0 <= k < a.len() implies a[k] == b[k] by {
        assert((a + ".json"@)[k] == a[k]);
        assert((b + ".json"@)[k] == b[k]);
    }
    assert(a =~= b);
}

/// Renders the identifier of one monthly file.
pub fn transaction_file_id(transaction_type: TransactionType, year: i32, month: u32) -> (r: String)
    ensures
        r@ == spec_file_id(transaction_type, year as int, month as int),
{
    let mut s = String::new();
    if year < 0 {
        s.append("-");
        proof {
            reveal_strlit("-");
        }
        push_digits(&mut s, (-(year as i64)) as u64);
    } else {
        push_digits(&mut s, year as u64);
    }
    s.append("-");
    push_digits(&mut s, month as u64);
    s.append("-");
    match transaction_type {
        TransactionType::Expense => s.append("expenses"),
        TransactionType::Income => s.append("income"),
    }
    proof {
        reveal_strlit("-");
        assert(s@ =~= spec_file_id(transaction_type, year as int, month as int));
    }
    s
}

/// Renders the on-disk name of one monthly file.
pub fn transaction_file_name(transaction_type: TransactionType, year: i32, month: u32) -> (r:
    String)
    ensures
        r@ == spec_file_name(spec_file_id(transaction_type, year as int, month as int)),
{
    let mut s = transaction_file_id(transaction_type, year, month);
    s.append(".json");
    s
}

/// Whether some entry of `v` reads as `id`.
fn contains_str(v: &Vec<String>, id: &String) -> (r: bool)
    ensures
        r == exists|k: int| 0 <= k < v@.len() && (#[trigger] v@[k])@ == id@,
{
    let mut i: usize = 0;
    while i < v.len()
        invariant
            i <= v@.len(),
            forall|k: int| 0 <= k < i ==> (#[trigger] v@[k])@ != id@,
        decreases v@.len() - i,
    {
        if v[i] == *id {
            return true;
        }
        i = i + 1;
    }
    false
}

/// The in-memory transaction store.
pub struct App {
    config: Config,
    transactions: Vec<Transaction>,
    loaded_files: Vec<String>,
}

impl App {
    /// The records held in memory, in insertion order.
    pub closed spec fn txs(&self) -> Seq<TxView> {
        views_of(self.transactions@)
    }

    /// The storage root the store was built over, as a path rendered to
    /// text.
    pub closed spec fn spec_data_dir(&self) -> Seq<char> {
        self.config.data_dir@
    }

    /// Whether the monthly file `id` was already read this session.
    pub closed spec fn is_loaded(&self, id: Seq<char>) -> bool {
        exists|k: int| 0 <= k < self.loaded_files@.len() && (#[trigger] self.loaded_files@[k])@
            == id
    }

    /// Every held record is storable.
    pub open spec fn wf(&self) -> bool {
        forall|k: int| 0 <= k < self.txs().len() ==> wf_tx(#[trigger] self.txs()[k])
    }

    /// An empty store over the given configuration.
    pub fn new(config: Config) -> (s: Self)
        ensures
            s.txs() == Seq::<TxView>::empty(),
            forall|id: Seq<char>| !s.is_loaded(id),
            s.wf(),
            s.spec_data_dir() == config.data_dir@,
    {
        let s = App { config, transactions: Vec::new(), loaded_files: Vec::new() };
        proof {
            assert(s.txs() =~= Seq::<TxView>::empty());
        }
        s
    }

    /// The configuration the store was built over.
    pub fn config(&self) -> (r: &Config)
        ensures
            r.data_dir@ == self.spec_data_dir(),
    {
        &self.config
    }

    /// The file a month still has to be read from: its name, or nothing when
    /// that month was already loaded.
    pub fn load_request(&self, transaction_type: TransactionType, year: i32, month: u32) -> (r:
        Option<String>)
        ensures
            ({
                let id = spec_file_id(transaction_type, year as int, month as int);
                match r {
                    Some(n) => !self.is_loaded(id) && n@ == spec_file_name(id),
                    None => self.is_loaded(id),
                }
            }),
    {
        let id = transaction_file_id(transaction_type, year, month);
        if contains_str(&self.loaded_files, &id) {
            None
        } else {
            let mut n = id;
            n.append(".json");
            Some(n)
        }
    }

    /// Takes in what was read for one month and marks the month loaded. A
    /// missing file (`None`) counts as an empty month and is no error; a
    /// text that is no envelope leaves the store unchanged and is
    /// `CorruptData`.
    pub fn load_transactions(
        &mut self,
        transaction_type: TransactionType,
        year: i32,
        month: u32,
        blob: Option<&str>,
    ) -> (r: Result<(), Error>)
        requires
            old(self).wf(),
        ensures
            final(self).wf(),
            ({
                let id = spec_file_id(transaction_type, year as int, month as int);
                match blob {
                    None => r is Ok && final(self).txs() == old(self).txs() && (forall|
                        x: Seq<char>,
                    |
                        final(self).is_loaded(x) <==> (old(self).is_loaded(x) || x == id)),
                    Some(b) => match sp_file(b@) {
                        Some(f) => r is Ok && final(self).txs() == old(self).txs()
                            + f.transactions && (forall|x: Seq<char>|
                            final(self).is_loaded(x) <==> (old(self).is_loaded(x) || x == id)),
                        None => (r matches Err(e) && e == Error::CorruptData)
                            && final(self).txs() == old(self).txs() && (forall|x: Seq<char>|
                            final(self).is_loaded(x) <==> old(self).is_loaded(x)),
                    },
                }
            }),
    {
        let id = transaction_file_id(transaction_type, year, month);
        if let Some(b) = blob {
            let mut file = match codec::decode(b) {
                Ok(f) => f,
                Err(e) => {
                    return Err(Error::CorruptData);
                },
            };
            proof {
                codec::lemma_sp_file_wf(b@);
            }
            let ghost before = self.transactions@;
            let ghost incoming = file.transactions@;
            self.transactions.append(&mut file.transactions);
            proof {
                lemma_views_of(before);
                lemma_views_of(incoming);
                lemma_views_of(self.transactions@);
                assert(self.transactions@ == before + incoming);
                assert(self.txs() =~= views_of(before) + views_of(incoming));
                assert(views_of(incoming) == sp_file(b@).unwrap().transactions);
                assert forall|k: int| 0 <= k < self.txs().len() implies wf_tx(
                    #[trigger] self.txs()[k],
                ) by {
                    if k < views_of(before).len() {
                        assert(self.txs()[k] == old(self).txs()[k]);
                    } else {
                        assert(self.txs()[k] == sp_file(b@).unwrap().transactions[k - views_of(
                            before,
                        ).len()]);
                    }
                }
            }
        }
        proof {
            assert forall|k: int| 0 <= k < self.txs().len() implies wf_tx(
                #[trigger] self.txs()[k],
            ) by {
                if blob is None {
                    assert(self.txs()[k] == old(self).txs()[k]);
                }
            }
        }
        let ghost mid = self.txs();
        let ghost pre_loaded = self.loaded_files@;
        self.loaded_files.push(id);
        proof {
            assert forall|k: int| 0 <= k < self.txs().len() implies wf_tx(
                #[trigger] self.txs()[k],
            ) by {
                assert(self.txs()[k] == mid[k]);
            }
            assert forall|x: Seq<char>|
                self.is_loaded(x) <==> (exists|k: int|
                    0 <= k < pre_loaded.len() && (#[trigger] pre_loaded[k])@ == x) || x
                    == spec_file_id(transaction_type, year as int, month as int) by {
                if self.is_loaded(x) {
                    let k = choose|k: int|
                        0 <= k < self.loaded_files@.len() && (#[trigger] self.loaded_files@[k])@
                            == x;
                    if k < pre_loaded.len() {
                        assert(pre_loaded[k]@ == x);
                    }
                }
                if exists|k: int| 0 <= k < pre_loaded.len() && (#[trigger] pre_loaded[k])@ == x {
                    let k = choose|k: int|
                        0 <= k < pre_loaded.len() && (#[trigger] pre_loaded[k])@ == x;
                    assert(self.loaded_files@[k]@ == x);
                }
                if x == spec_file_id(transaction_type, year as int, month as int) {
                    assert(self.loaded_files@[pre_loaded.len() as int]@ == x);
                }
            }
        }
        Ok(())
    }

    /// Appends one record built from the given parts. The record's month
    /// must have been loaded first: writing an unloaded month overwrites
    /// whatever its file already held.
    pub fn add_transaction_with_date(
        &mut self,
        transaction_type: TransactionType,
        amount_cents: i64,
        description: &str,
        category: &str,
        date: Date,
    )
        requires
            old(self).wf(),
            -AMOUNT_LIMIT < amount_cents < AMOUNT_LIMIT,
            date.wf(),
            old(self).is_loaded(
                spec_file_id(transaction_type, date.year as int, date.month as int),
            ),
        ensures
            final(self).wf(),
            final(self).txs() == old(self).txs().push(
                TxView {
                    amount_cents,
                    description: description@,
                    category: category@,
                    transaction_type,
                    date,
                },
            ),
            forall|x: Seq<char>| final(self).is_loaded(x) <==> old(self).is_loaded(x),
    {
        let t = Transaction::new(transaction_type, amount_cents, description, category, date);
        self.transactions.push(t);
        proof {
            assert(self.loaded_files@ == old(self).loaded_files@);
            lemma_views_of(old(self).transactions@);
            lemma_views_of(self.transactions@);
            assert(self.txs() =~= old(self).txs().push(t@));
            assert forall|k: int| 0 <= k < self.txs().len() implies wf_tx(
                #[trigger] self.txs()[k],
            ) by {
                if k < old(self).txs().len() {
                    assert(self.txs()[k] == old(self).txs()[k]);
                } else {
                    assert(self.txs()[k] == t@);
                }
            }
        }
    }

    /// The records held in memory, in insertion order.
    pub fn transactions(&self) -> (r: Vec<Transaction>)
        ensures
            views_of(r@) == self.txs(),
    {
        let mut out: Vec<Transaction> = Vec::new();
        let mut i: usize = 0;
        while i < self.transactions.len()
            invariant
                i <= self.transactions@.len(),
                views_of(out@) == self.txs().take(i as int),
            decreases self.transactions@.len() - i,
        {
            let ghost prev = out@;
            out.push(self.transactions[i].duplicate());
            proof {
                lemma_views_of(prev);
                lemma_views_of(out@);
                lemma_views_of(self.transactions@);
                assert(out@ == prev.push(out@[prev.len() as int]));
                assert(views_of(out@) =~= self.txs().take(i + 1));
            }
            i = i + 1;
        }
        proof {
            assert(self.txs().take(self.transactions@.len() as int) =~= self.txs());
        }
        out
    }

    /// The distinct identifiers of the held records, in first-appearance
    /// order.
    fn collect_ids(&self) -> (ids: Vec<String>)
        ensures
            forall|g1: int, g2: int|
                0 <= g1 < g2 < ids@.len() ==> (#[trigger] ids@[g1])@ != (#[trigger] ids@[g2])@,
            forall|j: int|
                0 <= j < self.txs().len() ==> covered(ids@, #[trigger] self.txs()[j]),
            forall|g: int|
                0 <= g < ids@.len() ==> names_some((#[trigger] ids@[g])@, self.txs()),
    {
        let ghost ts = self.txs();
        proof {
            lemma_views_of(self.transactions@);
        }
        let mut ids: Vec<String> = Vec::new();
        let mut i: usize = 0;
        while i < self.transactions.len()
            invariant
                i <= self.transactions@.len(),
                ts == self.txs(),
                ts.len() == self.transactions@.len(),
                forall|g1: int, g2: int|
                    0 <= g1 < g2 < ids@.len() ==> (#[trigger] ids@[g1])@ != (#[trigger] ids@[g2])@,
                forall|j: int| 0 <= j < i ==> covered(ids@, #[trigger] ts[j]),
                forall|g: int| 0 <= g < ids@.len() ==> names_some((#[trigger] ids@[g])@, ts),
            decreases self.transactions@.len() - i,
        {
            let tx = &self.transactions[i];
            let id = transaction_file_id(tx.transaction_type, tx.date.year, tx.date.month);
            proof {
                lemma_views_of(self.transactions@);
                assert(ts[i as int] == tx@);
                assert(id@ == tx_file_id(ts[i as int]));
            }
            let ghost prev_ids = ids@;
            let had = contains_str(&ids, &id);
            if !had {
                ids.push(id);
            }
            proof {
                assert forall|j2: int| 0 <= j2 < i + 1 implies covered(
                    ids@,
                    #[trigger] ts[j2],
                ) by {
                    if j2 < i {
                        let w = choose|w: int|
                            0 <= w < prev_ids.len() && (#[trigger] prev_ids[w])@ == tx_file_id(
                                ts[j2],
                            );
                        assert(ids@[w]@ == tx_file_id(ts[j2]));
                    } else if had {
                        let w = choose|w: int|
                            0 <= w < prev_ids.len() && (#[trigger] prev_ids[w])@ == id@;
                        assert(ids@[w]@ == tx_file_id(ts[i as int]));
                    } else {
                        assert(ids@[prev_ids.len() as int]@ == tx_file_id(ts[i as int]));
                    }
                }
                assert forall|g1: int, g2: int| 0 <= g1 < g2 < ids@.len() implies (
                #[trigger] ids@[g1])@ != (#[trigger] ids@[g2])@ by {
                    if g2 < prev_ids.len() {
                        assert(prev_ids[g1]@ != prev_ids[g2]@);
                    } else if g2 == prev_ids.len() && !had {
                        assert(prev_ids[g1]@ != id@);
                    }
                }
                assert forall|g: int| 0 <= g < ids@.len() implies names_some(
                    (#[trigger] ids@[g])@,
                    ts,
                ) by {
                    if g < prev_ids.len() {
                        assert(names_some(prev_ids[g]@, ts));
                        assert(ids@[g]@ == prev_ids[g]@);
                    } else {
                        assert(ids@[g]@ == tx_file_id(ts[i as int]));
                    }
                }
            }
            i = i + 1;
        }
        proof {
            assert forall|j: int| 0 <= j < self.txs().len() implies covered(
                ids@,
                #[trigger] self.txs()[j],
            ) by {
                assert(self.txs()[j] == ts[j]);
            }
        }
        ids
    }

    /// The held records that belong to `id`, copied in order.
    fn collect_group(&self, id: &String) -> (grp: Vec<Transaction>)
        ensures
            views_of(grp@) == group_of(self.txs(), id@),
    {
        let ghost ts = self.txs();
        proof {
            lemma_views_of(self.transactions@);
        }
        let mut grp: Vec<Transaction> = Vec::new();
        let mut j: usize = 0;
        while j < self.transactions.len()
            invariant
                j <= self.transactions@.len(),
                ts == self.txs(),
                ts.len() == self.transactions@.len(),
                views_of(grp@) == group_of(ts.take(j as int), id@),
            decreases self.transactions@.len() - j,
        {
            let tx = &self.transactions[j];
            let tx_id = transaction_file_id(tx.transaction_type, tx.date.year, tx.date.month);
            proof {
                lemma_views_of(self.transactions@);
                assert(ts[j as int] == tx@);
                assert(tx_id@ == tx_file_id(ts[j as int]));
                assert(ts.take(j + 1).drop_last() =~= ts.take(j as int));
                assert(ts.take(j + 1).last() == ts[j as int]);
            }
            let ghost prev = grp@;
            if tx_id == *id {
                grp.push(tx.duplicate());
                proof {
                    lemma_views_of(prev);
                    lemma_views_of(grp@);
                    assert(grp@ == prev.push(grp@[prev.len() as int]));
                    assert(views_of(grp@) =~= group_of(ts.take(j + 1), id@));
                }
            } else {
                proof {
                    assert(views_of(grp@) =~= group_of(ts.take(j + 1), id@));
                }
            }
            j = j + 1;
        }
        proof {
            assert(ts.take(self.transactions@.len() as int) =~= ts);
        }
        grp
    }

    /// Groups every held record by the file its own fields name, and
    /// serializes each group: the names and texts a caller must write out.
    /// Writing overwrites, so a caller must have loaded every month it
    /// touches before adding records for it.
    #[verifier::rlimit(60)]
    pub fn write_plan(&self) -> (r: Vec<(String, String)>)
        requires
            self.wf(),
        ensures
            forall|k1: int, k2: int|
                0 <= k1 < k2 < r@.len() ==> (#[trigger] r@[k1]).0@ != (#[trigger] r@[k2]).0@,
            forall|k: int|
                0 <= k < r@.len() ==> plan_entry_ok((#[trigger] r@[k]).0@, r@[k].1@, self.txs()),
            forall|j: int| 0 <= j < self.txs().len() ==> planned(r@, #[trigger] self.txs()[j]),
    {
        let ghost ts = self.txs();
        let ids = self.collect_ids();
        let mut out: Vec<(String, String)> = Vec::new();
        let mut g: usize = 0;
        while g < ids.len()
            invariant
                g <= ids@.len(),
                ts == self.txs(),
                self.wf(),
                out@.len() == g,
                forall|g1: int, g2: int|
                    0 <= g1 < g2 < ids@.len() ==> (#[trigger] ids@[g1])@ != (#[trigger] ids@[g2])@,
                forall|j: int| 0 <= j < ts.len() ==> covered(ids@, #[trigger] ts[j]),
                forall|h: int| 0 <= h < ids@.len() ==> names_some((#[trigger] ids@[h])@, ts),
                forall|k: int| 0 <= k < g ==> (#[trigger] out@[k]).0@ == spec_file_name(ids@[k]@),
                forall|k: int| 0 <= k < g ==> plan_entry_ok((#[trigger] out@[k]).0@, out@[k].1@, ts),
            decreases ids@.len() - g,
        {
            let ghost tid = ids@[g as int]@;
            let grp = self.collect_group(&ids[g]);
            proof {
                assert(names_some(tid, ts));
                let jw = choose|jw: int| 0 <= jw < ts.len() && tid == tx_file_id(#[trigger] ts[jw]);
                lemma_group_of_nonempty(ts, tid, jw);
                lemma_group_of_sub(ts, tid);
                lemma_views_of(grp@);
                assert forall|m: int| 0 <= m < grp@.len() implies wf_tx((#[trigger] grp@[m])@) by {
                    assert(grp@[m]@ == group_of(ts, tid)[m]);
                    let jj = choose|jj: int| 0 <= jj < ts.len() && ts[jj] == group_of(ts, tid)[m];
                    assert(wf_tx(ts[jj]));
                }
            }
            let blob = codec::encode(1, &grp);
            let mut name = ids[g].clone();
            name.append(".json");
            let ghost prev_out = out@;
            out.push((name, blob));
            proof {
                let k = prev_out.len() as int;
                assert((out@[k]).0@ =~= spec_file_name(tid));
                assert((out@[k]).1@ == enc_file(1, group_of(ts, tid)));
                assert(plan_entry_ok(out@[k].0@, out@[k].1@, ts));
                assert forall|k2: int| 0 <= k2 < out@.len() implies (#[trigger] out@[k2]).0@
                    == spec_file_name(ids@[k2]@) by {
                    if k2 < prev_out.len() {
                        assert(out@[k2] == prev_out[k2]);
                    }
                }
                assert forall|k2: int| 0 <= k2 < out@.len() implies plan_entry_ok(
                    (#[trigger] out@[k2]).0@,
                    out@[k2].1@,
                    ts,
                ) by {
                    if k2 < prev_out.len() {
                        assert(out@[k2] == prev_out[k2]);
                        assert(plan_entry_ok(prev_out[k2].0@, prev_out[k2].1@, ts));
                    }
                }
            }
            g = g + 1;
        }
        proof {
            assert forall|k1: int, k2: int|
                0 <= k1 < k2 < out@.len() implies (#[trigger] out@[k1]).0@ != (
            #[trigger] out@[k2]).0@ by {
                if out@[k1].0@ == out@[k2].0@ {
                    lemma_file_name_injective(ids@[k1]@, ids@[k2]@);
                }
            }
            assert forall|j: int| 0 <= j < self.txs().len() implies planned(
                out@,
                #[trigger] self.txs()[j],
            ) by {
                assert(self.txs()[j] == ts[j]);
                assert(covered(ids@, ts[j]));
                let h = choose|h: int|
                    0 <= h < ids@.len() && (#[trigger] ids@[h])@ == tx_file_id(ts[j]);
                assert((out@[h]).0@ == spec_file_name(tx_file_id(ts[j])));
            }
        }
        out
    }
}

/// Loading is idempotent: once a month's file has been taken in (or found
/// missing), the store holds its identifier, and by `load_request`'s
/// contract every later request for that month returns nothing, so the
/// file's text is decoded at most once per session.
pub proof fn lemma_load_idempotent(
    pre: App,
    post: App,
    transaction_type: TransactionType,
    year: i32,
    month: u32,
)
    requires
        forall|x: Seq<char>|
            post.is_loaded(x) <==> (pre.is_loaded(x) || x == spec_file_id(
                transaction_type,
                year as int,
                month as int,
            )),
    ensures
        post.is_loaded(spec_file_id(transaction_type, year as int, month as int)),
{
}

/// A storable record added for a month and written out is read back
/// unchanged: the text `write_plan` produces for the record's own file
/// decodes to exactly that record, so a fresh store that loads the month
/// holds it again.
pub proof fn lemma_write_then_load(t: TxView)
    requires
        wf_tx(t),
    ensures
        ({
            let blob = enc_file(1, group_of(seq![t], tx_file_id(t)));
            &&& sp_file(blob) matches Some(f)
            &&& sp_file(blob).unwrap().transactions == seq![t]
        }),
{
    let id = tx_file_id(t);
    assert(seq![t].drop_last() =~= Seq::<TxView>::empty());
    assert(seq![t].last() == t);
    assert(group_of(Seq::<TxView>::empty(), id) =~= Seq::<TxView>::empty());
    assert(group_of(seq![t], id) == group_of(seq![t].drop_last(), id) + seq![seq![t].last()]);
    assert(group_of(seq![t], id) =~= seq![t]);
    crate::codec::lemma_round_trip(1, seq![t]);
}

} // verus!
