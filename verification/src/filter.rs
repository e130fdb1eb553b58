//! The query filter: optional year, month and type constraints narrow which
//! monthly files are read, and optional case-insensitive regular expressions
//! keep a record when its description or its category matches one of them.

use vstd::prelude::*;

use crate::codec::{lemma_matches_split, lemma_sp_lit_at, matches_at, sp_file, sp_lit};
use crate::digits::{
    digit_run_end, digits_value, lemma_digit_run_end, lemma_digits_value_nonneg,
    lemma_parse_digits_at, parse_digits, spec_digits,
};
use crate::store::{spec_file_id, spec_file_name, spec_int_str, type_file_name};
use crate::transaction::{lemma_views_of, views_of, Transaction, TransactionType, TxView};
use crate::Error;

verus! {

/// Parsed file-name fields stay below this bound.
pub const NAME_FIELD_LIMIT: u64 = 1_000_000_000;

#[verifier::external_type_specification]
#[verifier::external_body]
pub struct ExRegex(regex::Regex);

/// Whether `regex::Regex::new` accepts a pattern; its success depends on the
/// pattern alone.
pub uninterp spec fn regex_accepts(pat: Seq<char>) -> bool;

/// Whether a compiled pattern matches a text; `regex::Regex::is_match`
/// depends on the pattern and the text alone.
pub uninterp spec fn regex_match(pat: Seq<char>, text: Seq<char>) -> bool;

/// What `str::to_lowercase` returns; it depends on the characters alone.
pub uninterp spec fn lower_of(s: Seq<char>) -> Seq<char>;

/// A compiled pattern, keeping the text it was compiled from.
#[derive(Debug)]
pub struct CompiledPattern {
    re: regex::Regex,
    pat: String,
}

impl CompiledPattern {
    /// The text this pattern was compiled from.
    pub closed spec fn pattern(&self) -> Seq<char> {
        self.pat@
    }
}

/// Relies on `regex::Regex::new`: it accepts or rejects a pattern by the
/// pattern text alone.
#[verifier::external_body]
fn regex_compile(pat: &str) -> (r: Result<CompiledPattern, Error>)
    ensures
        r is Ok <==> regex_accepts(pat@),
        r matches Ok(p) ==> p.pattern() == pat@,
        r matches Err(e) ==> e == Error::InvalidPattern,
{
    match regex::Regex::new(pat) {
        Ok(re) => Ok(CompiledPattern { re, pat: pat.to_owned() }),
        Err(_) => Err(Error::InvalidPattern),
    }
}

/// Relies on `regex::Regex::is_match`: the result depends on the pattern and
/// the text alone.
#[verifier::external_body]
fn regex_is_match(p: &CompiledPattern, text: &str) -> (r: bool)
    ensures
        r == regex_match(p.pattern(), text@),
{
    p.re.is_match(text)
}

/// Relies on `str::to_lowercase`: the result depends on the characters alone.
#[verifier::external_body]
fn to_lower(s: &str) -> (r: String)
    ensures
        r@ == lower_of(s@),
{
    s.to_lowercase()
}

/// The optional constraints of a list query.
pub struct TransactionListFilter {
    year: Option<i32>,
    month: Option<u32>,
    transaction_type: Option<TransactionType>,
    description: Option<String>,
    category: Option<String>,
}

impl TransactionListFilter {
    pub closed spec fn spec_year(&self) -> Option<i32> {
        self.year
    }

    pub closed spec fn spec_month(&self) -> Option<u32> {
        self.month
    }

    pub closed spec fn spec_type(&self) -> Option<TransactionType> {
        self.transaction_type
    }

    pub closed spec fn spec_description(&self) -> Option<Seq<char>> {
        match self.description {
            Some(d) => Some(d@),
            None => None,
        }
    }

    pub closed spec fn spec_category(&self) -> Option<Seq<char>> {
        match self.category {
            Some(c) => Some(c@),
            None => None,
        }
    }

    /// A filter from its five optional constraints.
    pub fn new(
        year: Option<i32>,
        month: Option<u32>,
        transaction_type: Option<TransactionType>,
        description: Option<String>,
        category: Option<String>,
    ) -> (r: Self)
        ensures
            r.spec_year() == year,
            r.spec_month() == month,
            r.spec_type() == transaction_type,
            (description matches Some(d) ==> r.spec_description() == Some(d@)) && (description
                is None ==> r.spec_description() is None),
            (category matches Some(c) ==> r.spec_category() == Some(c@)) && (category is None
                ==> r.spec_category() is None),
    {
        TransactionListFilter { year, month, transaction_type, description, category }
    }

    /// The same filter, narrowed to one month.
    pub fn month(self, m: u32) -> (r: Self)
        ensures
            r.spec_month() == Some(m),
            r.spec_year() == self.spec_year(),
            r.spec_type() == self.spec_type(),
            r.spec_description() == self.spec_description(),
            r.spec_category() == self.spec_category(),
    {
        TransactionListFilter { month: Some(m), ..self }
    }

    /// The same filter, narrowed to one transaction type.
    pub fn transaction_type(self, t: TransactionType) -> (r: Self)
        ensures
            r.spec_type() == Some(t),
            r.spec_year() == self.spec_year(),
            r.spec_month() == self.spec_month(),
            r.spec_description() == self.spec_description(),
            r.spec_category() == self.spec_category(),
    {
        TransactionListFilter { transaction_type: Some(t), ..self }
    }

    /// The same filter, narrowed to one year.
    pub fn year(self, y: i32) -> (r: Self)
        ensures
            r.spec_year() == Some(y),
            r.spec_month() == self.spec_month(),
            r.spec_type() == self.spec_type(),
            r.spec_description() == self.spec_description(),
            r.spec_category() == self.spec_category(),
    {
        TransactionListFilter { year: Some(y), ..self }
    }

    /// Compiles the content patterns, lower-cased, as the matching is
    /// case-insensitive. An unusable pattern fails here, before any file is
    /// touched.
    pub fn compile(&self) -> (r: Result<CompiledFilter, Error>)
        ensures
            match r {
                Ok(cf) => {
                    &&& (self.spec_description() matches Some(d) ==> cf.desc_pat() == Some(
                        lower_of(d),
                    ) && regex_accepts(lower_of(d)))
                    &&& (self.spec_description() is None ==> cf.desc_pat() is None)
                    &&& (self.spec_category() matches Some(c) ==> cf.cat_pat() == Some(
                        lower_of(c),
                    ) && regex_accepts(lower_of(c)))
                    &&& (self.spec_category() is None ==> cf.cat_pat() is None)
                },
                Err(e) => e == Error::InvalidPattern && ((self.spec_description() matches Some(d)
                    && !regex_accepts(lower_of(d))) || (self.spec_category() matches Some(c)
                    && !regex_accepts(lower_of(c)))),
            },
    {
        let description = match &self.description {
            Some(d) => {
                let lowered = to_lower(d.as_str());
                match regex_compile(lowered.as_str()) {
                    Ok(p) => Some(p),
                    Err(e) => {
                        return Err(e);
                    },
                }
            },
            None => None,
        };
        let category = match &self.category {
            Some(c) => {
                let lowered = to_lower(c.as_str());
                match regex_compile(lowered.as_str()) {
                    Ok(p) => Some(p),
                    Err(e) => {
                        return Err(e);
                    },
                }
            },
            None => None,
        };
        Ok(CompiledFilter { description, category })
    }

    /// Whether a file name is one this filter reads: it parses as a monthly
    /// file name, and every set field agrees. Unset fields admit anything.
    pub open spec fn selects(&self, name: Seq<char>) -> bool {
        match sp_name(name) {
            None => false,
            Some((y, m, t)) => {
                &&& (self.spec_year() matches Some(fy) ==> y == fy as int)
                &&& (self.spec_month() matches Some(fm) ==> m == fm as int)
                &&& (self.spec_type() matches Some(ft) ==> t == ft)
            },
        }
    }

    /// The file names this filter reads, kept in the given order.
    pub fn select_files(&self, names: &Vec<String>) -> (r: Vec<String>)
        ensures
            views_of_names(r@) == selected_names(self, names@),
    {
        let mut out: Vec<String> = Vec::new();
        let mut i: usize = 0;
        while i < names.len()
            invariant
                i <= names@.len(),
                views_of_names(out@) == selected_names(self, names@.take(i as int)),
            decreases names@.len() - i,
        {
            let name = &names[i];
            proof {
                assert(names@.take(i + 1).drop_last() =~= names@.take(i as int));
                assert(names@.take(i + 1).last() == names@[i as int]);
            }
            let ghost prev = out@;
            if self.selects_exec(name) {
                out.push(name.clone());
                proof {
                    assert(out@ == prev.push(out@[prev.len() as int]));
                    assert(views_of_names(out@) =~= selected_names(self, names@.take(i + 1)));
                }
            } else {
                proof {
                    assert(views_of_names(out@) =~= selected_names(self, names@.take(i + 1)));
                }
            }
            i = i + 1;
        }
        proof {
            assert(names@.take(names@.len() as int) =~= names@);
        }
        out
    }

    /// Whether this filter reads the given file name.
    pub fn selects_exec(&self, name: &String) -> (r: bool)
        ensures
            r == self.selects(name@),
    {
        let parsed = parse_name(name.as_str());
        match parsed {
            None => false,
            Some((y, m, t)) => {
                let year_ok = match self.year {
                    Some(fy) => y == fy as i64,
                    None => true,
                };
                let month_ok = match self.month {
                    Some(fm) => m == fm as u64,
                    None => true,
                };
                let type_ok = match self.transaction_type {
                    Some(ft) => t == ft,
                    None => true,
                };
                year_ok && month_ok && type_ok
            },
        }
    }
}

/// The views of a sequence of names.
pub open spec fn views_of_names(ns: Seq<String>) -> Seq<Seq<char>> {
    ns.map_values(|n: String| n@)
}

/// The views of the names a filter selects, in order.
pub open spec fn selected_names(f: &TransactionListFilter, ns: Seq<String>) -> Seq<Seq<char>>
    decreases ns.len(),
{
    if ns.len() == 0 {
        Seq::empty()
    } else {
        selected_names(f, ns.drop_last()) + (if f.selects(ns.last()@) {
            seq![ns.last()@]
        } else {
            Seq::empty()
        })
    }
}

/// Reads a monthly file name: year digits, a dash, month digits, a dash, the
/// type's storage name and the file suffix.
pub open spec fn sp_name(s: Seq<char>) -> Option<(int, int, TransactionType)> {
    let j1 = digit_run_end(s, 0);
    let y = digits_value(s, 0, j1);
    if j1 == 0 || y >= NAME_FIELD_LIMIT || j1 >= s.len() || s[j1] != '-' {
        None
    } else {
        let j2 = digit_run_end(s, j1 + 1);
        let m = digits_value(s, j1 + 1, j2);
        if j2 == j1 + 1 || m >= NAME_FIELD_LIMIT || j2 >= s.len() || s[j2] != '-' {
            None
        } else if sp_lit(s, j2 + 1, "expenses.json"@) == Some(s.len() as int) {
            Some((y, m, TransactionType::Expense))
        } else if sp_lit(s, j2 + 1, "income.json"@) == Some(s.len() as int) {
            Some((y, m, TransactionType::Income))
        } else {
            None
        }
    }
}

/// Reads a monthly file name, as `sp_name` states.
fn parse_name(s: &str) -> (r: Option<(i64, u64, TransactionType)>)
    ensures
        ({
            match r {
                Some(p) => sp_name(s@) == Some((p.0 as int, p.1 as int, p.2)),
                None => sp_name(s@) is None,
            }
        }),
{
    let n = s.unicode_len();
    proof {
        lemma_digit_run_end(s@, 0);
        lemma_digits_value_nonneg(s@, 0, digit_run_end(s@, 0));
    }
    let (y, j1) = match parse_digits(s, 0, NAME_FIELD_LIMIT) {
        Some(p) => p,
        None => {
            return None;
        },
    };
    if j1 >= n || s.get_char(j1) != '-' {
        return None;
    }
    proof {
        lemma_digit_run_end(s@, j1 + 1 as int);
        lemma_digits_value_nonneg(s@, j1 + 1 as int, digit_run_end(s@, j1 + 1 as int));
    }
    let (m, j2) = match parse_digits(s, j1 + 1, NAME_FIELD_LIMIT) {
        Some(p) => p,
        None => {
            return None;
        },
    };
    if j2 >= n || s.get_char(j2) != '-' {
        return None;
    }
    let exp = crate::codec::expect_lit(s, j2 + 1, "expenses.json");
    let is_exp = match exp {
        Some(e) => e == n,
        None => false,
    };
    if is_exp {
        return Some((y as i64, m, TransactionType::Expense));
    }
    let inc = crate::codec::expect_lit(s, j2 + 1, "income.json");
    let is_inc = match inc {
        Some(e) => e == n,
        None => false,
    };
    if is_inc {
        return Some((y as i64, m, TransactionType::Income));
    }
    None
}

/// The compiled content constraints of a query.
#[derive(Debug)]
pub struct CompiledFilter {
    description: Option<CompiledPattern>,
    category: Option<CompiledPattern>,
}

/// Whether a record stays in a listing: with no content pattern every record
/// stays; otherwise a record stays exactly when its lower-cased description
/// or its lower-cased category matches the corresponding pattern. Only
/// patterns that are present can include a record.
pub open spec fn content_keeps(
    desc_pat: Option<Seq<char>>,
    cat_pat: Option<Seq<char>>,
    t: TxView,
) -> bool {
    if desc_pat is None && cat_pat is None {
        true
    } else {
        (desc_pat matches Some(p) && regex_match(p, lower_of(t.description))) || (cat_pat
            matches Some(p) && regex_match(p, lower_of(t.category)))
    }
}

/// The records that stay, in order.
pub open spec fn kept(ts: Seq<TxView>, dp: Option<Seq<char>>, cp: Option<Seq<char>>) -> Seq<TxView>
    decreases ts.len(),
{
    if ts.len() == 0 {
        Seq::empty()
    } else {
        kept(ts.drop_last(), dp, cp) + (if content_keeps(dp, cp, ts.last()) {
            seq![ts.last()]
        } else {
            Seq::empty()
        })
    }
}

/// What a listing over the given file texts returns: each text decoded in
/// order, its surviving records concatenated; nothing if any text is no
/// envelope.
pub open spec fn list_result(
    blobs: Seq<String>,
    dp: Option<Seq<char>>,
    cp: Option<Seq<char>>,
) -> Option<Seq<TxView>>
    decreases blobs.len(),
{
    if blobs.len() == 0 {
        Some(Seq::empty())
    } else {
        match list_result(blobs.drop_last(), dp, cp) {
            None => None,
            Some(acc) => match sp_file(blobs.last()@) {
                None => None,
                Some(f) => Some(acc + kept(f.transactions, dp, cp)),
            },
        }
    }
}

/// Once some text failed to decode, longer listings fail too.
proof fn lemma_list_result_none(blobs: Seq<String>, dp: Option<Seq<char>>, cp: Option<Seq<char>>, k: int)
    requires
        0 <= k <= blobs.len(),
        list_result(blobs.take(k), dp, cp) is None,
    ensures
        list_result(blobs, dp, cp) is None,
    decreases blobs.len(),
{
    if k < blobs.len() {
        assert(blobs.drop_last().take(k) =~= blobs.take(k));
        lemma_list_result_none(blobs.drop_last(), dp, cp, k);
    } else {
        assert(blobs.take(k) =~= blobs);
    }
}

impl CompiledFilter {
    pub closed spec fn desc_pat(&self) -> Option<Seq<char>> {
        match self.description {
            Some(p) => Some(p.pattern()),
            None => None,
        }
    }

    pub closed spec fn cat_pat(&self) -> Option<Seq<char>> {
        match self.category {
            Some(p) => Some(p.pattern()),
            None => None,
        }
    }

    /// Whether one record stays in the listing.
    pub fn keeps(&self, t: &Transaction) -> (r: bool)
        ensures
            r == content_keeps(self.desc_pat(), self.cat_pat(), t@),
    {
        let mut matched = false;
        let mut any_pattern = false;
        if let Some(p) = &self.description {
            any_pattern = true;
            let lowered = to_lower(t.description.as_str());
            if regex_is_match(p, lowered.as_str()) {
                matched = true;
            }
        }
        if let Some(p) = &self.category {
            any_pattern = true;
            if !matched {
                let lowered = to_lower(t.category.as_str());
                if regex_is_match(p, lowered.as_str()) {
                    matched = true;
                }
            }
        }
        if !any_pattern {
            true
        } else {
            matched
        }
    }

    /// The records of one decoded file that stay, in order.
    pub fn filter_transactions(&self, txs: &Vec<Transaction>) -> (r: Vec<Transaction>)
        ensures
            views_of(r@) == kept(views_of(txs@), self.desc_pat(), self.cat_pat()),
    {
        let ghost ts = views_of(txs@);
        proof {
            lemma_views_of(txs@);
        }
        let mut out: Vec<Transaction> = Vec::new();
        let mut i: usize = 0;
        while i < txs.len()
            invariant
                i <= txs@.len(),
                ts == views_of(txs@),
                ts.len() == txs@.len(),
                views_of(out@) == kept(ts.take(i as int), self.desc_pat(), self.cat_pat()),
            decreases txs@.len() - i,
        {
            proof {
                lemma_views_of(txs@);
                assert(ts[i as int] == txs@[i as int]@);
                assert(ts.take(i + 1).drop_last() =~= ts.take(i as int));
                assert(ts.take(i + 1).last() == ts[i as int]);
            }
            let ghost prev = out@;
            if self.keeps(&txs[i]) {
                out.push(txs[i].duplicate());
                proof {
                    lemma_views_of(prev);
                    lemma_views_of(out@);
                    assert(out@ == prev.push(out@[prev.len() as int]));
                    assert(views_of(out@) =~= kept(
                        ts.take(i + 1),
                        self.desc_pat(),
                        self.cat_pat(),
                    ));
                }
            } else {
                proof {
                    assert(views_of(out@) =~= kept(
                        ts.take(i + 1),
                        self.desc_pat(),
                        self.cat_pat(),
                    ));
                }
            }
            i = i + 1;
        }
        proof {
            assert(ts.take(txs@.len() as int) =~= ts);
        }
        out
    }

    /// Decodes each selected file's text in order and concatenates the
    /// records that stay. A text that is no envelope is fatal, not skipped.
    pub fn collect_transactions(&self, blobs: &Vec<String>) -> (r: Result<Vec<Transaction>, Error>)
        ensures
            match r {
                Ok(v) => list_result(blobs@, self.desc_pat(), self.cat_pat()) == Some(
                    views_of(v@),
                ),
                Err(e) => list_result(blobs@, self.desc_pat(), self.cat_pat()) is None && e
                    == Error::CorruptData,
            },
    {
        let mut out: Vec<Transaction> = Vec::new();
        let mut i: usize = 0;
        while i < blobs.len()
            invariant
                i <= blobs@.len(),
                list_result(blobs@.take(i as int), self.desc_pat(), self.cat_pat()) == Some(
                    views_of(out@),
                ),
            decreases blobs@.len() - i,
        {
            proof {
                assert(blobs@.take(i + 1).drop_last() =~= blobs@.take(i as int));
                assert(blobs@.take(i + 1).last() == blobs@[i as int]);
            }
            let file = match crate::codec::decode(blobs[i].as_str()) {
                Ok(f) => f,
                Err(e) => {
                    proof {
                        lemma_list_result_none(
                            blobs@,
                            self.desc_pat(),
                            self.cat_pat(),
                            i + 1 as int,
                        );
                    }
                    return Err(Error::CorruptData);
                },
            };
            let mut stays = self.filter_transactions(&file.transactions);
            let ghost prev = out@;
            let ghost sv = stays@;
            out.append(&mut stays);
            proof {
                lemma_views_of(prev);
                lemma_views_of(sv);
                lemma_views_of(out@);
                assert(views_of(out@) =~= views_of(prev) + kept(
                    sp_file(blobs@[i as int]@).unwrap().transactions,
                    self.desc_pat(),
                    self.cat_pat(),
                ));
            }
            i = i + 1;
        }
        proof {
            assert(blobs@.take(blobs@.len() as int) =~= blobs@);
        }
        Ok(out)
    }
}

/// The file namer and the name parser agree: the name written for a type,
/// year and month reads back as exactly those fields, so a filter that
/// fixes a field selects that field's files and no others.
pub proof fn lemma_name_round_trip(t: TransactionType, year: i32, month: u32)
    requires
        0 <= year < 1_000_000_000,
        month < 1_000_000_000,
    ensures
        sp_name(spec_file_name(spec_file_id(t, year as int, month as int))) == Some(
            (year as int, month as int, t),
        ),
{
    let dy = spec_digits(year as nat);
    let dm = spec_digits(month as nat);
    let tf = type_file_name(t);
    let s = spec_file_name(spec_file_id(t, year as int, month as int));
    reveal_strlit("expenses");
    reveal_strlit("income");
    reveal_strlit("expenses.json");
    reveal_strlit("income.json");
    reveal_strlit(".json");
    assert(spec_int_str(year as int) == dy);
    assert(spec_int_str(month as int) == dm);
    assert(matches_at(s, 0, s)) by {
        assert(forall|k: int| 0 <= k < s.len() ==> s[0 + k] == #[trigger] s[k]);
    }
    assert(s =~= (dy + seq!['-']) + ((dm + seq!['-']) + (tf + ".json"@)));
    lemma_matches_split(s, 0, dy + seq!['-'], (dm + seq!['-']) + (tf + ".json"@));
    lemma_matches_split(s, 0, dy, seq!['-']);
    let j1 = dy.len() as int;
    lemma_matches_split(s, j1 + 1, dm + seq!['-'], tf + ".json"@);
    lemma_matches_split(s, j1 + 1, dm, seq!['-']);
    let j2 = j1 + 1 + dm.len();
    assert(s[j1 + 0] == seq!['-'][0]);
    assert(s[j1] == '-');
    assert(s[j2 + 0] == seq!['-'][0]);
    assert(s[j2] == '-');
    lemma_parse_digits_at(s, 0, year as nat);
    lemma_parse_digits_at(s, j1 + 1, month as nat);
    assert(matches_at(s, j2 + 1, tf + ".json"@));
    match t {
        TransactionType::Expense => {
            assert(tf + ".json"@ =~= "expenses.json"@);
            lemma_sp_lit_at(s, j2 + 1, "expenses.json"@);
        },
        TransactionType::Income => {
            assert(tf + ".json"@ =~= "income.json"@);
            lemma_sp_lit_at(s, j2 + 1, "income.json"@);
            assert(sp_lit(s, j2 + 1, "expenses.json"@) is None);
        },
    }
}

} // verus!
