//! Yearly summaries of the ledger.
//!
//! The invoices of one year are grouped twice, by month and by client. Each
//! group carries the sum of its paid and of its unpaid invoices. Sums are
//! exact; they are rounded only where they are shown, by
//! [`Decimal::fixed_text`](crate::decimal::Decimal::fixed_text).

use vstd::prelude::*;
use crate::date::InvoiceDate;
use crate::decimal::Decimal;
use crate::decimal::finest_scale;
use crate::decimal::lemma_finest_scale_bound;
use crate::decimal::lemma_fits_monotonic;
use crate::decimal::lemma_prefix_sum;
use crate::decimal::lemma_scale_split;
use crate::decimal::lemma_sum_pointwise;
use crate::decimal::lemma_sum_split;
use crate::decimal::sum_fits;
use crate::decimal::sum_values;
use crate::extract::AMOUNT_PATTERN;
use crate::extract::CLIENT_PATTERN;
use crate::extract::InvoiceFacts;
use crate::extract::PAID_PATTERN;
use crate::extract::TAX_RATE_PATTERN;
use crate::extract::extract_facts;
use crate::extract::facts_agree;
use crate::extract::total_in_range;
use crate::ident::DATE_PATTERN;
use crate::ident::captured_date;
use crate::ident::date_of_file_name;
use crate::partition::clients_paid;
use crate::partition::clients_unpaid;
use crate::partition::lemma_groupings_agree;
use crate::partition::months_paid;
use crate::partition::months_unpaid;
use crate::partition::sum_ints;
use crate::pattern::all_captures;
use crate::pattern::first_capture;
use crate::text::lemma_lex_total;
use crate::text::lemma_lex_transitive;
use crate::text::lex_less;
use crate::text::lex_less_exec;
use crate::text::to_chars;

verus! {

/// One invoice as a summary sees it.
#[derive(Clone, Debug)]
pub struct InvoiceInfo {
    /// The date embedded in the invoice's identifier.
    pub date: InvoiceDate,
    /// The invoice's total, tax included.
    pub total: Decimal,
    /// Whether the invoice is paid.
    pub is_paid: bool,
    /// The client's display name.
    pub client: String,
}

/// A rendered document as a scan hands it over.
#[derive(Clone, Debug)]
pub struct SourceText {
    /// The file's name, without its directory.
    pub file_name: String,
    /// The file's text; `None` where it could not be read.
    pub text: Option<String>,
}

/// The document named `file_name` with the text `text` tells an invoice: its
/// name shows a date, and its total can be held.
pub open spec fn tells_invoice(file_name: Seq<char>, text: Seq<char>) -> bool {
    &&& captured_date(first_capture(DATE_PATTERN@, file_name)) is Some
    &&& total_in_range(
        all_captures(AMOUNT_PATTERN@, text),
        first_capture(TAX_RATE_PATTERN@, text),
    )
}

/// `info` is the invoice that the document named `file_name` with the text
/// `text` tells: it is dated as the name says and has the facts of the text.
pub open spec fn info_agrees(info: InvoiceInfo, file_name: Seq<char>, text: Seq<char>) -> bool {
    &&& captured_date(first_capture(DATE_PATTERN@, file_name)) == Some(info.date@)
    &&& info.date.valid()
    &&& facts_agree(
        InvoiceFacts { total: info.total, is_paid: info.is_paid, client: info.client },
        all_captures(AMOUNT_PATTERN@, text),
        first_capture(TAX_RATE_PATTERN@, text),
        first_capture(PAID_PATTERN@, text),
        first_capture(CLIENT_PATTERN@, text),
    )
}

/// The source `source` could be read and tells an invoice.
pub open spec fn source_tells(source: SourceText) -> bool {
    source.text matches Some(text) && tells_invoice(source.file_name@, text@)
}

/// `infos` are the invoices told by `sources`, in their order; sources that
/// could not be read, or that tell no invoice, are passed over.
pub open spec fn gathered(sources: Seq<SourceText>, infos: Seq<InvoiceInfo>) -> bool
    decreases sources.len(),
{
    if sources.len() == 0 {
        infos.len() == 0
    } else if source_tells(sources.last()) {
        &&& infos.len() > 0
        &&& info_agrees(infos.last(), sources.last().file_name@, sources.last().text->0@)
        &&& gathered(sources.drop_last(), infos.drop_last())
    } else {
        gathered(sources.drop_last(), infos)
    }
}

/// The invoice that the document named `file_name` with the text `text`
/// tells, if it tells one.
pub fn read_invoice(file_name: &str, text: &str) -> (r: Option<InvoiceInfo>)
    ensures
        match r {
            Some(info) => tells_invoice(file_name@, text@) && info_agrees(
                info,
                file_name@,
                text@,
            ),
            None => !tells_invoice(file_name@, text@),
        },
{
    let date = match date_of_file_name(file_name) {
        Some(d) => d,
        None => {
            return None;
        },
    };
    match extract_facts(text) {
        Ok(facts) => Some(
            InvoiceInfo {
                date,
                total: facts.total,
                is_paid: facts.is_paid,
                client: facts.client,
            },
        ),
        Err(_) => None,
    }
}

/// The invoices told by `sources`. A source that could not be read, or that
/// tells no invoice, is passed over and does not keep the others from being
/// read.
pub fn gather_invoices(sources: &Vec<SourceText>) -> (infos: Vec<InvoiceInfo>)
    ensures
        gathered(sources@, infos@),
{
    let mut infos: Vec<InvoiceInfo> = Vec::new();
    let mut k: usize = 0;
    proof {
        assert(sources@.take(0).len() == 0);
    }
    while k < sources.len()
        invariant
            k <= sources.len(),
            gathered(sources@.take(k as int), infos@),
        decreases sources.len() - k,
    {
        let source = &sources[k];
        let ghost before = infos@;
        proof {
            assert(sources@.take(k + 1).drop_last() == sources@.take(k as int));
            assert(sources@.take(k + 1).last() == sources@[k as int]);
        }
        match &source.text {
            Some(text) => {
                match read_invoice(source.file_name.as_str(), text.as_str()) {
                    Some(info) => {
                        infos.push(info);
                        proof {
                            assert(infos@.drop_last() == before);
                            assert(infos@.last() == info);
                        }
                    },
                    None => {},
                }
            },
            None => {},
        }
        k += 1;
    }
    proof {
        assert(sources@.take(k as int) == sources@);
    }
    infos
}

/// A group of invoices: those of one year, narrowed to a month, to a client,
/// to the paid or to the unpaid ones, where these are given.
pub struct Bucket {
    pub year: int,
    pub month: Option<int>,
    pub client: Option<Seq<char>>,
    pub paid: Option<bool>,
}

impl Bucket {
    /// Whether `inv` belongs to the group.
    pub open spec fn holds(self, inv: InvoiceInfo) -> bool {
        &&& inv.date@.0 == self.year
        &&& self.month matches Some(m) ==> inv.date@.1 == m
        &&& self.client matches Some(c) ==> inv.client@ == c
        &&& self.paid matches Some(p) ==> inv.is_paid == p
    }

    /// The group narrowed, or widened, to the given paid flag.
    pub open spec fn with_paid(self, paid: Option<bool>) -> Bucket {
        Bucket { year: self.year, month: self.month, client: self.client, paid }
    }
}

/// All invoices of a year.
pub open spec fn year_bucket(year: int) -> Bucket {
    Bucket { year, month: None, client: None, paid: None }
}

/// The invoices of one month of a year.
pub open spec fn month_bucket(year: int, month: int) -> Bucket {
    Bucket { year, month: Some(month), client: None, paid: None }
}

/// The invoices of one client in a year.
pub open spec fn client_bucket(year: int, name: Seq<char>) -> Bucket {
    Bucket { year, month: None, client: Some(name), paid: None }
}

/// What each invoice adds to the sum of group `b`: its total where it
/// belongs to the group, nothing where it does not.
pub open spec fn bucket_terms(invs: Seq<InvoiceInfo>, b: Bucket) -> Seq<(int, nat)> {
    Seq::new(
        invs.len(),
        |i: int|
            if b.holds(invs[i]) {
                (invs[i].total@, invs[i].total.spec_scale())
            } else {
                (0int, 0nat)
            },
    )
}

/// The sum of the totals of the invoices of group `b`, in units of `10^-38`.
pub open spec fn bucket_sum(invs: Seq<InvoiceInfo>, b: Bucket) -> int {
    sum_values(bucket_terms(invs, b))
}

/// The largest number of fractional digits among the totals of group `b`.
pub open spec fn bucket_scale(invs: Seq<InvoiceInfo>, b: Bucket) -> nat {
    finest_scale(bucket_terms(invs, b))
}

/// The sum of group `b` can be held at the finest scale among its totals.
pub open spec fn bucket_fits(invs: Seq<InvoiceInfo>, b: Bucket) -> bool {
    sum_fits(bucket_terms(invs, b))
}

/// Group `b` has at least one invoice.
pub open spec fn bucket_used(invs: Seq<InvoiceInfo>, b: Bucket) -> bool {
    exists|i: int| 0 <= i < invs.len() && b.holds(#[trigger] invs[i])
}

/// The dates and totals of all invoices are valid.
pub open spec fn all_valid(invs: Seq<InvoiceInfo>) -> bool {
    forall|i: int|
        0 <= i < invs.len() ==> (#[trigger] invs[i]).date.valid() && invs[i].total.valid()
            && invs[i].total@ >= 0
}

/// The first `k` of `terms` sum to what can be held at their finest scale.
pub open spec fn fits_at(terms: Seq<(int, nat)>, k: int) -> bool {
    sum_fits(terms.take(k))
}

/// A group within another sums to no more, at no finer a scale; where the
/// wider group's sum can be held, so can the narrower's.
pub proof fn lemma_sub_bucket(invs: Seq<InvoiceInfo>, b: Bucket, g: Bucket)
    requires
        all_valid(invs),
        forall|inv: InvoiceInfo| b.holds(inv) ==> g.holds(inv),
    ensures
        0 <= bucket_sum(invs, b) <= bucket_sum(invs, g),
        bucket_scale(invs, b) <= bucket_scale(invs, g) <= 38,
        bucket_fits(invs, g) ==> bucket_fits(invs, b),
{
    let tb = bucket_terms(invs, b);
    let tg = bucket_terms(invs, g);
    assert forall|i: int| 0 <= i < tb.len() implies (#[trigger] tb[i]).0 <= tg[i].0 && tb[i].1
        <= tg[i].1 by {
        assert(invs[i].total@ >= 0);
    }
    lemma_sum_pointwise(tb, tg);
    assert forall|i: int| 0 <= i < tg.len() implies (#[trigger] tg[i]).1 <= 38 by {
        assert(invs[i].total.valid());
    }
    lemma_finest_scale_bound(tg);
    assert forall|i: int| 0 <= i < tb.len() implies (#[trigger] tb[i]).0 >= 0 by {
        assert(invs[i].total@ >= 0);
    }
    lemma_prefix_sum(tb, 0);
    assert(tb.take(0) == Seq::<(int, nat)>::empty());
    if bucket_fits(invs, g) {
        lemma_fits_monotonic(
            bucket_sum(invs, b),
            bucket_scale(invs, b),
            bucket_sum(invs, g),
            bucket_scale(invs, g),
        );
    }
}

/// A group's sum is the sum of its paid and of its unpaid invoices, and its
/// finest scale the finer of theirs.
pub proof fn lemma_paid_split(invs: Seq<InvoiceInfo>, b: Bucket)
    requires
        b.paid is None,
    ensures
        bucket_sum(invs, b) == bucket_sum(invs, b.with_paid(Some(true))) + bucket_sum(
            invs,
            b.with_paid(Some(false)),
        ),
        bucket_scale(invs, b) == crate::decimal::max_nat(
            bucket_scale(invs, b.with_paid(Some(true))),
            bucket_scale(invs, b.with_paid(Some(false))),
        ),
{
    let whole = bucket_terms(invs, b);
    let paid = bucket_terms(invs, b.with_paid(Some(true)));
    let unpaid = bucket_terms(invs, b.with_paid(Some(false)));
    lemma_sum_split(whole, paid, unpaid);
    lemma_scale_split(whole, paid, unpaid);
}

/// The paid, the unpaid and the combined sum of one group.
#[derive(Clone, Copy, Debug)]
pub struct Sums {
    pub paid: Decimal,
    pub unpaid: Decimal,
    pub total: Decimal,
}

/// `s` holds the sums of group `b`, each at the finest scale among the totals
/// it sums.
pub open spec fn sums_of(s: Sums, invs: Seq<InvoiceInfo>, b: Bucket) -> bool {
    &&& s.paid@ == bucket_sum(invs, b.with_paid(Some(true)))
    &&& s.unpaid@ == bucket_sum(invs, b.with_paid(Some(false)))
    &&& s.total@ == bucket_sum(invs, b.with_paid(None))
    &&& s.total@ == s.paid@ + s.unpaid@
    &&& s.paid.spec_scale() == bucket_scale(invs, b.with_paid(Some(true)))
    &&& s.unpaid.spec_scale() == bucket_scale(invs, b.with_paid(Some(false)))
    &&& s.total.spec_scale() == bucket_scale(invs, b.with_paid(None))
}

/// The executable form of a [`Bucket`] that is open as to the paid flag.
pub(crate) struct Selector {
    pub year: i32,
    pub month: Option<u8>,
    pub client: Option<String>,
}

impl Selector {
    /// The group selected, narrowed to the given paid flag.
    pub(crate) open spec fn bucket(&self, paid: Option<bool>) -> Bucket {
        Bucket {
            year: self.year as int,
            month: match self.month {
                Some(m) => Some(m as int),
                None => None,
            },
            client: match self.client {
                Some(c) => Some(c@),
                None => None,
            },
            paid,
        }
    }

    /// Whether `inv` belongs to the group.
    pub(crate) fn holds(&self, inv: &InvoiceInfo, paid: Option<bool>) -> (r: bool)
        ensures
            r == self.bucket(paid).holds(*inv),
            inv.date.valid(),
            inv.total.valid(),
            inv.total@ >= 0,
    {
        proof {
            inv.total.lemma_fits();
        }
        let s = inv.total.scale();
        if inv.date.year() as i32 != self.year {
            return false;
        }
        match self.month {
            Some(m) => {
                if inv.date.month() != m {
                    return false;
                }
            },
            None => {},
        }
        match &self.client {
            Some(c) => {
                if inv.client != *c {
                    return false;
                }
            },
            None => {},
        }
        match paid {
            Some(p) => {
                if inv.is_paid != p {
                    return false;
                }
            },
            None => {},
        }
        true
    }

    /// Whether the group has at least one invoice.
    pub(crate) fn used(&self, invs: &Vec<InvoiceInfo>) -> (r: bool)
        ensures
            r == bucket_used(invs@, self.bucket(None)),
    {
        let mut i: usize = 0;
        while i < invs.len()
            invariant
                i <= invs.len(),
                forall|j: int| 0 <= j < i ==> !self.bucket(None).holds(#[trigger] invs@[j]),
            decreases invs.len() - i,
        {
            if self.holds(&invs[i], None) {
                return true;
            }
            i += 1;
        }
        false
    }

    /// The sum of the totals of the group's invoices with the given paid
    /// flag; `None` where it cannot be held at the finest scale among them.
    pub(crate) fn total(&self, invs: &Vec<InvoiceInfo>, paid: Option<bool>) -> (r: Option<Decimal>)
        ensures
            all_valid(invs@),
            r is Some <==> bucket_fits(invs@, self.bucket(paid)),
            r matches Some(d) ==> d@ == bucket_sum(invs@, self.bucket(paid)) && d.spec_scale()
                == bucket_scale(invs@, self.bucket(paid)) && d.valid(),
    {
        let ghost terms = bucket_terms(invs@, self.bucket(paid));
        let mut acc = Decimal::zero();
        let mut failed = false;
        let mut k: usize = 0;
        proof {
            assert(terms.take(0) == Seq::<(int, nat)>::empty());
        }
        while k < invs.len()
            invariant
                k <= invs.len(),
                terms == bucket_terms(invs@, self.bucket(paid)),
                terms.len() == invs.len(),
                forall|i: int|
                    0 <= i < k ==> (#[trigger] invs@[i]).date.valid() && invs@[i].total.valid()
                        && invs@[i].total@ >= 0,
                !failed ==> acc@ == sum_values(terms.take(k as int)),
                !failed ==> acc.spec_scale() == finest_scale(terms.take(k as int)),
                acc.valid(),
                failed ==> exists|j: int| 0 <= j <= k && !fits_at(terms, j),
            decreases invs.len() - k,
        {
            let inv = &invs[k];
            let held = self.holds(inv, paid);
            proof {
                assert(terms.take(k + 1).drop_last() == terms.take(k as int));
                assert(terms.take(k + 1).last() == terms[k as int]);
            }
            if held && !failed {
                match acc.add(&inv.total) {
                    Some(sum) => {
                        acc = sum;
                    },
                    None => {
                        failed = true;
                        assert(!fits_at(terms, k + 1));
                    },
                }
            } else if !failed {
                assert(terms[k as int] == (0int, 0nat));
            }
            k += 1;
        }
        proof {
            assert(terms.take(k as int) == terms);
            assert forall|i: int| 0 <= i < terms.len() implies (#[trigger] terms[i]).0 >= 0 by {
                assert(invs@[i].total@ >= 0);
            }
            assert forall|i: int| 0 <= i < terms.len() implies (#[trigger] terms[i]).1 <= 38 by {
                assert(invs@[i].total.valid());
            }
            lemma_finest_scale_bound(terms);
            if failed {
                let j = choose|j: int| 0 <= j <= k && !fits_at(terms, j);
                lemma_prefix_sum(terms, j);
                if sum_fits(terms) {
                    lemma_fits_monotonic(
                        sum_values(terms.take(j)),
                        finest_scale(terms.take(j)),
                        sum_values(terms),
                        finest_scale(terms),
                    );
                }
            } else {
                acc.lemma_fits();
            }
        }
        if failed {
            None
        } else {
            Some(acc)
        }
    }

    /// The paid, unpaid and combined sums of the group; `None` where the
    /// combined sum cannot be held at the finest scale among its totals.
    pub(crate) fn sums(&self, invs: &Vec<InvoiceInfo>) -> (r: Option<Sums>)
        ensures
            all_valid(invs@),
            r is Some <==> bucket_fits(invs@, self.bucket(None)),
            r matches Some(s) ==> sums_of(s, invs@, self.bucket(None)),
    {
        let paid = self.total(invs, Some(true));
        let unpaid = self.total(invs, Some(false));
        proof {
            let b = self.bucket(None);
            assert(b.with_paid(Some(true)) == self.bucket(Some(true)));
            assert(b.with_paid(Some(false)) == self.bucket(Some(false)));
            assert(b.with_paid(None) == b);
            lemma_paid_split(invs@, b);
            lemma_sub_bucket(invs@, self.bucket(Some(true)), b);
            lemma_sub_bucket(invs@, self.bucket(Some(false)), b);
        }
        match (paid, unpaid) {
            (Some(p), Some(u)) => match p.add(&u) {
                Some(t) => {
                    proof {
                        t.lemma_fits();
                    }
                    Some(Sums { paid: p, unpaid: u, total: t })
                },
                None => None,
            },
            _ => None,
        }
    }
}

/// The sums of one month that has invoices.
#[derive(Clone, Copy, Debug)]
pub struct MonthRow {
    /// The month, from 1 to 12.
    pub month: u8,
    pub paid: Decimal,
    pub unpaid: Decimal,
    /// Paid and unpaid together.
    pub total: Decimal,
}

/// The sums of one client.
#[derive(Clone, Debug)]
pub struct ClientRow {
    /// The client's display name.
    pub name: String,
    pub paid: Decimal,
    pub unpaid: Decimal,
    /// Paid and unpaid together.
    pub total: Decimal,
}

/// The summary of one year.
#[derive(Clone, Debug)]
pub struct Summary {
    pub year: i32,
    /// One row for each month that has invoices, the latest month first.
    pub months: Vec<MonthRow>,
    /// One row for each client, the largest combined sum first; clients
    /// with equal sums stand in the order of their names.
    pub clients: Vec<ClientRow>,
    /// The sum of all paid invoices of the year.
    pub paid: Decimal,
    /// The sum of all unpaid invoices of the year.
    pub unpaid: Decimal,
    /// Paid and unpaid together.
    pub total: Decimal,
}

/// Why a year could not be summarised.
#[derive(Clone, Copy, Debug, PartialEq, Eq, Structural)]
pub enum SummaryError {
    /// The sum of the year's invoices is too long to be held exactly.
    Overflow,
}

impl MonthRow {
    /// The three sums of the row.
    pub open spec fn sums(self) -> Sums {
        Sums { paid: self.paid, unpaid: self.unpaid, total: self.total }
    }
}

impl ClientRow {
    /// The three sums of the row.
    pub open spec fn sums(self) -> Sums {
        Sums { paid: self.paid, unpaid: self.unpaid, total: self.total }
    }
}

impl Summary {
    /// The three sums of the year.
    pub open spec fn sums(self) -> Sums {
        Sums { paid: self.paid, unpaid: self.unpaid, total: self.total }
    }
}

/// `row` is the row of a month of `year` that has invoices.
pub open spec fn month_row_of(row: MonthRow, invs: Seq<InvoiceInfo>, year: int) -> bool {
    &&& 1 <= row.month <= 12
    &&& bucket_used(invs, month_bucket(year, row.month as int))
    &&& sums_of(row.sums(), invs, month_bucket(year, row.month as int))
}

/// `row` is the row of a client who has invoices in `year`.
pub open spec fn client_row_of(row: ClientRow, invs: Seq<InvoiceInfo>, year: int) -> bool {
    &&& bucket_used(invs, client_bucket(year, row.name@))
    &&& sums_of(row.sums(), invs, client_bucket(year, row.name@))
}

/// `a` stands before `b` among the client rows: it has the larger combined
/// sum, or the same sum and the earlier name.
pub open spec fn row_before(a: ClientRow, b: ClientRow) -> bool {
    a.total@ > b.total@ || (a.total@ == b.total@ && lex_less(a.name@, b.name@))
}

/// Each row stands before all that follow it.
pub open spec fn rows_ordered(rows: Seq<ClientRow>) -> bool {
    forall|i: int, j: int|
        0 <= i < j < rows.len() ==> row_before(#[trigger] rows[i], #[trigger] rows[j])
}

/// `rows` are the rows of the months of `year` that have invoices, the
/// latest month first.
pub open spec fn month_rows_of(rows: Seq<MonthRow>, invs: Seq<InvoiceInfo>, year: int) -> bool {
    &&& forall|i: int| 0 <= i < rows.len() ==> month_row_of(#[trigger] rows[i], invs, year)
    &&& forall|i: int, j: int|
        0 <= i < j < rows.len() ==> (#[trigger] rows[i]).month > (#[trigger] rows[j]).month
    &&& forall|m: int|
        1 <= m <= 12 && #[trigger] bucket_used(invs, month_bucket(year, m)) ==> exists|i: int|
            0 <= i < rows.len() && (#[trigger] rows[i]).month == m
}

/// `rows` are the rows of the clients who have invoices in `year`, in their
/// order.
pub open spec fn client_rows_of(rows: Seq<ClientRow>, invs: Seq<InvoiceInfo>, year: int) -> bool {
    &&& forall|i: int| 0 <= i < rows.len() ==> client_row_of(#[trigger] rows[i], invs, year)
    &&& rows_ordered(rows)
    &&& forall|k: int|
        0 <= k < invs.len() && year_bucket(year).holds(#[trigger] invs[k]) ==> exists|i: int|
            0 <= i < rows.len() && (#[trigger] rows[i]).name@ == invs[k].client@
}

/// `s` is the summary of `year` over the invoices `invs`.
pub open spec fn summary_of(s: Summary, invs: Seq<InvoiceInfo>, year: int) -> bool {
    &&& s.year == year
    &&& sums_of(s.sums(), invs, year_bucket(year))
    &&& month_rows_of(s.months@, invs, year)
    &&& client_rows_of(s.clients@, invs, year)
}

/// Of two rows with different names one stands before the other.
pub proof fn lemma_row_total(a: ClientRow, b: ClientRow)
    requires
        a.name@ != b.name@,
    ensures
        row_before(a, b) || row_before(b, a),
{
    lemma_lex_total(a.name@, b.name@);
}

/// Standing before is transitive.
pub proof fn lemma_row_transitive(a: ClientRow, b: ClientRow, c: ClientRow)
    requires
        row_before(a, b),
        row_before(b, c),
    ensures
        row_before(a, c),
{
    if a.total@ == b.total@ && b.total@ == c.total@ {
        lemma_lex_transitive(a.name@, b.name@, c.name@);
    }
}

/// Whether `a` stands before `b` among the client rows.
pub(crate) fn row_before_exec(a: &ClientRow, b: &ClientRow) -> (r: bool)
    ensures
        r == row_before(*a, *b),
{
    let a_le_b = a.total.le(&b.total);
    let b_le_a = b.total.le(&a.total);
    if !a_le_b {
        true
    } else if !b_le_a {
        false
    } else {
        let an = to_chars(a.name.as_str());
        let bn = to_chars(b.name.as_str());
        lex_less_exec(&an, &bn)
    }
}

/// Whether one of `rows` has the name `name`.
pub(crate) fn has_client(rows: &Vec<ClientRow>, name: &String) -> (r: bool)
    ensures
        r == exists|i: int| 0 <= i < rows@.len() && (#[trigger] rows@[i]).name@ == name@,
{
    let mut i: usize = 0;
    while i < rows.len()
        invariant
            i <= rows.len(),
            forall|j: int| 0 <= j < i ==> (#[trigger] rows@[j]).name@ != name@,
        decreases rows.len() - i,
    {
        if rows[i].name == *name {
            return true;
        }
        i += 1;
    }
    false
}

/// Puts `row` into the ordered `rows` at its place, and returns that place.
fn insert_row(rows: &mut Vec<ClientRow>, row: ClientRow) -> (p: usize)
    requires
        rows_ordered(old(rows)@),
        forall|i: int| 0 <= i < old(rows)@.len() ==> (#[trigger] old(rows)@[i]).name@ != row.name@,
    ensures
        p <= old(rows)@.len(),
        final(rows)@ == old(rows)@.insert(p as int, row),
        rows_ordered(final(rows)@),
{
    let mut p: usize = 0;
    while p < rows.len() && row_before_exec(&rows[p], &row)
        invariant
            p <= rows.len(),
            *rows == *old(rows),
            forall|i: int| 0 <= i < p ==> row_before(#[trigger] rows@[i], row),
        decreases rows.len() - p,
    {
        p += 1;
    }
    let ghost before = rows@;
    proof {
        assert forall|j: int| p <= j < before.len() implies row_before(
            row,
            #[trigger] before[j],
        ) by {
            lemma_row_total(before[p as int], row);
            if j > p {
                lemma_row_transitive(row, before[p as int], before[j]);
            }
        }
    }
    rows.insert(p, row);
    proof {
        let after = rows@;
        assert forall|i: int, j: int| 0 <= i < j < after.len() implies row_before(
            #[trigger] after[i],
            #[trigger] after[j],
        ) by {
            if j < p {
                assert(after[i] == before[i] && after[j] == before[j]);
            } else if j == p {
                assert(after[i] == before[i] && after[j] == row);
            } else if i < p {
                assert(after[i] == before[i] && after[j] == before[j - 1]);
            } else if i == p {
                assert(after[i] == row && after[j] == before[j - 1]);
            } else {
                assert(after[i] == before[i - 1] && after[j] == before[j - 1]);
            }
        }
    }
    p
}

/// The rows of the months of `year` that have invoices, the latest first.
/// `None` where a month's sum cannot be held.
pub(crate) fn month_rows(year: i32, invs: &Vec<InvoiceInfo>) -> (r: Option<Vec<MonthRow>>)
    ensures
        bucket_fits(invs@, year_bucket(year as int)) ==> r is Some,
        r matches Some(rows) ==> month_rows_of(rows@, invs@, year as int),
{
    let mut rows: Vec<MonthRow> = Vec::new();
    let mut m: u8 = 12;
    while m >= 1
        invariant
            m <= 12,
            forall|i: int|
                0 <= i < rows@.len() ==> month_row_of(#[trigger] rows@[i], invs@, year as int),
            forall|i: int| 0 <= i < rows@.len() ==> (#[trigger] rows@[i]).month > m,
            forall|i: int, j: int|
                0 <= i < j < rows@.len() ==> (#[trigger] rows@[i]).month > (
                #[trigger] rows@[j]).month,
            forall|n: int|
                m < n <= 12 && #[trigger] bucket_used(invs@, month_bucket(year as int, n))
                    ==> exists|i: int| 0 <= i < rows@.len() && (#[trigger] rows@[i]).month == n,
        decreases m,
    {
        let sel = Selector { year, month: Some(m), client: None };
        assert(sel.bucket(None) == month_bucket(year as int, m as int));
        if sel.used(invs) {
            match sel.sums(invs) {
                Some(s) => {
                    let row = MonthRow { month: m, paid: s.paid, unpaid: s.unpaid, total: s.total };
                    let ghost before = rows@;
                    rows.push(row);
                    proof {
                        assert(row.sums() == s);
                        assert(rows@[before.len() as int] == row);
                        assert forall|n: int|
                            m - 1 < n <= 12 && #[trigger] bucket_used(
                                invs@,
                                month_bucket(year as int, n),
                            ) implies exists|i: int|
                            0 <= i < rows@.len() && (#[trigger] rows@[i]).month == n by {
                            if n == m {
                                assert(rows@[before.len() as int].month == n);
                            } else {
                                let i = choose|i: int|
                                    0 <= i < before.len() && (#[trigger] before[i]).month == n;
                                assert(rows@[i] == before[i]);
                            }
                        }
                    }
                },
                None => {
                    proof {
                        if bucket_fits(invs@, year_bucket(year as int)) {
                            lemma_sub_bucket(
                                invs@,
                                month_bucket(year as int, m as int),
                                year_bucket(year as int),
                            );
                        }
                    }
                    return None;
                },
            }
        }
        m -= 1;
    }
    Some(rows)
}

/// The rows of the clients who have invoices in `year`, in their order.
/// `None` where a client's sum cannot be held.
pub(crate) fn client_rows(year: i32, invs: &Vec<InvoiceInfo>) -> (r: Option<Vec<ClientRow>>)
    ensures
        bucket_fits(invs@, year_bucket(year as int)) ==> r is Some,
        r matches Some(rows) ==> client_rows_of(rows@, invs@, year as int),
{
    let all = Selector { year, month: None, client: None };
    assert(all.bucket(None) == year_bucket(year as int));
    let mut rows: Vec<ClientRow> = Vec::new();
    let mut k: usize = 0;
    while k < invs.len()
        invariant
            k <= invs.len(),
            all.bucket(None) == year_bucket(year as int),
            forall|i: int|
                0 <= i < rows@.len() ==> client_row_of(#[trigger] rows@[i], invs@, year as int),
            rows_ordered(rows@),
            forall|n: int|
                0 <= n < k && year_bucket(year as int).holds(#[trigger] invs@[n]) ==> exists|
                    i: int,
                | 0 <= i < rows@.len() && (#[trigger] rows@[i]).name@ == invs@[n].client@,
        decreases invs.len() - k,
    {
        let inv = &invs[k];
        if all.holds(inv, None) && !has_client(&rows, &inv.client) {
            let sel = Selector { year, month: None, client: Some(inv.client.clone()) };
            assert(sel.bucket(None) == client_bucket(year as int, inv.client@));
            match sel.sums(invs) {
                Some(s) => {
                    let row = ClientRow {
                        name: inv.client.clone(),
                        paid: s.paid,
                        unpaid: s.unpaid,
                        total: s.total,
                    };
                    let ghost before = rows@;
                    proof {
                        assert(row.sums() == s);
                        assert(client_bucket(year as int, row.name@).holds(invs@[k as int]));
                    }
                    let p = insert_row(&mut rows, row);
                    proof {
                        let after = rows@;
                        assert(after[p as int] == row);
                        assert forall|i: int| 0 <= i < after.len() implies client_row_of(
                            #[trigger] after[i],
                            invs@,
                            year as int,
                        ) by {
                            if i < p {
                                assert(after[i] == before[i]);
                            } else if i > p {
                                assert(after[i] == before[i - 1]);
                            }
                        }
                        assert forall|n: int|
                            0 <= n < k + 1 && year_bucket(year as int).holds(
                                #[trigger] invs@[n],
                            ) implies exists|i: int|
                            0 <= i < after.len() && (#[trigger] after[i]).name@
                                == invs@[n].client@ by {
                            if n == k {
                                assert(after[p as int].name@ == invs@[n].client@);
                            } else {
                                let i = choose|i: int|
                                    0 <= i < before.len() && (#[trigger] before[i]).name@
                                        == invs@[n].client@;
                                if i < p {
                                    assert(after[i] == before[i]);
                                } else {
                                    assert(after[i + 1] == before[i]);
                                }
                            }
                        }
                    }
                },
                None => {
                    proof {
                        if bucket_fits(invs@, year_bucket(year as int)) {
                            lemma_sub_bucket(
                                invs@,
                                client_bucket(year as int, inv.client@),
                                year_bucket(year as int),
                            );
                        }
                    }
                    return None;
                },
            }
        }
        k += 1;
    }
    Some(rows)
}

/// The summary of `year` over the invoices `invs`: for each month and for
/// each client the sums of its paid and of its unpaid invoices, and the sums
/// of the year. Invoices of other years are left out.
///
/// The two groupings cover the same invoices: the paid sums of the month
/// rows add up to what the paid sums of the client rows add up to, and so do
/// the unpaid sums.
///
/// Fails exactly where the sum of the year's invoices cannot be held at the
/// finest scale among their totals.
pub fn summarize(year: i32, invs: &Vec<InvoiceInfo>) -> (r: Result<Summary, SummaryError>)
    ensures
        r matches Ok(s) ==> sum_ints(months_paid(s.months@)) == sum_ints(clients_paid(s.clients@))
            && sum_ints(months_unpaid(s.months@)) == sum_ints(clients_unpaid(s.clients@)),
        match r {
            Ok(s) => bucket_fits(invs@, year_bucket(year as int)) && summary_of(
                s,
                invs@,
                year as int,
            ),
            Err(_) => !bucket_fits(invs@, year_bucket(year as int)),
        },
{
    let all = Selector { year, month: None, client: None };
    assert(all.bucket(None) == year_bucket(year as int));
    let grand = match all.sums(invs) {
        Some(s) => s,
        None => {
            return Err(SummaryError::Overflow);
        },
    };
    assert(bucket_fits(invs@, year_bucket(year as int)));
    let months = match month_rows(year, invs) {
        Some(rows) => rows,
        None => {
            return Err(SummaryError::Overflow);
        },
    };
    let clients = match client_rows(year, invs) {
        Some(rows) => rows,
        None => {
            return Err(SummaryError::Overflow);
        },
    };
    let summary = Summary {
        year,
        months,
        clients,
        paid: grand.paid,
        unpaid: grand.unpaid,
        total: grand.total,
    };
    proof {
        assert(summary.sums() == grand);
        lemma_groupings_agree(summary, invs@, year as int);
    }
    Ok(summary)
}

} // verus!
