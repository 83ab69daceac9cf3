//! The two groupings of a summary cover the same invoices.
//!
//! A year's invoices are split by month and, independently, by client. Both
//! splits are partitions of the year, so the paid sums of the month rows and
//! of the client rows both add up to the year's paid sum, and likewise the
//! unpaid sums.

use vstd::prelude::*;
use crate::summary::Bucket;
use crate::summary::ClientRow;
use crate::summary::InvoiceInfo;
use crate::summary::MonthRow;
use crate::summary::Summary;
use crate::summary::all_valid;
use crate::summary::bucket_sum;
use crate::summary::bucket_terms;
use crate::summary::client_bucket;
use crate::summary::month_bucket;
use crate::summary::summary_of;
use crate::summary::year_bucket;
use crate::text::lemma_lex_irreflexive;

verus! {

/// The sum of `values`.
pub open spec fn sum_ints(values: Seq<int>) -> int
    decreases values.len(),
{
    if values.len() == 0 {
        0
    } else {
        sum_ints(values.drop_last()) + values.last()
    }
}

/// The paid sums of the month rows.
pub open spec fn months_paid(rows: Seq<MonthRow>) -> Seq<int> {
    Seq::new(rows.len(), |i: int| rows[i].paid@)
}

/// The unpaid sums of the month rows.
pub open spec fn months_unpaid(rows: Seq<MonthRow>) -> Seq<int> {
    Seq::new(rows.len(), |i: int| rows[i].unpaid@)
}

/// The paid sums of the client rows.
pub open spec fn clients_paid(rows: Seq<ClientRow>) -> Seq<int> {
    Seq::new(rows.len(), |i: int| rows[i].paid@)
}

/// The unpaid sums of the client rows.
pub open spec fn clients_unpaid(rows: Seq<ClientRow>) -> Seq<int> {
    Seq::new(rows.len(), |i: int| rows[i].unpaid@)
}

/// What `inv` adds to the sum of group `b`.
pub open spec fn held_value(inv: InvoiceInfo, b: Bucket) -> int {
    if b.holds(inv) {
        inv.total@
    } else {
        0
    }
}

/// What `inv` adds to the sums of the groups `keys`, taken together.
pub open spec fn held_values(inv: InvoiceInfo, keys: Seq<Bucket>) -> int
    decreases keys.len(),
{
    if keys.len() == 0 {
        0
    } else {
        held_values(inv, keys.drop_last()) + held_value(inv, keys.last())
    }
}

/// The sums of the groups `keys`, added up.
pub open spec fn buckets_sum(invs: Seq<InvoiceInfo>, keys: Seq<Bucket>) -> int
    decreases keys.len(),
{
    if keys.len() == 0 {
        0
    } else {
        buckets_sum(invs, keys.drop_last()) + bucket_sum(invs, keys.last())
    }
}

/// The groups `keys` split group `g` among the invoices `invs`: each of them
/// lies within `g`, no invoice belongs to two of them, and every invoice of
/// `g` belongs to one.
pub open spec fn splits(invs: Seq<InvoiceInfo>, keys: Seq<Bucket>, g: Bucket) -> bool {
    forall|k: int|
        0 <= k < invs.len() ==> {
            &&& forall|j: int|
                0 <= j < keys.len() && (#[trigger] keys[j]).holds(#[trigger] invs[k])
                    ==> g.holds(invs[k])
            &&& forall|i: int, j: int|
                0 <= i < j < keys.len() ==> !((#[trigger] keys[i]).holds(#[trigger] invs[k]) && (
                #[trigger] keys[j]).holds(invs[k]))
            &&& g.holds(#[trigger] invs[k]) ==> exists|j: int|
                0 <= j < keys.len() && (#[trigger] keys[j]).holds(invs[k])
        }
}

/// An invoice that belongs to none of the groups adds nothing to their sums.
proof fn lemma_held_none(inv: InvoiceInfo, keys: Seq<Bucket>)
    requires
        forall|j: int| 0 <= j < keys.len() ==> !(#[trigger] keys[j]).holds(inv),
    ensures
        held_values(inv, keys) == 0,
    decreases keys.len(),
{
    if keys.len() > 0 {
        let rest = keys.drop_last();
        assert forall|j: int| 0 <= j < rest.len() implies !(#[trigger] rest[j]).holds(inv) by {
            assert(rest[j] == keys[j]);
        }
        lemma_held_none(inv, rest);
        assert(keys.last() == keys[keys.len() - 1]);
    }
}

/// An invoice that belongs to exactly one of the groups adds its total to
/// their sums.
proof fn lemma_held_one(inv: InvoiceInfo, keys: Seq<Bucket>, at: int)
    requires
        0 <= at < keys.len(),
        keys[at].holds(inv),
        forall|j: int| 0 <= j < keys.len() && j != at ==> !(#[trigger] keys[j]).holds(inv),
    ensures
        held_values(inv, keys) == inv.total@,
    decreases keys.len(),
{
    let rest = keys.drop_last();
    assert(keys.last() == keys[keys.len() - 1]);
    if at == keys.len() - 1 {
        assert forall|j: int| 0 <= j < rest.len() implies !(#[trigger] rest[j]).holds(inv) by {
            assert(rest[j] == keys[j]);
        }
        lemma_held_none(inv, rest);
    } else {
        assert(rest[at] == keys[at]);
        assert forall|j: int| 0 <= j < rest.len() && j != at implies !(#[trigger] rest[j]).holds(
            inv,
        ) by {
            assert(rest[j] == keys[j]);
        }
        lemma_held_one(inv, rest, at);
    }
}

/// The last invoice adds its held value to a group's sum.
proof fn lemma_bucket_sum_step(invs: Seq<InvoiceInfo>, b: Bucket)
    requires
        invs.len() > 0,
    ensures
        bucket_sum(invs, b) == bucket_sum(invs.drop_last(), b) + held_value(invs.last(), b),
{
    let terms = bucket_terms(invs, b);
    assert(terms.drop_last() == bucket_terms(invs.drop_last(), b));
    assert(terms.last().0 == held_value(invs.last(), b));
}

/// The last invoice adds its held values to the sums of the groups.
proof fn lemma_buckets_sum_step(invs: Seq<InvoiceInfo>, keys: Seq<Bucket>)
    requires
        invs.len() > 0,
    ensures
        buckets_sum(invs, keys) == buckets_sum(invs.drop_last(), keys) + held_values(
            invs.last(),
            keys,
        ),
    decreases keys.len(),
{
    if keys.len() > 0 {
        lemma_buckets_sum_step(invs, keys.drop_last());
        lemma_bucket_sum_step(invs, keys.last());
    }
}

/// Without invoices all sums are zero.
proof fn lemma_buckets_sum_empty(keys: Seq<Bucket>)
    ensures
        buckets_sum(Seq::<InvoiceInfo>::empty(), keys) == 0,
    decreases keys.len(),
{
    if keys.len() > 0 {
        lemma_buckets_sum_empty(keys.drop_last());
        assert(bucket_terms(Seq::<InvoiceInfo>::empty(), keys.last()) == Seq::<
            (int, nat),
        >::empty());
    }
}

/// Groups that split a group have sums that add up to its sum.
pub proof fn lemma_split_sum(invs: Seq<InvoiceInfo>, keys: Seq<Bucket>, g: Bucket)
    requires
        splits(invs, keys, g),
    ensures
        buckets_sum(invs, keys) == bucket_sum(invs, g),
    decreases invs.len(),
{
    if invs.len() == 0 {
        assert(invs == Seq::<InvoiceInfo>::empty());
        lemma_buckets_sum_empty(keys);
        assert(bucket_terms(invs, g) == Seq::<(int, nat)>::empty());
    } else {
        let rest = invs.drop_last();
        let x = invs.last();
        assert(x == invs[invs.len() - 1]);
        assert forall|k: int| 0 <= k < rest.len() implies {
            &&& forall|j: int|
                0 <= j < keys.len() && (#[trigger] keys[j]).holds(#[trigger] rest[k])
                    ==> g.holds(rest[k])
            &&& forall|i: int, j: int|
                0 <= i < j < keys.len() ==> !((#[trigger] keys[i]).holds(#[trigger] rest[k]) && (
                #[trigger] keys[j]).holds(rest[k]))
            &&& g.holds(#[trigger] rest[k]) ==> exists|j: int|
                0 <= j < keys.len() && (#[trigger] keys[j]).holds(rest[k])
        } by {
            assert(rest[k] == invs[k]);
        }
        lemma_split_sum(rest, keys, g);
        lemma_buckets_sum_step(invs, keys);
        lemma_bucket_sum_step(invs, g);
        if g.holds(x) {
            let at = choose|j: int| 0 <= j < keys.len() && (#[trigger] keys[j]).holds(x);
            assert forall|j: int| 0 <= j < keys.len() && j != at implies !(#[trigger] keys[j]).holds(
                x,
            ) by {
                if j < at {
                    assert(!(keys[j].holds(x) && keys[at].holds(x)));
                } else {
                    assert(!(keys[at].holds(x) && keys[j].holds(x)));
                }
            }
            lemma_held_one(x, keys, at);
        } else {
            lemma_held_none(x, keys);
        }
    }
}

/// Values that are the sums of the groups `keys`, one by one, add up to the
/// sums of the groups added up.
proof fn lemma_values_sum(values: Seq<int>, invs: Seq<InvoiceInfo>, keys: Seq<Bucket>)
    requires
        values.len() == keys.len(),
        forall|i: int| 0 <= i < values.len() ==> #[trigger] values[i] == bucket_sum(invs, keys[i]),
    ensures
        sum_ints(values) == buckets_sum(invs, keys),
    decreases values.len(),
{
    if values.len() > 0 {
        let v0 = values.drop_last();
        let k0 = keys.drop_last();
        assert forall|i: int| 0 <= i < v0.len() implies #[trigger] v0[i] == bucket_sum(
            invs,
            k0[i],
        ) by {
            assert(v0[i] == values[i]);
            assert(k0[i] == keys[i]);
        }
        lemma_values_sum(v0, invs, k0);
        assert(values.last() == values[values.len() - 1]);
        assert(keys.last() == keys[keys.len() - 1]);
    }
}

/// The groups of the month rows, narrowed to a paid flag.
pub open spec fn month_keys(rows: Seq<MonthRow>, year: int, paid: bool) -> Seq<Bucket> {
    Seq::new(rows.len(), |i: int| month_bucket(year, rows[i].month as int).with_paid(Some(paid)))
}

/// The groups of the client rows, narrowed to a paid flag.
pub open spec fn client_keys(rows: Seq<ClientRow>, year: int, paid: bool) -> Seq<Bucket> {
    Seq::new(rows.len(), |i: int| client_bucket(year, rows[i].name@).with_paid(Some(paid)))
}

/// The months of a summary split the year.
proof fn lemma_months_split(s: Summary, invs: Seq<InvoiceInfo>, year: int, paid: bool)
    requires
        all_valid(invs),
        summary_of(s, invs, year),
    ensures
        splits(invs, month_keys(s.months@, year, paid), year_bucket(year).with_paid(Some(paid))),
{
    let rows = s.months@;
    let keys = month_keys(rows, year, paid);
    let g = year_bucket(year).with_paid(Some(paid));
    assert forall|k: int| 0 <= k < invs.len() implies {
        &&& forall|j: int|
            0 <= j < keys.len() && (#[trigger] keys[j]).holds(#[trigger] invs[k]) ==> g.holds(
                invs[k],
            )
        &&& forall|i: int, j: int|
            0 <= i < j < keys.len() ==> !((#[trigger] keys[i]).holds(#[trigger] invs[k]) && (
            #[trigger] keys[j]).holds(invs[k]))
        &&& g.holds(#[trigger] invs[k]) ==> exists|j: int|
            0 <= j < keys.len() && (#[trigger] keys[j]).holds(invs[k])
    } by {
        let x = invs[k];
        assert forall|i: int, j: int| 0 <= i < j < keys.len() implies !((#[trigger] keys[i]).holds(
            x,
        ) && (#[trigger] keys[j]).holds(x)) by {
            assert(rows[i].month > rows[j].month);
        }
        if g.holds(x) {
            let m = x.date@.1;
            assert(x.date.valid());
            assert(month_bucket(year, m).holds(invs[k]));
            assert(crate::summary::bucket_used(invs, month_bucket(year, m)));
            let j = choose|j: int| 0 <= j < rows.len() && (#[trigger] rows[j]).month == m;
            assert(keys[j].holds(x));
        }
    }
}

/// The clients of a summary split the year.
proof fn lemma_clients_split(s: Summary, invs: Seq<InvoiceInfo>, year: int, paid: bool)
    requires
        summary_of(s, invs, year),
    ensures
        splits(invs, client_keys(s.clients@, year, paid), year_bucket(year).with_paid(Some(paid))),
{
    let rows = s.clients@;
    let keys = client_keys(rows, year, paid);
    let g = year_bucket(year).with_paid(Some(paid));
    assert forall|k: int| 0 <= k < invs.len() implies {
        &&& forall|j: int|
            0 <= j < keys.len() && (#[trigger] keys[j]).holds(#[trigger] invs[k]) ==> g.holds(
                invs[k],
            )
        &&& forall|i: int, j: int|
            0 <= i < j < keys.len() ==> !((#[trigger] keys[i]).holds(#[trigger] invs[k]) && (
            #[trigger] keys[j]).holds(invs[k]))
        &&& g.holds(#[trigger] invs[k]) ==> exists|j: int|
            0 <= j < keys.len() && (#[trigger] keys[j]).holds(invs[k])
    } by {
        let x = invs[k];
        assert forall|i: int, j: int| 0 <= i < j < keys.len() implies !((#[trigger] keys[i]).holds(
            x,
        ) && (#[trigger] keys[j]).holds(x)) by {
            if rows[i].name@ == rows[j].name@ {
                assert(crate::summary::row_before(rows[i], rows[j]));
                assert(crate::summary::client_row_of(rows[i], invs, year));
                assert(crate::summary::client_row_of(rows[j], invs, year));
                lemma_lex_irreflexive(rows[i].name@);
            }
        }
        if g.holds(x) {
            assert(year_bucket(year).holds(invs[k]));
            let j = choose|j: int| 0 <= j < rows.len() && (#[trigger] rows[j]).name@ == x.client@;
            assert(keys[j].holds(x));
        }
    }
}

/// The month rows and the client rows of a summary group the same invoices:
/// the paid sums of the month rows and the paid sums of the client rows both
/// add up to the year's paid sum, and the unpaid sums to the year's unpaid
/// sum.
pub proof fn lemma_groupings_agree(s: Summary, invs: Seq<InvoiceInfo>, year: int)
    requires
        all_valid(invs),
        summary_of(s, invs, year),
    ensures
        sum_ints(months_paid(s.months@)) == sum_ints(clients_paid(s.clients@)),
        sum_ints(months_unpaid(s.months@)) == sum_ints(clients_unpaid(s.clients@)),
        sum_ints(months_paid(s.months@)) == s.paid@,
        sum_ints(months_unpaid(s.months@)) == s.unpaid@,
{
    let g = year_bucket(year);
    lemma_months_split(s, invs, year, true);
    lemma_months_split(s, invs, year, false);
    lemma_clients_split(s, invs, year, true);
    lemma_clients_split(s, invs, year, false);
    lemma_split_sum(invs, month_keys(s.months@, year, true), g.with_paid(Some(true)));
    lemma_split_sum(invs, month_keys(s.months@, year, false), g.with_paid(Some(false)));
    lemma_split_sum(invs, client_keys(s.clients@, year, true), g.with_paid(Some(true)));
    lemma_split_sum(invs, client_keys(s.clients@, year, false), g.with_paid(Some(false)));
    assert forall|i: int| 0 <= i < s.months@.len() implies #[trigger] months_paid(s.months@)[i]
        == bucket_sum(invs, month_keys(s.months@, year, true)[i]) && months_unpaid(s.months@)[i]
        == bucket_sum(invs, month_keys(s.months@, year, false)[i]) by {
        assert(crate::summary::month_row_of(s.months@[i], invs, year));
    }
    assert forall|i: int| 0 <= i < s.clients@.len() implies #[trigger] clients_paid(s.clients@)[i]
        == bucket_sum(invs, client_keys(s.clients@, year, true)[i]) && clients_unpaid(
        s.clients@,
    )[i] == bucket_sum(invs, client_keys(s.clients@, year, false)[i]) by {
        assert(crate::summary::client_row_of(s.clients@[i], invs, year));
    }
    lemma_values_sum(months_paid(s.months@), invs, month_keys(s.months@, year, true));
    lemma_values_sum(months_unpaid(s.months@), invs, month_keys(s.months@, year, false));
    lemma_values_sum(clients_paid(s.clients@), invs, client_keys(s.clients@, year, true));
    lemma_values_sum(clients_unpaid(s.clients@), invs, client_keys(s.clients@, year, false));
}

} // verus!
