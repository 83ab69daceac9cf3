//! The status of an invoice as its file name tells it, and the views of the
//! ledger that go by it.
//!
//! A document's file stem ends in `_VOID` if the invoice is void, else in
//! `_PAID` if it is paid; any other stem is that of an unpaid invoice. The
//! ledger is whatever a scan of the output tree finds: the scan hands over
//! the file names with their modification times, and the functions here pick
//! from them.

use vstd::prelude::*;
use crate::text::ends_with;
use crate::text::ends_with_exec;
use crate::text::from_chars;
use crate::text::last_index_of;
use crate::text::last_index_of_exec;
use crate::text::lemma_last_index_of;
use crate::text::same_text;
use crate::text::to_chars;

verus! {

/// What ends the stem of a paid invoice's document.
pub const PAID_SUFFIX: &'static str = "_PAID";

/// What ends the stem of a void invoice's document.
pub const VOID_SUFFIX: &'static str = "_VOID";

/// The extension of a rendered document.
pub const SOURCE_EXTENSION: &'static str = "typ";

/// The extension of a compiled document.
pub const BINARY_EXTENSION: &'static str = "pdf";

/// The status of an invoice.
#[derive(Clone, Copy, Debug, PartialEq, Eq, Structural)]
pub enum InvoiceStatus {
    Unpaid,
    Paid,
    /// Void, for good: no status follows it.
    Void,
}

/// A change of status that an operator can ask for.
#[derive(Clone, Copy, Debug, PartialEq, Eq, Structural)]
pub enum Action {
    Pay,
    Unpay,
    Void,
}

/// The status that the file stem `stem` tells.
pub open spec fn status_of(stem: Seq<char>) -> InvoiceStatus {
    if ends_with(stem, VOID_SUFFIX@) {
        InvoiceStatus::Void
    } else if ends_with(stem, PAID_SUFFIX@) {
        InvoiceStatus::Paid
    } else {
        InvoiceStatus::Unpaid
    }
}

/// The stem of the file name `name`: the name up to its last point, or the
/// whole name where it has no point but, at most, a leading one.
pub open spec fn stem_of(name: Seq<char>) -> Seq<char> {
    if last_index_of(name, '.') <= 0 {
        name
    } else {
        name.take(last_index_of(name, '.'))
    }
}

/// The extension of the file name `name`: what follows its last point,
/// unless that point is the name's first character.
pub open spec fn extension_of(name: Seq<char>) -> Option<Seq<char>> {
    if last_index_of(name, '.') <= 0 {
        None
    } else {
        Some(name.skip(last_index_of(name, '.') + 1))
    }
}

/// An invoice with status `status` can be offered for `action`. Unpaid
/// invoices can be paid or voided, paid ones can be unpaid, and, where
/// `void_paid` is set, voided too. A void invoice is offered for nothing.
pub open spec fn is_candidate(status: InvoiceStatus, action: Action, void_paid: bool) -> bool {
    match action {
        Action::Pay => status == InvoiceStatus::Unpaid,
        Action::Unpay => status == InvoiceStatus::Paid,
        Action::Void => status == InvoiceStatus::Unpaid || (void_paid && status
            == InvoiceStatus::Paid),
    }
}

/// The status that a successful `action` leaves an invoice in.
pub open spec fn target_of(action: Action) -> InvoiceStatus {
    match action {
        Action::Pay => InvoiceStatus::Paid,
        Action::Unpay => InvoiceStatus::Unpaid,
        Action::Void => InvoiceStatus::Void,
    }
}

/// What a view of the ledger shows.
#[derive(Clone, Copy, Debug, PartialEq, Eq, Structural)]
pub enum Selection {
    /// The rendered documents of the invoices that can be offered for
    /// `action`.
    Candidates { action: Action, void_paid: bool },
    /// The compiled documents of the invoices that are not void and are
    /// paid, or unpaid, as `paid` says.
    Listed { paid: bool },
    /// The rendered documents of the invoices that are not void.
    Summarized,
}

/// The view `selection` shows the file named `name`.
pub open spec fn selects(selection: Selection, name: Seq<char>) -> bool {
    let status = status_of(stem_of(name));
    match selection {
        Selection::Candidates { action, void_paid } => extension_of(name) == Some(
            SOURCE_EXTENSION@,
        ) && is_candidate(status, action, void_paid),
        Selection::Listed { paid } => extension_of(name) == Some(BINARY_EXTENSION@) && status
            != InvoiceStatus::Void && (status == InvoiceStatus::Paid) == paid,
        Selection::Summarized => extension_of(name) == Some(SOURCE_EXTENSION@) && status
            != InvoiceStatus::Void,
    }
}

/// A file found by a scan of the output tree.
#[derive(Clone, Debug)]
pub struct LedgerEntry {
    /// The file's name, without its directory.
    pub file_name: String,
    /// When the file was last modified, in nanoseconds since the Unix epoch;
    /// `None` where the time could not be had.
    pub modified: Option<i128>,
}

/// The modification time `a` is earlier than `b`; an unknown time is earlier
/// than any known one.
pub open spec fn earlier(a: Option<i128>, b: Option<i128>) -> bool {
    match (a, b) {
        (None, Some(_)) => true,
        (Some(x), Some(y)) => x < y,
        _ => false,
    }
}

/// Entry `i` is offered before entry `j`: it was modified later, or at the
/// same time and found later by the scan.
pub open spec fn offered_before(entries: Seq<LedgerEntry>, i: int, j: int) -> bool {
    earlier(entries[j].modified, entries[i].modified) || (entries[i].modified
        == entries[j].modified && i > j)
}

/// `picks` are the indices of exactly those of `entries` that `selection`
/// shows.
pub open spec fn picks_all(
    picks: Seq<usize>,
    entries: Seq<LedgerEntry>,
    selection: Selection,
) -> bool {
    &&& forall|a: int|
        0 <= a < picks.len() ==> (#[trigger] picks[a]) < entries.len() && selects(
            selection,
            entries[picks[a] as int].file_name@,
        )
    &&& forall|i: int|
        0 <= i < entries.len() && selects(selection, (#[trigger] entries[i]).file_name@)
            ==> exists|a: int| 0 <= a < picks.len() && #[trigger] picks[a] == i
}

/// `picks` stand in the order of the scan.
pub open spec fn in_scan_order(picks: Seq<usize>) -> bool {
    forall|a: int, b: int| 0 <= a < b < picks.len() ==> #[trigger] picks[a] < #[trigger] picks[b]
}

/// `picks` stand in the order in which they are offered: the entry modified
/// last comes first.
pub open spec fn in_offer_order(picks: Seq<usize>, entries: Seq<LedgerEntry>) -> bool {
    forall|a: int, b: int|
        0 <= a < b < picks.len() ==> offered_before(
            entries,
            #[trigger] picks[a] as int,
            #[trigger] picks[b] as int,
        )
}

/// The status that the file stem `stem` tells.
pub fn status_of_stem(stem: &str) -> (r: InvoiceStatus)
    ensures
        r == status_of(stem@),
{
    let chars = to_chars(stem);
    status_of_chars(&chars)
}

/// The status that the file stem `stem` tells.
pub(crate) fn status_of_chars(stem: &Vec<char>) -> (r: InvoiceStatus)
    ensures
        r == status_of(stem@),
{
    let void = to_chars(VOID_SUFFIX);
    let paid = to_chars(PAID_SUFFIX);
    if ends_with_exec(stem, &void) {
        InvoiceStatus::Void
    } else if ends_with_exec(stem, &paid) {
        InvoiceStatus::Paid
    } else {
        InvoiceStatus::Unpaid
    }
}

/// Whether an invoice with status `status` can be offered for `action`.
pub fn candidate_for(status: InvoiceStatus, action: Action, void_paid: bool) -> (r: bool)
    ensures
        r == is_candidate(status, action, void_paid),
{
    match action {
        Action::Pay => status == InvoiceStatus::Unpaid,
        Action::Unpay => status == InvoiceStatus::Paid,
        Action::Void => status == InvoiceStatus::Unpaid || (void_paid && status
            == InvoiceStatus::Paid),
    }
}

/// The stem and the extension of the file name `name`.
pub(crate) fn split_chars(name: &Vec<char>) -> (r: (Vec<char>, Option<Vec<char>>))
    ensures
        r.0@ == stem_of(name@),
        r.1.deep_view() == extension_of(name@),
{
    proof {
        lemma_last_index_of(name@, '.');
    }
    match last_index_of_exec(name, '.') {
        Some(p) => {
            if p == 0 {
                (name.clone(), None)
            } else {
                let mut stem: Vec<char> = Vec::new();
                let mut i: usize = 0;
                while i < p
                    invariant
                        i <= p < name.len(),
                        stem@ == name@.take(i as int),
                    decreases p - i,
                {
                    stem.push(name[i]);
                    i += 1;
                }
                let mut ext: Vec<char> = Vec::new();
                let mut j: usize = p + 1;
                while j < name.len()
                    invariant
                        p + 1 <= j <= name.len(),
                        ext@ == name@.subrange(p + 1, j as int),
                    decreases name.len() - j,
                {
                    ext.push(name[j]);
                    j += 1;
                }
                assert(name@.subrange(p + 1, name.len() as int) == name@.skip(p + 1));
                let r = (stem, Some(ext));
                assert(r.1.deep_view() == Some(ext@));
                r
            }
        },
        None => (name.clone(), None),
    }
}

/// The stem and the extension of the file name `name`.
pub fn split_file_name(name: &str) -> (r: (String, Option<String>))
    ensures
        r.0@ == stem_of(name@),
        r.1.deep_view() == extension_of(name@),
{
    let chars = to_chars(name);
    let (stem, ext) = split_chars(&chars);
    let extension = match ext {
        Some(e) => Some(from_chars(&e)),
        None => None,
    };
    (from_chars(&stem), extension)
}

/// Whether the view `selection` shows the file named `name`.
pub fn shows(selection: Selection, name: &str) -> (r: bool)
    ensures
        r == selects(selection, name@),
{
    let chars = to_chars(name);
    let (stem, ext) = split_chars(&chars);
    let status = status_of_chars(&stem);
    let extension = match ext {
        Some(e) => e,
        None => {
            return false;
        },
    };
    assert(extension_of(name@) == Some(extension@));
    match selection {
        Selection::Candidates { action, void_paid } => {
            let wanted = to_chars(SOURCE_EXTENSION);
            same_text(&extension, &wanted) && candidate_for(status, action, void_paid)
        },
        Selection::Listed { paid } => {
            let wanted = to_chars(BINARY_EXTENSION);
            same_text(&extension, &wanted) && status != InvoiceStatus::Void && (status
                == InvoiceStatus::Paid) == paid
        },
        Selection::Summarized => {
            let wanted = to_chars(SOURCE_EXTENSION);
            same_text(&extension, &wanted) && status != InvoiceStatus::Void
        },
    }
}

/// The entries that `selection` shows, by their indices, in the order of the
/// scan.
pub fn select_entries(entries: &Vec<LedgerEntry>, selection: Selection) -> (picks: Vec<usize>)
    ensures
        picks_all(picks@, entries@, selection),
        in_scan_order(picks@),
{
    let mut picks: Vec<usize> = Vec::new();
    let mut i: usize = 0;
    while i < entries.len()
        invariant
            i <= entries.len(),
            forall|a: int|
                0 <= a < picks@.len() ==> (#[trigger] picks@[a]) < i && selects(
                    selection,
                    entries@[picks@[a] as int].file_name@,
                ),
            forall|k: int|
                0 <= k < i && selects(selection, (#[trigger] entries@[k]).file_name@)
                    ==> exists|a: int| 0 <= a < picks@.len() && #[trigger] picks@[a] == k,
            in_scan_order(picks@),
        decreases entries.len() - i,
    {
        if shows(selection, entries[i].file_name.as_str()) {
            let ghost before = picks@;
            picks.push(i);
            proof {
                assert(picks@[before.len() as int] == i);
                assert forall|k: int|
                    0 <= k < i + 1 && selects(
                        selection,
                        (#[trigger] entries@[k]).file_name@,
                    ) implies exists|a: int| 0 <= a < picks@.len() && #[trigger] picks@[a] == k by {
                    if k < i {
                        let a = choose|a: int| 0 <= a < before.len() && #[trigger] before[a] == k;
                        assert(picks@[a] == before[a]);
                    }
                }
            }
        }
        i += 1;
    }
    picks
}

/// Whether the modification time `a` is earlier than `b`.
pub(crate) fn earlier_exec(a: Option<i128>, b: Option<i128>) -> (r: bool)
    ensures
        r == earlier(a, b),
{
    match (a, b) {
        (None, Some(_)) => true,
        (Some(x), Some(y)) => x < y,
        _ => false,
    }
}

/// Whether entry `i` is offered before entry `j`.
pub(crate) fn offered_before_exec(entries: &Vec<LedgerEntry>, i: usize, j: usize) -> (r: bool)
    requires
        i < entries.len(),
        j < entries.len(),
    ensures
        r == offered_before(entries@, i as int, j as int),
{
    let a = entries[i].modified;
    let b = entries[j].modified;
    if earlier_exec(b, a) {
        true
    } else if earlier_exec(a, b) {
        false
    } else {
        i > j
    }
}

/// A sequence with one more element holds that element and what it held.
proof fn lemma_insert_contains(s: Seq<usize>, p: int, i: usize)
    requires
        0 <= p <= s.len(),
    ensures
        forall|x: usize| #[trigger] s.insert(p, i).contains(x) <==> (x == i || s.contains(x)),
{
    let t = s.insert(p, i);
    assert forall|x: usize| #[trigger] t.contains(x) <==> (x == i || s.contains(x)) by {
        if t.contains(x) {
            let a = choose|a: int| 0 <= a < t.len() && t[a] == x;
            if a < p {
                assert(s[a] == x);
            } else if a > p {
                assert(s[a - 1] == x);
            }
        }
        if x == i {
            assert(t[p] == x);
        }
        if s.contains(x) {
            let a = choose|a: int| 0 <= a < s.len() && s[a] == x;
            if a < p {
                assert(t[a] == x);
            } else {
                assert(t[a + 1] == x);
            }
        }
    }
}

/// Puts entry `i` among `picks` at the place where it is offered, and
/// returns that place.
fn offer(picks: &mut Vec<usize>, entries: &Vec<LedgerEntry>, i: usize) -> (p: usize)
    requires
        i < entries.len(),
        forall|a: int|
            0 <= a < old(picks)@.len() ==> (#[trigger] old(picks)@[a]) < entries.len() && old(
                picks,
            )@[a] != i,
        in_offer_order(old(picks)@, entries@),
    ensures
        p <= old(picks)@.len(),
        final(picks)@ == old(picks)@.insert(p as int, i),
        in_offer_order(final(picks)@, entries@),
{
    let mut p: usize = 0;
    while p < picks.len() && offered_before_exec(entries, picks[p], i)
        invariant
            p <= picks.len(),
            *picks == *old(picks),
            i < entries.len(),
            forall|a: int| 0 <= a < picks@.len() ==> (#[trigger] picks@[a]) < entries.len(),
            forall|a: int|
                0 <= a < p ==> offered_before(entries@, (#[trigger] picks@[a]) as int, i as int),
        decreases picks.len() - p,
    {
        p += 1;
    }
    let ghost before = picks@;
    proof {
        assert forall|a: int| p <= a < before.len() implies offered_before(
            entries@,
            i as int,
            (#[trigger] before[a]) as int,
        ) by {
            assert(!offered_before(entries@, before[p as int] as int, i as int));
            assert(before[p as int] != i);
            if a > p {
                assert(offered_before(entries@, before[p as int] as int, before[a] as int));
            }
        }
    }
    picks.insert(p, i);
    proof {
        let after = picks@;
        assert forall|a: int, b: int| 0 <= a < b < after.len() implies offered_before(
            entries@,
            #[trigger] after[a] as int,
            #[trigger] after[b] as int,
        ) by {
            if b < p {
                assert(after[a] == before[a] && after[b] == before[b]);
            } else if b == p {
                assert(after[a] == before[a] && after[b] == i);
            } else if a < p {
                assert(after[a] == before[a] && after[b] == before[b - 1]);
            } else if a == p {
                assert(after[a] == i && after[b] == before[b - 1]);
            } else {
                assert(after[a] == before[a - 1] && after[b] == before[b - 1]);
            }
        }
    }
    p
}

/// The invoices that can be offered for `action`, by the indices of their
/// rendered documents among `entries`, the one modified last first.
///
/// With `void_paid` unset, paid invoices are not offered for voiding.
pub fn candidates(entries: &Vec<LedgerEntry>, action: Action, void_paid: bool) -> (picks: Vec<
    usize,
>)
    ensures
        picks_all(picks@, entries@, Selection::Candidates { action, void_paid }),
        in_offer_order(picks@, entries@),
{
    let selection = Selection::Candidates { action, void_paid };
    let found = select_entries(entries, selection);
    let mut picks: Vec<usize> = Vec::new();
    let mut k: usize = 0;
    while k < found.len()
        invariant
            k <= found.len(),
            forall|b: int| 0 <= b < found@.len() ==> (#[trigger] found@[b]) < entries.len(),
            in_scan_order(found@),
            in_offer_order(picks@, entries@),
            forall|x: usize| #[trigger]
                picks@.contains(x) <==> exists|b: int| 0 <= b < k && found@[b] == x,
        decreases found.len() - k,
    {
        let i = found[k];
        let ghost before = picks@;
        proof {
            assert forall|a: int| 0 <= a < before.len() implies (#[trigger] before[a])
                < entries.len() && before[a] != i by {
                assert(before.contains(before[a]));
                let b = choose|b: int| 0 <= b < k && found@[b] == before[a];
                assert(found@[b] < found@[k as int]);
            }
        }
        let p = offer(&mut picks, entries, i);
        proof {
            lemma_insert_contains(before, p as int, i);
            assert forall|x: usize| #[trigger]
                picks@.contains(x) <==> exists|b: int| 0 <= b < k + 1 && found@[b] == x by {
                if picks@.contains(x) {
                    if x == i {
                        assert(found@[k as int] == x);
                    } else {
                        assert(before.contains(x));
                        let b = choose|b: int| 0 <= b < k && found@[b] == x;
                        assert(0 <= b < k + 1 && found@[b] == x);
                    }
                }
                if exists|b: int| 0 <= b < k + 1 && found@[b] == x {
                    let b = choose|b: int| 0 <= b < k + 1 && found@[b] == x;
                    if b < k {
                        assert(before.contains(x));
                    }
                }
            }
        }
        k += 1;
    }
    proof {
        assert forall|a: int| 0 <= a < picks@.len() implies (#[trigger] picks@[a]) < entries@.len()
            && selects(selection, entries@[picks@[a] as int].file_name@) by {
            assert(picks@.contains(picks@[a]));
            let b = choose|b: int| 0 <= b < k && found@[b] == picks@[a];
            assert(found@[b] < entries@.len());
        }
        assert forall|i: int|
            0 <= i < entries@.len() && selects(
                selection,
                (#[trigger] entries@[i]).file_name@,
            ) implies exists|a: int| 0 <= a < picks@.len() && #[trigger] picks@[a] == i by {
            let b = choose|b: int| 0 <= b < found@.len() && #[trigger] found@[b] == i;
            assert(picks@.contains(found@[b]));
            let a = choose|a: int| 0 <= a < picks@.len() && picks@[a] == found@[b];
            assert(picks@[a] == i);
        }
    }
    picks
}

} // verus!
