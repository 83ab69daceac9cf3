//! What holds of the status lifecycle.
//!
//! Paying an invoice and unpaying it again gives back the document one
//! started from, and a void invoice stays void: no transition leaves that
//! status, and no view of the ledger offers the invoice again.

use vstd::prelude::*;
use crate::commit::file_name_text;
use crate::date::compact_text;
use crate::decimal::is_ascii_digit;
use crate::ident::ID_LETTERS;
use crate::ident::day_prefix;
use crate::ident::id_text;
use crate::ident::lemma_sequence_text;
use crate::ident::sequence_text;
use crate::ident::stem_text;
use crate::model::is_slug;
use crate::model::is_slug_char;
use crate::status::Action;
use crate::status::BINARY_EXTENSION;
use crate::status::InvoiceStatus;
use crate::status::PAID_SUFFIX;
use crate::status::SOURCE_EXTENSION;
use crate::status::Selection;
use crate::status::VOID_SUFFIX;
use crate::status::extension_of;
use crate::status::is_candidate;
use crate::status::selects;
use crate::status::status_of;
use crate::status::stem_of;
use crate::text::contains;
use crate::text::ends_with;
use crate::text::first_match;
use crate::text::last_index_of;
use crate::text::lemma_first_match;
use crate::text::lemma_replace_all_absent;
use crate::text::matches_at;
use crate::text::replace_all;
use crate::transition::CLOSING_DELIMITER;
use crate::transition::PAID_FLAG;
use crate::transition::TransitionError;
use crate::transition::VOID_FLAG;
use crate::transition::added_flag_text;
use crate::transition::flag_rewritten;
use crate::transition::flag_text;
use crate::transition::stem_retargeted;
use crate::transition::transitioned;

verus! {

/// Where `pat` occurs nowhere in `s`, it occurs nowhere in a part of `s`.
pub proof fn lemma_contains_part(s: Seq<char>, pat: Seq<char>, from: int, to: int)
    requires
        0 <= from <= to <= s.len(),
        !contains(s, pat),
    ensures
        !contains(s.subrange(from, to), pat),
{
    let t = s.subrange(from, to);
    assert forall|i: int| !matches_at(t, pat, i) by {
        if matches_at(t, pat, i) {
            assert(t.subrange(i, i + pat.len()) == s.subrange(from + i, from + i + pat.len()));
            assert(matches_at(s, pat, from + i));
        }
    }
}

/// Up to the first occurrence of `from`, replacing leaves the text as it is.
pub proof fn lemma_replace_skips(s: Seq<char>, from: Seq<char>, to: Seq<char>, n: int)
    requires
        from.len() > 0,
        0 <= n <= s.len(),
        forall|i: int| 0 <= i < n ==> !matches_at(s, from, i),
    ensures
        replace_all(s, from, to) == s.take(n) + replace_all(s.skip(n), from, to),
    decreases n,
{
    if n == 0 {
        assert(s.skip(0) == s);
        assert(s.take(0) + replace_all(s, from, to) == replace_all(s, from, to));
    } else {
        lemma_replace_skips(s, from, to, n - 1);
        let t = s.skip(n - 1);
        assert(t.subrange(1, t.len() as int) == s.skip(n));
        assert(t[0] == s[n - 1]);
        if t.len() >= from.len() {
            if matches_at(t, from, 0) {
                assert(t.subrange(0, from.len() as int) == s.subrange(n - 1, n - 1 + from.len()));
                assert(matches_at(s, from, n - 1));
            }
            assert(replace_all(t, from, to) == seq![t[0]] + replace_all(s.skip(n), from, to));
        } else {
            assert(replace_all(t, from, to) == t);
            assert(replace_all(s.skip(n), from, to) == s.skip(n));
            assert(t == seq![t[0]] + s.skip(n));
        }
        assert(s.take(n) == s.take(n - 1) + seq![s[n - 1]]);
        assert(s.take(n - 1) + (seq![t[0]] + replace_all(s.skip(n), from, to)) == s.take(n - 1)
            + seq![t[0]] + replace_all(s.skip(n), from, to));
    }
}

/// The paid flag set: `is_paid: true`.
pub open spec fn paid_set() -> Seq<char> {
    flag_text(PAID_FLAG@, true)
}

/// The paid flag cleared: `is_paid: false`.
pub open spec fn paid_cleared() -> Seq<char> {
    flag_text(PAID_FLAG@, false)
}

/// The two spellings of the paid flag, character by character.
pub proof fn lemma_paid_flag_texts()
    ensures
        paid_set() == seq!['i', 's', '_', 'p', 'a', 'i', 'd', ':', ' ', 't', 'r', 'u', 'e'],
        paid_cleared() == seq![
            'i',
            's',
            '_',
            'p',
            'a',
            'i',
            'd',
            ':',
            ' ',
            'f',
            'a',
            'l',
            's',
            'e',
        ],
{
    reveal_strlit("is_paid");
    reveal_strlit(": ");
    reveal_strlit("true");
    reveal_strlit("false");
    assert(paid_set() =~= seq!['i', 's', '_', 'p', 'a', 'i', 'd', ':', ' ', 't', 'r', 'u', 'e']);
    assert(paid_cleared() =~= seq![
        'i',
        's',
        '_',
        'p',
        'a',
        'i',
        'd',
        ':',
        ' ',
        'f',
        'a',
        'l',
        's',
        'e',
    ]);
}

/// Where `from` first occurs at `q`, the replaced text is the old one up to
/// `q` and goes on with `to`.
proof fn lemma_replaced_start(s: Seq<char>, from: Seq<char>, to: Seq<char>)
    requires
        from.len() > 0,
        first_match(s, from) < s.len(),
    ensures
        replace_all(s, from, to).len() >= first_match(s, from) + to.len(),
        forall|j: int|
            0 <= j < first_match(s, from) ==> replace_all(s, from, to)[j] == #[trigger] s[j],
        forall|j: int|
            0 <= j < to.len() ==> replace_all(s, from, to)[first_match(s, from) + j]
                == #[trigger] to[j],
{
    let r = replace_all(s, from, to);
    lemma_first_match(s, from);
    let q = first_match(s, from);
    lemma_replace_skips(s, from, to, q);
    let rest = s.skip(q);
    assert(rest.subrange(0, from.len() as int) == s.subrange(q, q + from.len()));
    assert(matches_at(rest, from, 0));
    let tail = replace_all(rest.subrange(from.len() as int, rest.len() as int), from, to);
    assert(replace_all(rest, from, to) == to + tail);
    assert(r == s.take(q) + (to + tail));
}

/// The set flag has thirteen characters and does not overlap itself: moved
/// along by `k` places, it differs from itself in its first or its second
/// character.
proof fn lemma_set_flag_unbordered(k: int)
    requires
        1 <= k <= 12,
    ensures
        paid_set().len() == 13,
        paid_set()[k] != paid_set()[0] || (k + 1 < 13 && paid_set()[k + 1] != paid_set()[1]),
{
    lemma_paid_flag_texts();
}

/// Setting the cleared flags of a text that has no set flag gives a text
/// that begins with a set flag only where the text began with a cleared one.
proof fn lemma_set_flag_start(s: Seq<char>)
    requires
        !contains(s, paid_set()),
        !matches_at(s, paid_cleared(), 0),
    ensures
        !matches_at(replace_all(s, paid_cleared(), paid_set()), paid_set(), 0),
{
    lemma_set_flag_unbordered(1);
    let f = paid_cleared();
    let t = paid_set();
    let r = replace_all(s, f, t);
    assert(f.len() > 0) by {
        lemma_paid_flag_texts();
    }
    lemma_first_match(s, f);
    let q = first_match(s, f);
    if q == s.len() {
        lemma_replace_all_absent(s, f, t);
        assert(!matches_at(s, t, 0));
    } else if matches_at(r, t, 0) {
        lemma_replaced_start(s, f, t);
        let w = r.subrange(0, 13);
        assert(w == t);
        if q >= 13 {
            assert(s.subrange(0, 13) =~= w) by {
                assert forall|j: int| 0 <= j < 13 implies s.subrange(0, 13)[j] == w[j] by {
                    assert(r[j] == s[j]);
                }
            }
            assert(matches_at(s, t, 0));
        } else {
            assert(q >= 1);
            lemma_set_flag_unbordered(q);
            assert(r[q + 0] == t[0]);
            assert(w[q] == r[q]);
            assert(t[q] == t[0]);
            assert(r[q + 1] == t[1]);
            assert(w[q + 1] == r[q + 1]);
            assert(false);
        }
    }
}

/// Setting the cleared flags of a text that has no set flag, and clearing
/// the set flags of the result, gives back the text.
pub proof fn lemma_set_then_clear(s: Seq<char>)
    requires
        !contains(s, paid_set()),
    ensures
        replace_all(replace_all(s, paid_cleared(), paid_set()), paid_set(), paid_cleared()) == s,
    decreases s.len(),
{
    lemma_paid_flag_texts();
    let f = paid_cleared();
    let t = paid_set();
    let r = replace_all(s, f, t);
    if s.len() < f.len() {
        lemma_replace_all_absent(s, t, f);
    } else if matches_at(s, f, 0) {
        let rest = s.subrange(f.len() as int, s.len() as int);
        lemma_contains_part(s, t, f.len() as int, s.len() as int);
        lemma_set_then_clear(rest);
        let inner = replace_all(rest, f, t);
        assert(r == t + inner);
        assert(r.subrange(0, t.len() as int) == t);
        assert(matches_at(r, t, 0));
        assert(r.subrange(t.len() as int, r.len() as int) == inner);
        assert(replace_all(r, t, f) == f + replace_all(inner, t, f));
        assert(s.subrange(0, f.len() as int) == f);
        assert(s == f + rest);
    } else {
        let rest = s.subrange(1, s.len() as int);
        lemma_contains_part(s, t, 1, s.len() as int);
        lemma_set_then_clear(rest);
        let inner = replace_all(rest, f, t);
        assert(r == seq![s[0]] + inner);
        lemma_set_flag_start(s);
        assert(r.subrange(1, r.len() as int) == inner);
        assert(r[0] == s[0]);
        if r.len() < t.len() {
            assert(replace_all(r, t, f) == r);
            assert(replace_all(inner, t, f) == inner);
        } else {
            assert(replace_all(r, t, f) == seq![r[0]] + replace_all(inner, t, f));
        }
        assert(s == seq![s[0]] + rest);
    }
}

/// Replacing a text that occurs leaves a text in which the replacement
/// occurs.
pub proof fn lemma_replace_all_present(s: Seq<char>, from: Seq<char>, to: Seq<char>)
    requires
        from.len() > 0,
        contains(s, from),
    ensures
        contains(replace_all(s, from, to), to),
{
    let r = replace_all(s, from, to);
    lemma_first_match(s, from);
    let q = first_match(s, from);
    lemma_replace_skips(s, from, to, q);
    let rest = s.skip(q);
    assert(rest.subrange(0, from.len() as int) == s.subrange(q, q + from.len()));
    assert(matches_at(rest, from, 0));
    let tail = replace_all(rest.subrange(from.len() as int, rest.len() as int), from, to);
    assert(r == s.take(q) + (to + tail));
    assert(r.subrange(q, q + to.len()) == to);
    assert(matches_at(r, to, q));
}

/// A stem with the suffix `_PAID` is that of a paid invoice.
pub proof fn lemma_paid_suffix(stem: Seq<char>)
    ensures
        status_of(stem + PAID_SUFFIX@) == InvoiceStatus::Paid,
{
    reveal_strlit("_PAID");
    reveal_strlit("_VOID");
    let p = PAID_SUFFIX@;
    let v = VOID_SUFFIX@;
    let whole = stem + p;
    assert(whole.subrange(whole.len() - 5, whole.len() as int) == p);
    assert(p[1] != v[1]);
    assert(!ends_with(whole, v));
    assert(ends_with(whole, p));
}

/// A stem with the suffix `_VOID` is that of a void invoice.
pub proof fn lemma_void_suffix(stem: Seq<char>)
    ensures
        status_of(stem + VOID_SUFFIX@) == InvoiceStatus::Void,
{
    reveal_strlit("_VOID");
    let v = VOID_SUFFIX@;
    let whole = stem + v;
    assert(whole.subrange(whole.len() - 5, whole.len() as int) == v);
    assert(ends_with(whole, v));
}

/// A stem without `_PAID` that gets the suffix `_PAID` appended, and then
/// every `_PAID` taken out, is the stem again.
pub proof fn lemma_suffix_round_trip(stem: Seq<char>)
    requires
        !contains(stem, PAID_SUFFIX@),
    ensures
        replace_all(stem + PAID_SUFFIX@, PAID_SUFFIX@, Seq::empty()) == stem,
{
    reveal_strlit("_PAID");
    let p = PAID_SUFFIX@;
    let whole = stem + p;
    let n = stem.len() as int;
    assert forall|i: int| 0 <= i < n implies !matches_at(whole, p, i) by {
        if matches_at(whole, p, i) {
            let w = whole.subrange(i, i + 5);
            if i + 5 <= n {
                assert(stem.subrange(i, i + 5) =~= w);
                assert(matches_at(stem, p, i));
            } else {
                let k = n - i;
                assert(w[k] == whole[n]);
                assert(whole[n] == p[0]);
                assert(w[k] == p[k]);
            }
        }
    }
    lemma_replace_skips(whole, p, Seq::empty(), n);
    assert(whole.take(n) == stem);
    assert(whole.skip(n) == p);
    assert(p.subrange(0, 5) == p);
    assert(matches_at(p, p, 0));
    assert(p.subrange(5, 5) == Seq::<char>::empty());
    assert(replace_all(Seq::<char>::empty(), p, Seq::empty()) == Seq::<char>::empty());
    assert(replace_all(p, p, Seq::empty()) == Seq::<char>::empty() + Seq::<char>::empty());
    assert(stem + (Seq::<char>::empty() + Seq::<char>::empty()) == stem);
}

/// Paying an unpaid invoice and unpaying it again gives back the document
/// with its stem and its text, where the stem holds no `_PAID` and the text
/// holds the flag `is_paid: false` and no `is_paid: true`.
pub proof fn lemma_pay_unpay_round_trip(stem: Seq<char>, content: Seq<char>)
    requires
        status_of(stem) == InvoiceStatus::Unpaid,
        !contains(stem, PAID_SUFFIX@),
        contains(content, paid_cleared()),
        !contains(content, paid_set()),
    ensures
        transitioned(stem, content, InvoiceStatus::Paid) matches Ok((paid_stem, paid_content))
            && transitioned(paid_stem, paid_content, InvoiceStatus::Unpaid) == Ok::<
            (Seq<char>, Seq<char>),
            TransitionError,
        >((stem, content)),
{
    lemma_paid_flag_texts();
    lemma_suffix_round_trip(stem);
    lemma_paid_suffix(stem);
    lemma_replace_all_present(content, paid_cleared(), paid_set());
    lemma_set_then_clear(content);
}

/// The last point of a file name made of a stem and one of the two document
/// extensions is the point before the extension.
proof fn lemma_document_name(stem: Seq<char>)
    requires
        stem.len() > 0,
    ensures
        stem_of(file_name_text(stem, SOURCE_EXTENSION@)) == stem,
        stem_of(file_name_text(stem, BINARY_EXTENSION@)) == stem,
        extension_of(file_name_text(stem, SOURCE_EXTENSION@)) == Some(SOURCE_EXTENSION@),
        extension_of(file_name_text(stem, BINARY_EXTENSION@)) == Some(BINARY_EXTENSION@),
{
    reveal_strlit("typ");
    reveal_strlit("pdf");
    let n = stem.len() as int;
    let a = file_name_text(stem, SOURCE_EXTENSION@);
    let b = file_name_text(stem, BINARY_EXTENSION@);
    reveal_with_fuel(last_index_of, 5);
    assert(a.len() == n + 4 && b.len() == n + 4);
    assert(a[n] == '.' && a[n + 1] == 't' && a[n + 2] == 'y' && a[n + 3] == 'p');
    assert(b[n] == '.' && b[n + 1] == 'p' && b[n + 2] == 'd' && b[n + 3] == 'f');
    assert(a.drop_last().drop_last().drop_last().last() == '.');
    assert(b.drop_last().drop_last().drop_last().last() == '.');
    assert(last_index_of(a, '.') == n);
    assert(last_index_of(b, '.') == n);
    assert(a.take(n) == stem);
    assert(b.take(n) == stem);
    assert(a.skip(n + 1) == SOURCE_EXTENSION@);
    assert(b.skip(n + 1) == BINARY_EXTENSION@);
}

/// Void is final. Once an invoice has been voided, every further transition
/// of its document is refused, whatever its text and whatever the target; the
/// invoice is a candidate for no action; and no view of the ledger shows its
/// rendered or its compiled document.
pub proof fn lemma_void_is_final(
    stem: Seq<char>,
    content: Seq<char>,
    later_content: Seq<char>,
    target: InvoiceStatus,
    action: Action,
    void_paid: bool,
    selection: Selection,
)
    requires
        transitioned(stem, content, InvoiceStatus::Void) is Ok,
    ensures
        ({
            let voided = stem_retargeted(stem, InvoiceStatus::Void);
            &&& status_of(voided) == InvoiceStatus::Void
            &&& transitioned(voided, later_content, target) == Err::<
                (Seq<char>, Seq<char>),
                TransitionError,
            >(TransitionError::Terminal)
            &&& !is_candidate(status_of(voided), action, void_paid)
            &&& !selects(selection, file_name_text(voided, SOURCE_EXTENSION@))
            &&& !selects(selection, file_name_text(voided, BINARY_EXTENSION@))
        }),
{
    let voided = stem_retargeted(stem, InvoiceStatus::Void);
    if status_of(stem) == InvoiceStatus::Paid {
        lemma_void_suffix(replace_all(stem, PAID_SUFFIX@, Seq::empty()));
    } else {
        lemma_void_suffix(stem);
    }
    reveal_strlit("_VOID");
    assert(voided.len() >= 5);
    lemma_document_name(voided);
}

/// The flag that stands in the text of an invoice with status `status`.
pub open spec fn flag_of(status: InvoiceStatus) -> Seq<char> {
    match status {
        InvoiceStatus::Paid => flag_text(PAID_FLAG@, true),
        InvoiceStatus::Unpaid => flag_text(PAID_FLAG@, false),
        InvoiceStatus::Void => flag_text(VOID_FLAG@, true),
    }
}

/// Setting a flag leaves a text in which the flag stands with its new value.
pub proof fn lemma_flag_written(content: Seq<char>, key: Seq<char>, value: bool)
    requires
        flag_rewritten(content, key, value) is Some,
    ensures
        contains(flag_rewritten(content, key, value)->0, flag_text(key, value)),
{
    reveal_strlit(": ");
    reveal_strlit(", ");
    let from = flag_text(key, !value);
    let to = flag_text(key, value);
    assert(from.len() >= 2);
    if contains(content, from) {
        lemma_replace_all_present(content, from, to);
    } else if contains(content, to) {
    } else {
        let at = last_index_of(content, CLOSING_DELIMITER);
        crate::text::lemma_last_index_of(content, CLOSING_DELIMITER);
        let added = added_flag_text(key, value);
        let out = crate::text::splice(content, at, added);
        assert(out.subrange(at + 2, at + 2 + to.len()) =~= to);
        assert(matches_at(out, to, at + 2));
    }
}

/// A transition changes name and text together: afterwards the text holds
/// the flag of the new status, and the stem of an invoice that was paid or
/// voided tells that status.
pub proof fn lemma_transition_agrees(stem: Seq<char>, content: Seq<char>, target: InvoiceStatus)
    requires
        transitioned(stem, content, target) is Ok,
    ensures
        contains(transitioned(stem, content, target)->Ok_0.1, flag_of(target)),
        target != InvoiceStatus::Unpaid ==> status_of(
            transitioned(stem, content, target)->Ok_0.0,
        ) == target,
{
    match target {
        InvoiceStatus::Paid => {
            lemma_flag_written(content, PAID_FLAG@, true);
            lemma_paid_suffix(stem);
        },
        InvoiceStatus::Unpaid => {
            lemma_flag_written(content, PAID_FLAG@, false);
        },
        InvoiceStatus::Void => {
            lemma_flag_written(content, VOID_FLAG@, true);
            if status_of(stem) == InvoiceStatus::Paid {
                lemma_void_suffix(replace_all(stem, PAID_SUFFIX@, Seq::empty()));
            } else {
                lemma_void_suffix(stem);
            }
        },
    }
}

/// `c` is neither of the two capital letters that follow the underscore of
/// a status suffix.
pub open spec fn unmarked_char(c: char) -> bool {
    c != 'P' && c != 'V'
}

/// No character of `s` is one of those two letters.
pub open spec fn unmarked(s: Seq<char>) -> bool {
    forall|i: int| 0 <= i < s.len() ==> unmarked_char(#[trigger] s[i])
}

/// A text without those letters holds no status suffix and ends with none.
proof fn lemma_unmarked_text(s: Seq<char>)
    requires
        unmarked(s),
    ensures
        !contains(s, PAID_SUFFIX@),
        !contains(s, VOID_SUFFIX@),
        status_of(s) == InvoiceStatus::Unpaid,
{
    reveal_strlit("_PAID");
    reveal_strlit("_VOID");
    let p = PAID_SUFFIX@;
    let v = VOID_SUFFIX@;
    assert forall|i: int| !matches_at(s, p, i) by {
        if matches_at(s, p, i) {
            assert(s.subrange(i, i + 5)[1] == s[i + 1]);
            assert(unmarked_char(s[i + 1]));
        }
    }
    assert forall|i: int| !matches_at(s, v, i) by {
        if matches_at(s, v, i) {
            assert(s.subrange(i, i + 5)[1] == s[i + 1]);
            assert(unmarked_char(s[i + 1]));
        }
    }
}

/// The stem that a new invoice's document is given tells an unpaid invoice
/// and holds no status suffix: its identifier is made of `HI`, digits and a
/// hyphen, and its project's identifier is a slug. Paying, unpaying or
/// voiding such an invoice therefore keeps identifier and project in the
/// stem.
pub proof fn lemma_issued_stem(y: int, m: int, d: int, n: nat, project: Seq<char>)
    requires
        is_slug(project),
    ensures
        !contains(stem_text(id_text(day_prefix(y, m, d), n), project), PAID_SUFFIX@),
        !contains(stem_text(id_text(day_prefix(y, m, d), n), project), VOID_SUFFIX@),
        status_of(stem_text(id_text(day_prefix(y, m, d), n), project)) == InvoiceStatus::Unpaid,
{
    reveal_strlit("HI");
    lemma_sequence_text(n);
    let letters = ID_LETTERS@;
    let day = compact_text(y, m, d);
    let number = sequence_text(n);
    let stem = stem_text(id_text(day_prefix(y, m, d), n), project);
    assert(unmarked(letters));
    assert(unmarked(day));
    assert(unmarked(number)) by {
        assert forall|i: int| 0 <= i < number.len() implies unmarked_char(#[trigger] number[i]) by {
            assert(is_ascii_digit(number[i]));
        }
    }
    assert(unmarked(project)) by {
        assert forall|i: int| 0 <= i < project.len() implies unmarked_char(
            #[trigger] project[i],
        ) by {
            assert(is_slug_char(project[i]));
        }
    }
    let head = letters + day + seq!['-'] + number + seq!['_'];
    assert(unmarked(head));
    assert(stem =~= head + project);
    assert(unmarked(stem)) by {
        assert forall|i: int| 0 <= i < stem.len() implies unmarked_char(#[trigger] stem[i]) by {
            if i >= head.len() {
                assert(stem[i] == project[i - head.len()]);
            } else {
                assert(stem[i] == head[i]);
            }
        }
    }
    lemma_unmarked_text(stem);
}

} // verus!
