//! Invoice identifiers.
//!
//! An identifier is `HI`, the invoice date as eight digits, a hyphen and a
//! sequence number: `HI20251214-01`. The sequence number sets apart the
//! invoices of one day; a new invoice gets the number after the largest one
//! found among the file names of its year.

use vstd::prelude::*;
use crate::date::InvoiceDate;
use crate::date::compact_date;
use crate::date::compact_text;
use crate::date::digit_char;
use crate::date::lemma_digit_char;
use crate::decimal::digits_of;
use crate::decimal::digits_value;
use crate::decimal::is_ascii_digit;
use crate::decimal::lemma_digits_value_monotonic;
use crate::decimal::max_nat;
use crate::pattern::find_first_capture;
use crate::pattern::first_capture;
use crate::text::concat_exec;
use crate::text::from_chars;
use crate::text::matches_at;
use crate::text::matches_at_exec;
use crate::text::starts_with;
use crate::text::to_chars;

verus! {

/// The letters that open every identifier.
pub const ID_LETTERS: &'static str = "HI";

/// Where a file name shows the date of its invoice: the letters and eight
/// digits.
pub const DATE_PATTERN: &'static str = "HI(\\d{8})";

/// The largest sequence number an identifier can carry.
pub const MAX_SEQUENCE: u32 = u32::MAX;

/// What opens the identifiers of the invoices of one day: the letters and the
/// day's eight digits.
pub open spec fn day_prefix(y: int, m: int, d: int) -> Seq<char> {
    ID_LETTERS@ + compact_text(y, m, d)
}

/// The number of ASCII digits that `s` begins with.
pub open spec fn digit_run_len(s: Seq<char>) -> nat
    decreases s.len(),
{
    if s.len() > 0 && is_ascii_digit(s[0]) {
        1 + digit_run_len(s.drop_first())
    } else {
        0
    }
}

/// The sequence number that the file name `name` carries for the day with
/// prefix `prefix`: the digits that follow the prefix and a hyphen, up to the
/// first character that is no digit. `None` where the name does not begin
/// with the prefix and a hyphen, or no digit follows them.
pub open spec fn name_sequence(prefix: Seq<char>, name: Seq<char>) -> Option<nat> {
    let head = prefix + seq!['-'];
    let rest = name.skip(head.len() as int);
    if starts_with(name, head) && digit_run_len(rest) > 0 {
        Some(digits_value(rest.take(digit_run_len(rest) as int)))
    } else {
        None
    }
}

/// The sequence number of `name`, zero where it carries none.
pub open spec fn sequence_or_zero(prefix: Seq<char>, name: Seq<char>) -> nat {
    match name_sequence(prefix, name) {
        Some(q) => q,
        None => 0,
    }
}

/// The largest sequence number among `names`, zero where none carries one.
pub open spec fn max_sequence(prefix: Seq<char>, names: Seq<Seq<char>>) -> nat
    decreases names.len(),
{
    if names.len() == 0 {
        0
    } else {
        max_nat(max_sequence(prefix, names.drop_last()), sequence_or_zero(prefix, names.last()))
    }
}

/// The decimal digits of `n`, without leading zeros.
pub open spec fn decimal_digits(n: nat) -> Seq<char>
    decreases n,
{
    if n < 10 {
        seq![digit_char(n as int)]
    } else {
        decimal_digits(n / 10).push(digit_char((n % 10) as int))
    }
}

/// The sequence number as it stands in an identifier: in decimal, with a
/// leading zero below ten.
pub open spec fn sequence_text(n: nat) -> Seq<char> {
    if n < 10 {
        seq!['0'] + decimal_digits(n)
    } else {
        decimal_digits(n)
    }
}

/// The identifier with sequence number `n` for the day with prefix `prefix`.
pub open spec fn id_text(prefix: Seq<char>, n: nat) -> Seq<char> {
    prefix + seq!['-'] + sequence_text(n)
}

/// The file stem of the document of invoice `id` for project `project`.
pub open spec fn stem_text(id: Seq<char>, project: Seq<char>) -> Seq<char> {
    id + seq!['_'] + project
}

/// Why no identifier could be given.
#[derive(Clone, Copy, Debug, PartialEq, Eq, Structural)]
pub enum IdentError {
    /// The largest sequence number of the day is taken.
    SequenceExhausted,
}

/// No name carries a sequence number above the largest.
proof fn lemma_max_sequence(prefix: Seq<char>, names: Seq<Seq<char>>, i: int)
    requires
        0 <= i < names.len(),
    ensures
        sequence_or_zero(prefix, names[i]) <= max_sequence(prefix, names),
    decreases names.len(),
{
    if i < names.len() - 1 {
        lemma_max_sequence(prefix, names.drop_last(), i);
        assert(names.drop_last()[i] == names[i]);
    } else {
        assert(names.last() == names[i]);
    }
}

/// What opens the identifiers of the invoices dated `date`.
pub fn prefix_of_day(date: &InvoiceDate) -> (r: String)
    ensures
        r@ == day_prefix(date@.0, date@.1, date@.2),
{
    let letters = to_chars(ID_LETTERS);
    let digits = to_chars(date.compact().as_str());
    let all = concat_exec(&letters, &digits);
    from_chars(&all)
}

/// The sequence number that the file name `name` carries for the day with
/// prefix `prefix`, if any; a number above `MAX_SEQUENCE` is reported as
/// `MAX_SEQUENCE + 1`.
pub fn sequence_of_name(prefix: &str, name: &str) -> (r: Option<u64>)
    ensures
        match name_sequence(prefix@, name@) {
            Some(q) => r == Some(
                if q <= MAX_SEQUENCE {
                    q as u64
                } else {
                    (MAX_SEQUENCE + 1) as u64
                },
            ),
            None => r is None,
        },
{
    let head = to_chars(prefix);
    let chars = to_chars(name);
    sequence_of_chars(&head, &chars)
}

/// The sequence number that `name` carries for `prefix`, if any; a number
/// above `MAX_SEQUENCE` is reported as `MAX_SEQUENCE + 1`.
pub(crate) fn sequence_of_chars(prefix: &Vec<char>, name: &Vec<char>) -> (r: Option<u64>)
    ensures
        match name_sequence(prefix@, name@) {
            Some(q) => r == Some(
                if q <= MAX_SEQUENCE {
                    q as u64
                } else {
                    (MAX_SEQUENCE + 1) as u64
                },
            ),
            None => r is None,
        },
{
    let mut hyphen: Vec<char> = Vec::new();
    hyphen.push('-');
    assert(hyphen@ == seq!['-']);
    let head = concat_exec(prefix, &hyphen);
    if !matches_at_exec(name, &head, 0) {
        return None;
    }
    let start = head.len();
    let n = name.len();
    let ghost rest = name@.skip(start as int);
    let cap: u64 = MAX_SEQUENCE as u64 + 1;
    let mut v: u64 = 0;
    let mut i: usize = start;
    proof {
        assert(rest.skip(0) == rest);
        assert(rest.take(0) == Seq::<char>::empty());
    }
    while i < n && name[i] >= '0' && name[i] <= '9'
        invariant
            start <= i <= n,
            n == name.len(),
            rest == name@.skip(start as int),
            cap == MAX_SEQUENCE + 1,
            digit_run_len(rest) == (i - start) + digit_run_len(rest.skip(i - start)),
            v == if digits_value(rest.take(i - start)) <= MAX_SEQUENCE {
                digits_value(rest.take(i - start))
            } else {
                cap as nat
            },
        decreases n - i,
    {
        let c = name[i];
        proof {
            let k = i - start;
            let tail = rest.skip(k);
            assert(tail[0] == name@[i as int]);
            assert(tail.drop_first() == rest.skip(k + 1));
            let t = rest.take(k + 1);
            assert(t.drop_last() == rest.take(k));
            assert(t.last() == c);
        }
        let d: u64 = (c as u32 - '0' as u32) as u64;
        let next = v * 10 + d;
        v = if next > MAX_SEQUENCE as u64 {
            cap
        } else {
            next
        };
        i += 1;
    }
    proof {
        let k = i - start;
        let tail = rest.skip(k);
        if i < n {
            assert(tail[0] == name@[i as int]);
        }
        assert(digit_run_len(tail) == 0);
    }
    if i == start {
        None
    } else {
        Some(v)
    }
}

/// The sequence number for a new invoice of the day with prefix `prefix`,
/// given the names of all files of that day's year: one more than the largest
/// number that any of them carries, and 1 where none carries one.
///
/// The number is above that of every existing invoice of the day. Fails
/// where it would be above `MAX_SEQUENCE`.
pub fn next_sequence(prefix: &str, file_names: &Vec<String>) -> (r: Result<u32, IdentError>)
    ensures
        match r {
            Ok(n) => n == max_sequence(prefix@, file_names.deep_view()) + 1 && forall|i: int|
                0 <= i < file_names@.len() ==> sequence_or_zero(
                    prefix@,
                    #[trigger] file_names.deep_view()[i],
                ) < n && !matches_at(file_names.deep_view()[i], id_text(prefix@, n as nat), 0),
            Err(_) => max_sequence(prefix@, file_names.deep_view()) >= MAX_SEQUENCE,
        },
{
    let head = to_chars(prefix);
    let ghost names = file_names.deep_view();
    let cap: u64 = MAX_SEQUENCE as u64 + 1;
    let mut max: u64 = 0;
    let mut k: usize = 0;
    proof {
        assert(names.take(0) == Seq::<Seq<char>>::empty());
    }
    while k < file_names.len()
        invariant
            k <= file_names.len(),
            head@ == prefix@,
            names == file_names.deep_view(),
            names.len() == file_names.len(),
            cap == MAX_SEQUENCE + 1,
            max == if max_sequence(prefix@, names.take(k as int)) <= MAX_SEQUENCE {
                max_sequence(prefix@, names.take(k as int))
            } else {
                cap as nat
            },
        decreases file_names.len() - k,
    {
        let name = to_chars(file_names[k].as_str());
        proof {
            assert(names[k as int] == file_names@[k as int]@);
            assert(names.take(k + 1).drop_last() == names.take(k as int));
            assert(names.take(k + 1).last() == names[k as int]);
        }
        match sequence_of_chars(&head, &name) {
            Some(q) => {
                if q > max {
                    max = q;
                }
            },
            None => {},
        }
        k += 1;
    }
    proof {
        assert(names.take(k as int) == names);
        assert forall|i: int| 0 <= i < names.len() implies sequence_or_zero(
            prefix@,
            #[trigger] names[i],
        ) <= max_sequence(prefix@, names) && !matches_at(
            names[i],
            id_text(prefix@, max_sequence(prefix@, names) + 1),
            0,
        ) by {
            lemma_max_sequence(prefix@, names, i);
            lemma_next_is_fresh(prefix@, names, i);
        }
    }
    if max >= MAX_SEQUENCE as u64 {
        Err(IdentError::SequenceExhausted)
    } else {
        Ok((max + 1) as u32)
    }
}

/// The date that the captured digits of a file name spell, if they spell
/// one.
pub open spec fn captured_date(captured: Option<Seq<char>>) -> Option<(int, int, int)> {
    match captured {
        Some(digits) => compact_date(digits),
        None => None,
    }
}

/// The date spelt by the digits captured from a file name.
pub fn date_from_capture(captured: &Option<String>) -> (r: Option<InvoiceDate>)
    ensures
        match r {
            Some(date) => captured_date(captured.deep_view()) == Some(date@) && date.valid(),
            None => captured_date(captured.deep_view()) is None,
        },
{
    match captured {
        Some(digits) => InvoiceDate::parse_compact(digits.as_str()),
        None => None,
    }
}

/// The date of the invoice whose document is named `file_name`: the date
/// spelt by the eight digits that follow the first `HI` with eight digits
/// behind it. `None` where the name shows no such digits, or where they spell
/// no day of the calendar.
pub fn date_of_file_name(file_name: &str) -> (r: Option<InvoiceDate>)
    ensures
        match r {
            Some(date) => captured_date(first_capture(DATE_PATTERN@, file_name@)) == Some(date@)
                && date.valid(),
            None => captured_date(first_capture(DATE_PATTERN@, file_name@)) is None,
        },
{
    let captured = find_first_capture(DATE_PATTERN, file_name);
    date_from_capture(&captured)
}

/// The character of the digit `d`.
pub(crate) fn digit_char_exec(d: u32) -> (c: char)
    requires
        d <= 9,
    ensures
        c == digit_char(d as int),
{
    if d == 0 {
        '0'
    } else if d == 1 {
        '1'
    } else if d == 2 {
        '2'
    } else if d == 3 {
        '3'
    } else if d == 4 {
        '4'
    } else if d == 5 {
        '5'
    } else if d == 6 {
        '6'
    } else if d == 7 {
        '7'
    } else if d == 8 {
        '8'
    } else {
        '9'
    }
}

/// The identifier with sequence number `sequence` for the day with prefix
/// `prefix`.
pub fn invoice_id(prefix: &str, sequence: u32) -> (r: String)
    ensures
        r@ == id_text(prefix@, sequence as nat),
{
    let mut out = to_chars(prefix);
    out.push('-');
    if sequence < 10 {
        out.push('0');
    }
    let digits = digits_of(sequence as u128);
    let all = concat_exec(&out, &digits);
    proof {
        assert(seq!['0'] + decimal_digits(sequence as nat) == seq!['0'] + digits@);
        if sequence < 10 {
            assert(out@ == prefix@ + seq!['-'] + seq!['0']);
            assert(all@ == prefix@ + seq!['-'] + (seq!['0'] + digits@));
        } else {
            assert(out@ == prefix@ + seq!['-']);
        }
    }
    from_chars(&all)
}

/// The file stem of the document of invoice `id` for the project with
/// identifier `project_id`.
pub fn invoice_stem(id: &str, project_id: &str) -> (r: String)
    ensures
        r@ == stem_text(id@, project_id@),
{
    let mut out = to_chars(id);
    out.push('_');
    let project = to_chars(project_id);
    let all = concat_exec(&out, &project);
    assert(out@ == id@ + seq!['_']);
    from_chars(&all)
}

/// The decimal digits of a number are ASCII digits that spell the number.
pub proof fn lemma_decimal_digits(n: nat)
    ensures
        decimal_digits(n).len() >= 1,
        forall|i: int| 0 <= i < decimal_digits(n).len() ==> is_ascii_digit(
            #[trigger] decimal_digits(n)[i],
        ),
        digits_value(decimal_digits(n)) == n,
    decreases n,
{
    let d = decimal_digits(n);
    if n < 10 {
        lemma_digit_char(n as int);
        assert(d.drop_last() == Seq::<char>::empty());
        assert(digits_value(d.drop_last()) == 0);
    } else {
        lemma_decimal_digits(n / 10);
        lemma_digit_char((n % 10) as int);
        let head = decimal_digits(n / 10);
        assert(d.drop_last() == head);
        assert(d.last() == digit_char((n % 10) as int));
    }
}

/// A zero in front of digits does not change the number they spell.
proof fn lemma_leading_zero(s: Seq<char>)
    ensures
        digits_value(seq!['0'] + s) == digits_value(s),
    decreases s.len(),
{
    let z = seq!['0'] + s;
    if s.len() == 0 {
        assert(z.drop_last() == Seq::<char>::empty());
        assert(digits_value(z.drop_last()) == 0);
    } else {
        lemma_leading_zero(s.drop_last());
        assert(z.drop_last() == seq!['0'] + s.drop_last());
        assert(z.last() == s.last());
    }
}

/// The sequence number as it stands in an identifier is made of ASCII
/// digits that spell it.
pub proof fn lemma_sequence_text(n: nat)
    ensures
        sequence_text(n).len() >= 2,
        forall|i: int| 0 <= i < sequence_text(n).len() ==> is_ascii_digit(
            #[trigger] sequence_text(n)[i],
        ),
        digits_value(sequence_text(n)) == n,
{
    lemma_decimal_digits(n);
    if n < 10 {
        lemma_leading_zero(decimal_digits(n));
    } else {
        lemma_decimal_digits(n / 10);
    }
}

/// The digits that a text begins with are digits, and end before a
/// character that is none.
proof fn lemma_digit_run(s: Seq<char>)
    ensures
        digit_run_len(s) <= s.len(),
        forall|i: int| 0 <= i < digit_run_len(s) ==> is_ascii_digit(#[trigger] s[i]),
        digit_run_len(s) < s.len() ==> !is_ascii_digit(s[digit_run_len(s) as int]),
    decreases s.len(),
{
    if s.len() > 0 && is_ascii_digit(s[0]) {
        let t = s.drop_first();
        lemma_digit_run(t);
        assert forall|i: int| 0 <= i < digit_run_len(s) implies is_ascii_digit(#[trigger] s[i]) by {
            if i > 0 {
                assert(s[i] == t[i - 1]);
            }
        }
        if digit_run_len(s) < s.len() {
            assert(s[digit_run_len(s) as int] == t[digit_run_len(t) as int]);
        }
    }
}

/// A text that begins with `k` digits begins with at least that many.
proof fn lemma_digit_run_covers(s: Seq<char>, k: int)
    requires
        0 <= k <= s.len(),
        forall|i: int| 0 <= i < k ==> is_ascii_digit(#[trigger] s[i]),
    ensures
        digit_run_len(s) >= k,
    decreases k,
{
    if k > 0 {
        let t = s.drop_first();
        assert forall|i: int| 0 <= i < k - 1 implies is_ascii_digit(#[trigger] t[i]) by {
            assert(t[i] == s[i + 1]);
        }
        lemma_digit_run_covers(t, k - 1);
        assert(is_ascii_digit(s[0]));
    }
}

/// A file name that begins with an identifier of the day carries a sequence
/// number, and one that is no smaller than the identifier's.
pub proof fn lemma_name_with_id(prefix: Seq<char>, n: nat, name: Seq<char>)
    requires
        matches_at(name, id_text(prefix, n), 0),
    ensures
        name_sequence(prefix, name) matches Some(q) && q >= n,
{
    lemma_sequence_text(n);
    let head = prefix + seq!['-'];
    let text = sequence_text(n);
    let id = id_text(prefix, n);
    assert(id == head + text);
    assert(name.subrange(0, id.len() as int) == id);
    assert(name.subrange(0, head.len() as int) =~= id.subrange(0, head.len() as int));
    assert(id.subrange(0, head.len() as int) =~= head);
    let rest = name.skip(head.len() as int);
    assert forall|i: int| 0 <= i < text.len() implies is_ascii_digit(#[trigger] rest[i]) by {
        assert(rest[i] == name[head.len() + i]);
        assert(name.subrange(0, id.len() as int)[head.len() + i] == id[head.len() + i]);
        assert(id[head.len() + i] == text[i]);
    }
    lemma_digit_run_covers(rest, text.len() as int);
    lemma_digit_run(rest);
    let run = rest.take(digit_run_len(rest) as int);
    assert(run.take(text.len() as int) =~= text) by {
        assert forall|i: int| 0 <= i < text.len() implies run.take(text.len() as int)[i]
            == text[i] by {
            assert(rest[i] == name[head.len() + i]);
            assert(name.subrange(0, id.len() as int)[head.len() + i] == id[head.len() + i]);
        }
    }
    lemma_digits_value_monotonic(run, text.len() as int);
}

/// The identifier given to a new invoice is fresh: with a sequence number
/// above those of all file names, it opens none of them.
pub proof fn lemma_next_is_fresh(prefix: Seq<char>, names: Seq<Seq<char>>, i: int)
    requires
        0 <= i < names.len(),
    ensures
        !matches_at(names[i], id_text(prefix, max_sequence(prefix, names) + 1), 0),
{
    let n = max_sequence(prefix, names) + 1;
    lemma_max_sequence(prefix, names, i);
    if matches_at(names[i], id_text(prefix, n), 0) {
        lemma_name_with_id(prefix, n, names[i]);
    }
}

/// A file name made of an identifier and something that does not go on with
/// a digit carries the identifier's sequence number.
pub proof fn lemma_id_carries_sequence(prefix: Seq<char>, n: nat, rest: Seq<char>)
    requires
        rest.len() == 0 || !is_ascii_digit(rest[0]),
    ensures
        name_sequence(prefix, id_text(prefix, n) + rest) == Some(n),
{
    lemma_sequence_text(n);
    let head = prefix + seq!['-'];
    let text = sequence_text(n);
    let name = id_text(prefix, n) + rest;
    assert(name =~= head + (text + rest));
    assert(name.subrange(0, head.len() as int) =~= head);
    let tail = name.skip(head.len() as int);
    assert(tail =~= text + rest);
    assert forall|i: int| 0 <= i < text.len() implies is_ascii_digit(#[trigger] tail[i]) by {
        assert(tail[i] == text[i]);
    }
    lemma_digit_run_covers(tail, text.len() as int);
    lemma_digit_run(tail);
    if digit_run_len(tail) > text.len() {
        assert(tail[text.len() as int] == rest[0]);
        assert(is_ascii_digit(tail[text.len() as int]));
    }
    assert(tail.take(text.len() as int) =~= text);
}

} // verus!
