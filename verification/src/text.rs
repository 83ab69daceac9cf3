//! Character-sequence primitives shared by the ledger modules.
//!
//! Every rule of the ledger that looks at a file name or at a rendered
//! document is phrased over `Seq<char>`; the executable functions here work
//! on `Vec<char>` and are proved against those phrasings.

use vstd::prelude::*;

verus! {

/// `pat` occurs in `s` starting at index `i`.
pub open spec fn matches_at(s: Seq<char>, pat: Seq<char>, i: int) -> bool {
    &&& 0 <= i
    &&& i + pat.len() <= s.len()
    &&& s.subrange(i, i + pat.len()) == pat
}

/// `pat` occurs somewhere in `s`.
pub open spec fn contains(s: Seq<char>, pat: Seq<char>) -> bool {
    exists|i: int| matches_at(s, pat, i)
}

/// `s` begins with `pat`.
pub open spec fn starts_with(s: Seq<char>, pat: Seq<char>) -> bool {
    matches_at(s, pat, 0)
}

/// `s` ends with `pat`.
pub open spec fn ends_with(s: Seq<char>, pat: Seq<char>) -> bool {
    matches_at(s, pat, s.len() - pat.len())
}

/// `s` with every occurrence of `from` replaced by `to`, scanning from the
/// left and resuming after each replaced occurrence. An empty `from` replaces
/// nothing.
pub open spec fn replace_all(s: Seq<char>, from: Seq<char>, to: Seq<char>) -> Seq<char>
    decreases s.len(),
{
    if from.len() == 0 || s.len() < from.len() {
        s
    } else if matches_at(s, from, 0) {
        to + replace_all(s.subrange(from.len() as int, s.len() as int), from, to)
    } else {
        seq![s[0]] + replace_all(s.subrange(1, s.len() as int), from, to)
    }
}

/// Index of the last occurrence of `c` in `s`, or `-1` if there is none.
pub open spec fn last_index_of(s: Seq<char>, c: char) -> int
    decreases s.len(),
{
    if s.len() == 0 {
        -1
    } else if s.last() == c {
        s.len() - 1
    } else {
        last_index_of(s.drop_last(), c)
    }
}

/// `s` with `ins` inserted just before index `at`.
pub open spec fn splice(s: Seq<char>, at: int, ins: Seq<char>) -> Seq<char> {
    s.subrange(0, at) + ins + s.subrange(at, s.len() as int)
}

/// `a` comes strictly before `b` in the lexicographic order of code points.
pub open spec fn lex_less(a: Seq<char>, b: Seq<char>) -> bool
    decreases a.len(),
{
    if b.len() == 0 {
        false
    } else if a.len() == 0 {
        true
    } else if a[0] != b[0] {
        (a[0] as int) < (b[0] as int)
    } else {
        lex_less(a.drop_first(), b.drop_first())
    }
}

/// The last occurrence is an occurrence, and none follows it.
pub proof fn lemma_last_index_of(s: Seq<char>, c: char)
    ensures
        -1 <= last_index_of(s, c) < s.len(),
        last_index_of(s, c) >= 0 ==> s[last_index_of(s, c)] == c,
        forall|j: int| last_index_of(s, c) < j < s.len() ==> s[j] != c,
    decreases s.len(),
{
    if s.len() > 0 && s.last() != c {
        let t = s.drop_last();
        lemma_last_index_of(t, c);
        assert forall|j: int| last_index_of(s, c) < j < s.len() implies s[j] != c by {
            if j < t.len() {
                assert(t[j] == s[j]);
            }
        }
        if last_index_of(s, c) >= 0 {
            assert(t[last_index_of(t, c)] == s[last_index_of(t, c)]);
        }
    }
}

/// A sequence without any occurrence of `from` is left as it is.
pub proof fn lemma_replace_all_absent(s: Seq<char>, from: Seq<char>, to: Seq<char>)
    requires
        !contains(s, from),
    ensures
        replace_all(s, from, to) == s,
    decreases s.len(),
{
    if from.len() == 0 || s.len() < from.len() {
    } else {
        assert(!matches_at(s, from, 0));
        let rest = s.subrange(1, s.len() as int);
        assert forall|i: int| !matches_at(rest, from, i) by {
            if matches_at(rest, from, i) {
                assert(rest.subrange(i, i + from.len()) == s.subrange(i + 1, i + 1 + from.len()));
                assert(matches_at(s, from, i + 1));
            }
        }
        lemma_replace_all_absent(rest, from, to);
        assert(seq![s[0]] + rest == s);
    }
}

/// The index of the first occurrence of `pat` in `s`; the length of `s`
/// where there is none.
pub open spec fn first_match(s: Seq<char>, pat: Seq<char>) -> int
    decreases s.len(),
{
    if s.len() < pat.len() || pat.len() == 0 {
        s.len() as int
    } else if matches_at(s, pat, 0) {
        0
    } else {
        1 + first_match(s.skip(1), pat)
    }
}

/// The first occurrence is an occurrence, and none precedes it.
pub proof fn lemma_first_match(s: Seq<char>, pat: Seq<char>)
    requires
        pat.len() > 0,
    ensures
        0 <= first_match(s, pat) <= s.len(),
        forall|i: int| 0 <= i < first_match(s, pat) ==> !matches_at(s, pat, i),
        first_match(s, pat) < s.len() ==> matches_at(s, pat, first_match(s, pat)),
        first_match(s, pat) == s.len() ==> !contains(s, pat),
    decreases s.len(),
{
    if s.len() < pat.len() {
    } else if matches_at(s, pat, 0) {
    } else {
        let t = s.skip(1);
        lemma_first_match(t, pat);
        assert forall|i: int| 0 <= i < first_match(s, pat) implies !matches_at(s, pat, i) by {
            if i > 0 && matches_at(s, pat, i) {
                assert(t.subrange(i - 1, i - 1 + pat.len()) == s.subrange(i, i + pat.len()));
                assert(matches_at(t, pat, i - 1));
            }
        }
        if first_match(s, pat) < s.len() {
            let q = first_match(t, pat);
            assert(t.subrange(q, q + pat.len()) == s.subrange(q + 1, q + 1 + pat.len()));
        }
    }
}

/// No sequence comes before itself.
pub proof fn lemma_lex_irreflexive(a: Seq<char>)
    ensures
        !lex_less(a, a),
    decreases a.len(),
{
    if a.len() > 0 {
        lemma_lex_irreflexive(a.drop_first());
    }
}

/// Of two different sequences one comes before the other.
pub proof fn lemma_lex_total(a: Seq<char>, b: Seq<char>)
    requires
        a != b,
    ensures
        lex_less(a, b) || lex_less(b, a),
    decreases a.len(),
{
    if a.len() > 0 && b.len() > 0 && a[0] == b[0] {
        if a.drop_first() == b.drop_first() {
            assert(a =~= seq![a[0]] + a.drop_first());
            assert(b =~= seq![b[0]] + b.drop_first());
        }
        lemma_lex_total(a.drop_first(), b.drop_first());
    } else if a.len() == 0 && b.len() == 0 {
        assert(a =~= b);
    }
}

/// The order is transitive.
pub proof fn lemma_lex_transitive(a: Seq<char>, b: Seq<char>, c: Seq<char>)
    requires
        lex_less(a, b),
        lex_less(b, c),
    ensures
        lex_less(a, c),
    decreases a.len(),
{
    if a.len() > 0 && b.len() > 0 && c.len() > 0 && a[0] == b[0] && b[0] == c[0] {
        lemma_lex_transitive(a.drop_first(), b.drop_first(), c.drop_first());
    }
}

/// The order is asymmetric.
pub proof fn lemma_lex_asymmetric(a: Seq<char>, b: Seq<char>)
    requires
        lex_less(a, b),
    ensures
        !lex_less(b, a),
    decreases a.len(),
{
    if a.len() > 0 && b.len() > 0 && a[0] == b[0] {
        lemma_lex_asymmetric(a.drop_first(), b.drop_first());
    }
}

/// The characters of `s`.
pub(crate) fn to_chars(s: &str) -> (v: Vec<char>)
    ensures
        v@ == s@,
{
    let mut v: Vec<char> = Vec::new();
    for c in it: s.chars()
        invariant
            v@ == it.seq().take(it.index() as int),
            it.seq() == s@,
    {
        v.push(c);
    }
    v
}

/// `String::push` appends one character.
pub assume_specification[ String::push ](s: &mut String, c: char)
    ensures
        final(s)@ == old(s)@.push(c),
;

/// The string made of the characters of `v`.
pub(crate) fn from_chars(v: &Vec<char>) -> (s: String)
    ensures
        s@ == v@,
{
    let mut s = String::new();
    let mut i: usize = 0;
    while i < v.len()
        invariant
            i <= v.len(),
            s@ == v@.take(i as int),
        decreases v.len() - i,
    {
        s.push(v[i]);
        i += 1;
    }
    s
}

/// Whether `pat` occurs in `s` at index `i`.
pub(crate) fn matches_at_exec(s: &Vec<char>, pat: &Vec<char>, i: usize) -> (r: bool)
    ensures
        r == matches_at(s@, pat@, i as int),
{
    if pat.len() > s.len() || i > s.len() - pat.len() {
        return false;
    }
    let mut k: usize = 0;
    while k < pat.len()
        invariant
            k <= pat.len(),
            i + pat.len() <= s.len(),
            forall|j: int| 0 <= j < k ==> s@[i + j] == pat@[j],
        decreases pat.len() - k,
    {
        if s[i + k] != pat[k] {
            proof {
                let w = s@.subrange(i as int, i + pat.len());
                assert(w[k as int] == s@[i + k]);
            }
            return false;
        }
        k += 1;
    }
    assert(s@.subrange(i as int, i + pat.len()) =~= pat@);
    true
}

/// Whether `s` ends with `pat`.
pub(crate) fn ends_with_exec(s: &Vec<char>, pat: &Vec<char>) -> (r: bool)
    ensures
        r == ends_with(s@, pat@),
{
    if pat.len() > s.len() {
        return false;
    }
    matches_at_exec(s, pat, s.len() - pat.len())
}

/// Whether `pat` occurs in `s`.
pub(crate) fn contains_exec(s: &Vec<char>, pat: &Vec<char>) -> (r: bool)
    ensures
        r == contains(s@, pat@),
{
    if pat.len() > s.len() {
        return false;
    }
    let last: usize = s.len() - pat.len();
    let mut i: usize = 0;
    loop
        invariant
            last == s.len() - pat.len(),
            i <= last,
            forall|j: int| 0 <= j < i ==> !matches_at(s@, pat@, j),
        decreases last - i,
    {
        if matches_at_exec(s, pat, i) {
            return true;
        }
        if i == last {
            return false;
        }
        i += 1;
    }
}

/// Replaces every occurrence of `from` in `s` by `to`.
pub(crate) fn replace_all_exec(s: &Vec<char>, from: &Vec<char>, to: &Vec<char>) -> (r: Vec<char>)
    ensures
        r@ == replace_all(s@, from@, to@),
{
    let mut out: Vec<char> = Vec::new();
    let n = s.len();
    let mut i: usize = 0;
    if from.len() == 0 {
        let r = s.clone();
        assert(r@ == s@);
        return r;
    }
    assert(s@.subrange(0, n as int) == s@);
    assert(out@ + replace_all(s@, from@, to@) == replace_all(s@, from@, to@));
    while i < n
        invariant
            n == s.len(),
            i <= n,
            from.len() > 0,
            out@ + replace_all(s@.subrange(i as int, n as int), from@, to@) == replace_all(
                s@,
                from@,
                to@,
            ),
        decreases n - i,
    {
        let ghost rest = s@.subrange(i as int, n as int);
        if matches_at_exec(s, from, i) {
            proof {
                assert(rest.subrange(0, from.len() as int) == s@.subrange(
                    i as int,
                    i + from.len(),
                ));
                assert(matches_at(rest, from@, 0));
                assert(rest.subrange(from.len() as int, rest.len() as int) == s@.subrange(
                    i + from.len(),
                    n as int,
                ));
            }
            let mut k: usize = 0;
            let ghost before = out@;
            while k < to.len()
                invariant
                    k <= to.len(),
                    out@ == before + to@.take(k as int),
                decreases to.len() - k,
            {
                out.push(to[k]);
                k += 1;
            }
            assert(to@.take(to.len() as int) == to@);
            i += from.len();
        } else {
            proof {
                if rest.len() >= from.len() {
                    if matches_at(rest, from@, 0) {
                        assert(rest.subrange(0, from.len() as int) == s@.subrange(
                            i as int,
                            i + from.len(),
                        ));
                        assert(false);
                    }
                } else {
                    let tail = rest.subrange(1, rest.len() as int);
                    assert(replace_all(tail, from@, to@) == tail);
                    assert(seq![rest[0]] + tail == rest);
                }
                assert(rest.subrange(1, rest.len() as int) == s@.subrange(i + 1, n as int));
                assert(rest[0] == s@[i as int]);
                assert(out@.push(s@[i as int]) + replace_all(
                    s@.subrange(i + 1, n as int),
                    from@,
                    to@,
                ) == out@ + (seq![s@[i as int]] + replace_all(
                    s@.subrange(i + 1, n as int),
                    from@,
                    to@,
                )));
            }
            out.push(s[i]);
            i += 1;
        }
    }
    assert(s@.subrange(n as int, n as int) == Seq::<char>::empty());
    assert(out@ + Seq::<char>::empty() == out@);
    out
}

/// Index of the last occurrence of `c` in `s`, if there is one.
pub(crate) fn last_index_of_exec(s: &Vec<char>, c: char) -> (r: Option<usize>)
    ensures
        match r {
            Some(p) => p as int == last_index_of(s@, c),
            None => last_index_of(s@, c) == -1,
        },
{
    let mut i: usize = s.len();
    assert(s@.take(i as int) == s@);
    while i > 0
        invariant
            i <= s.len(),
            last_index_of(s@, c) == last_index_of(s@.take(i as int), c),
        decreases i,
    {
        if s[i - 1] == c {
            assert(s@.take(i as int).last() == c);
            return Some(i - 1);
        }
        proof {
            let t = s@.take(i as int);
            assert(t.last() == s@[i - 1]);
            assert(t.drop_last() == s@.take(i - 1));
        }
        i -= 1;
    }
    assert(s@.take(0).len() == 0);
    None
}

/// Inserts `ins` into `s` just before index `at`.
pub(crate) fn splice_exec(s: &Vec<char>, at: usize, ins: &Vec<char>) -> (r: Vec<char>)
    requires
        at <= s.len(),
    ensures
        r@ == splice(s@, at as int, ins@),
{
    let mut out: Vec<char> = Vec::new();
    let mut i: usize = 0;
    while i < at
        invariant
            i <= at <= s.len(),
            out@ == s@.subrange(0, i as int),
        decreases at - i,
    {
        out.push(s[i]);
        i += 1;
    }
    let mut k: usize = 0;
    while k < ins.len()
        invariant
            k <= ins.len(),
            out@ == s@.subrange(0, at as int) + ins@.take(k as int),
        decreases ins.len() - k,
    {
        out.push(ins[k]);
        k += 1;
    }
    assert(ins@.take(ins.len() as int) == ins@);
    while i < s.len()
        invariant
            at <= i <= s.len(),
            out@ == s@.subrange(0, at as int) + ins@ + s@.subrange(at as int, i as int),
        decreases s.len() - i,
    {
        out.push(s[i]);
        i += 1;
    }
    out
}

/// The concatenation of `a` and `b`.
pub(crate) fn concat_exec(a: &Vec<char>, b: &Vec<char>) -> (r: Vec<char>)
    ensures
        r@ == a@ + b@,
{
    let r = splice_exec(a, a.len(), b);
    assert(a@.subrange(0, a.len() as int) == a@);
    assert(a@.subrange(a.len() as int, a.len() as int) == Seq::<char>::empty());
    assert(a@ + b@ + Seq::<char>::empty() == a@ + b@);
    r
}

/// Whether `a` comes strictly before `b` in the lexicographic order of code
/// points.
pub(crate) fn lex_less_exec(a: &Vec<char>, b: &Vec<char>) -> (r: bool)
    ensures
        r == lex_less(a@, b@),
{
    let mut i: usize = 0;
    assert(a@.skip(0) == a@);
    assert(b@.skip(0) == b@);
    loop
        invariant
            i <= a.len(),
            i <= b.len(),
            lex_less(a@, b@) == lex_less(a@.skip(i as int), b@.skip(i as int)),
        decreases a.len() - i,
    {
        if i >= b.len() {
            return false;
        }
        if i >= a.len() {
            return true;
        }
        assert(a@.skip(i as int)[0] == a@[i as int]);
        assert(b@.skip(i as int)[0] == b@[i as int]);
        if a[i] != b[i] {
            return a[i] < b[i];
        }
        proof {
            assert(a@.skip(i as int).drop_first() == a@.skip(i + 1));
            assert(b@.skip(i as int).drop_first() == b@.skip(i + 1));
        }
        i += 1;
    }
}

/// Index of the first occurrence of `pat` in `s`, if there is one.
pub(crate) fn find_first(s: &Vec<char>, pat: &Vec<char>) -> (r: Option<usize>)
    requires
        pat.len() > 0,
    ensures
        match r {
            Some(q) => q == first_match(s@, pat@) && q < s.len(),
            None => first_match(s@, pat@) == s.len(),
        },
{
    let n = s.len();
    let mut i: usize = 0;
    proof {
        assert(s@.skip(0) == s@);
    }
    while i < n
        invariant
            i <= n,
            n == s.len(),
            pat.len() > 0,
            first_match(s@, pat@) == i + first_match(s@.skip(i as int), pat@),
        decreases n - i,
    {
        let ghost rest = s@.skip(i as int);
        if matches_at_exec(s, pat, i) {
            proof {
                assert(rest.subrange(0, pat.len() as int) == s@.subrange(i as int, i + pat.len()));
            }
            return Some(i);
        }
        proof {
            if rest.len() >= pat.len() {
                if matches_at(rest, pat@, 0) {
                    assert(rest.subrange(0, pat.len() as int) == s@.subrange(
                        i as int,
                        i + pat.len(),
                    ));
                }
                assert(rest.skip(1) == s@.skip(i + 1));
            } else {
                let tail = s@.skip(i + 1);
                assert(first_match(tail, pat@) == tail.len());
            }
        }
        i += 1;
    }
    proof {
        assert(s@.skip(n as int).len() == 0);
    }
    None
}

/// The part of `s` from index `from` up to index `to`.
pub(crate) fn slice_exec(s: &Vec<char>, from: usize, to: usize) -> (r: Vec<char>)
    requires
        from <= to <= s.len(),
    ensures
        r@ == s@.subrange(from as int, to as int),
{
    let mut out: Vec<char> = Vec::new();
    let mut i: usize = from;
    while i < to
        invariant
            from <= i <= to <= s.len(),
            out@ == s@.subrange(from as int, i as int),
        decreases to - i,
    {
        out.push(s[i]);
        i += 1;
    }
    out
}

/// `c` is white space: one of the twenty-five characters that Unicode gives
/// the property `White_Space`. These are the ASCII controls from tab to
/// carriage return, the space, the next-line control, the no-break space, the
/// ogham space mark, the spaces from en quad to hair space, the line and the
/// paragraph separator, the narrow no-break space, the medium mathematical
/// space and the ideographic space.
pub open spec fn white_space(c: char) -> bool {
    ||| '\u{9}' <= c && c <= '\u{d}'
    ||| c == ' '
    ||| c == '\u{85}'
    ||| c == '\u{a0}'
    ||| c == '\u{1680}'
    ||| '\u{2000}' <= c && c <= '\u{200a}'
    ||| c == '\u{2028}'
    ||| c == '\u{2029}'
    ||| c == '\u{202f}'
    ||| c == '\u{205f}'
    ||| c == '\u{3000}'
}

/// Whether `c` is white space.
pub(crate) fn is_white_space(c: char) -> (r: bool)
    ensures
        r == white_space(c),
{
    (c >= '\u{9}' && c <= '\u{d}') || c == ' ' || c == '\u{85}' || c == '\u{a0}' || c == '\u{1680}'
        || (c >= '\u{2000}' && c <= '\u{200a}') || c == '\u{2028}' || c == '\u{2029}' || c
        == '\u{202f}' || c == '\u{205f}' || c == '\u{3000}'
}

/// The number of leading white-space characters of `s`.
pub open spec fn leading_space(s: Seq<char>) -> nat
    decreases s.len(),
{
    if s.len() > 0 && white_space(s[0]) {
        1 + leading_space(s.drop_first())
    } else {
        0
    }
}

/// The number of trailing white-space characters of `s`.
pub open spec fn trailing_space(s: Seq<char>) -> nat
    decreases s.len(),
{
    if s.len() > 0 && white_space(s.last()) {
        1 + trailing_space(s.drop_last())
    } else {
        0
    }
}

/// `s` without its leading and trailing white space.
pub open spec fn trimmed(s: Seq<char>) -> Seq<char> {
    if leading_space(s) >= s.len() {
        Seq::empty()
    } else {
        s.subrange(leading_space(s) as int, s.len() - trailing_space(s))
    }
}

/// The leading white space is white space, and ends before a character
/// that is none.
pub proof fn lemma_leading_space(s: Seq<char>)
    ensures
        leading_space(s) <= s.len(),
        forall|i: int| 0 <= i < leading_space(s) ==> white_space(#[trigger] s[i]),
        leading_space(s) < s.len() ==> !white_space(s[leading_space(s) as int]),
    decreases s.len(),
{
    if s.len() > 0 && white_space(s[0]) {
        let t = s.drop_first();
        lemma_leading_space(t);
        assert forall|i: int| 0 <= i < leading_space(s) implies white_space(#[trigger] s[i]) by {
            if i > 0 {
                assert(s[i] == t[i - 1]);
            }
        }
        if leading_space(s) < s.len() {
            assert(s[leading_space(s) as int] == t[leading_space(t) as int]);
        }
    }
}

/// The trailing white space is white space, and begins after a character
/// that is none.
pub proof fn lemma_trailing_space(s: Seq<char>)
    ensures
        trailing_space(s) <= s.len(),
        forall|i: int|
            s.len() - trailing_space(s) <= i < s.len() ==> white_space(#[trigger] s[i]),
        trailing_space(s) < s.len() ==> !white_space(s[s.len() - trailing_space(s) - 1]),
    decreases s.len(),
{
    if s.len() > 0 && white_space(s.last()) {
        let t = s.drop_last();
        lemma_trailing_space(t);
        assert forall|i: int| s.len() - trailing_space(s) <= i < s.len() implies white_space(
            #[trigger] s[i],
        ) by {
            if i < t.len() {
                assert(s[i] == t[i]);
            }
        }
        if trailing_space(s) < s.len() {
            assert(s[s.len() - trailing_space(s) - 1] == t[t.len() - trailing_space(t) - 1]);
        }
    }
}

/// Removes leading and trailing white space.
pub(crate) fn trim_exec(s: &Vec<char>) -> (r: Vec<char>)
    ensures
        r@ == trimmed(s@),
{
    let n = s.len();
    let mut start: usize = 0;
    assert(s@.skip(0) == s@);
    while start < n && is_white_space(s[start])
        invariant
            n == s.len(),
            start <= n,
            leading_space(s@) == start + leading_space(s@.skip(start as int)),
        decreases n - start,
    {
        proof {
            let t = s@.skip(start as int);
            assert(t[0] == s@[start as int]);
            assert(t.drop_first() == s@.skip(start + 1));
        }
        start += 1;
    }
    proof {
        let t = s@.skip(start as int);
        if start < n {
            assert(t[0] == s@[start as int]);
        }
        assert(leading_space(t) == 0);
    }
    if start == n {
        return Vec::new();
    }
    let mut end: usize = n;
    proof {
        assert(s@.take(n as int) == s@);
        lemma_leading_space(s@);
        lemma_trailing_space(s@);
    }
    while end > start && is_white_space(s[end - 1])
        invariant
            n == s.len(),
            start < n,
            start <= end <= n,
            !white_space(s@[start as int]),
            trailing_space(s@) == (n - end) + trailing_space(s@.take(end as int)),
        decreases end,
    {
        proof {
            let t = s@.take(end as int);
            assert(t.last() == s@[end - 1]);
            assert(t.drop_last() == s@.take(end - 1));
        }
        end -= 1;
    }
    proof {
        let t = s@.take(end as int);
        if end > start {
            assert(t.last() == s@[end - 1]);
        }
        assert(end > start);
        assert(trailing_space(t) == 0);
    }
    let mut out: Vec<char> = Vec::new();
    let mut i: usize = start;
    while i < end
        invariant
            start <= i <= end <= n,
            n == s.len(),
            out@ == s@.subrange(start as int, i as int),
        decreases end - i,
    {
        out.push(s[i]);
        i += 1;
    }
    out
}

/// Whether two texts are the same.
pub(crate) fn same_text(a: &Vec<char>, b: &Vec<char>) -> (r: bool)
    ensures
        r == (a@ == b@),
{
    let r = a.len() == b.len() && matches_at_exec(a, b, 0);
    proof {
        if a.len() == b.len() {
            assert(a@.subrange(0, b@.len() as int) == a@);
        }
    }
    r
}

} // verus!
