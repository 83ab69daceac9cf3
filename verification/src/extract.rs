//! Recovery of an invoice's financial facts from its rendered document.
//!
//! Nothing but the rendered text is kept of an invoice, so its amounts, tax
//! rate, paid flag and client name are read back from the field markers of
//! that text.

use vstd::prelude::*;
use crate::decimal::Decimal;
use crate::decimal::MAX_SCALE;
use crate::decimal::NumberError;
use crate::decimal::finest_scale;
use crate::decimal::lemma_finest_scale_bound;
use crate::decimal::lemma_fits_monotonic;
use crate::decimal::lemma_prefix_sum;
use crate::decimal::numeral_of;
use crate::decimal::pow10;
use crate::decimal::rated_fits;
use crate::decimal::sum_fits;
use crate::decimal::sum_values;
use crate::pattern::all_captures;
use crate::pattern::find_all_captures;
use crate::pattern::find_first_capture;
use crate::pattern::first_capture;
use crate::text::from_chars;
use crate::text::matches_at_exec;
use crate::text::slice_exec;
use crate::text::starts_with;
use crate::text::same_text;
use crate::text::to_chars;
use crate::text::trim_exec;
use crate::text::trimmed;

verus! {

/// A line item's amount: `amount:`, optional white space, digits and points.
pub const AMOUNT_PATTERN: &'static str = "amount:\\s*([\\d\\.]+)";

/// The tax rate: `tax_rate:`, optional white space, digits and points.
pub const TAX_RATE_PATTERN: &'static str = "tax_rate:\\s*([\\d\\.]+)";

/// The paid flag: `is_paid:`, optional white space, `true` or `false`.
pub const PAID_PATTERN: &'static str = "is_paid:\\s*(true|false)";

/// The client's name: the quoted `name` that opens the `client` record.
pub const CLIENT_PATTERN: &'static str = "client:\\s*\\(\\s*name:\\s*\"([^\"]+)\"";

/// The label that precedes the name of a client who is a contact person.
pub const ATTN_LABEL: &'static str = "Attn:";

/// The name reported for a document that names no client.
pub const UNKNOWN_CLIENT: &'static str = "Unknown Client";

/// The client name shown for the name captured from a document: the name
/// without the label `Attn:` where it begins with that label, then white
/// space trimmed at both ends. A label further inside the name is part of
/// the name. A document that names no client gets the name
/// `Unknown Client`.
pub open spec fn client_name(captured: Option<Seq<char>>) -> Seq<char> {
    match captured {
        Some(name) => trimmed(
            if starts_with(name, ATTN_LABEL@) {
                name.skip(ATTN_LABEL@.len() as int)
            } else {
                name
            },
        ),
        None => UNKNOWN_CLIENT@,
    }
}

/// Computes [`client_name`].
pub fn client_display_name(captured: Option<&str>) -> (r: String)
    ensures
        r@ == client_name(captured.deep_view()),
{
    match captured {
        Some(name) => {
            let chars = to_chars(name);
            let label = to_chars(ATTN_LABEL);
            let bare = if matches_at_exec(&chars, &label, 0) {
                let rest = slice_exec(&chars, label.len(), chars.len());
                assert(chars@.subrange(label.len() as int, chars.len() as int) == chars@.skip(
                    label.len() as int,
                ));
                rest
            } else {
                chars
            };
            let kept = trim_exec(&bare);
            from_chars(&kept)
        },
        None => {
            let chars = to_chars(UNKNOWN_CLIENT);
            from_chars(&chars)
        },
    }
}

/// What a captured numeral adds to a sum: its value in units of `10^-38` and
/// its number of fractional digits. Text that is no decimal numeral adds
/// nothing.
pub open spec fn numeral_term(captured: Seq<char>) -> (int, nat) {
    match numeral_of(captured) {
        Ok((mantissa, scale)) => ((mantissa * pow10((MAX_SCALE - scale) as nat)) as int, scale),
        Err(_) => (0, 0),
    }
}

/// The captured text is a decimal numeral too long to be held.
pub open spec fn numeral_out_of_range(captured: Seq<char>) -> bool {
    numeral_of(captured) == Err::<(nat, nat), NumberError>(NumberError::OutOfRange)
}

/// The terms of all captured amounts.
pub open spec fn amount_terms(amounts: Seq<Seq<char>>) -> Seq<(int, nat)> {
    Seq::new(amounts.len(), |i: int| numeral_term(amounts[i]))
}

/// The term of the captured tax rate: zero where the document has none.
pub open spec fn rate_term(tax: Option<Seq<char>>) -> (int, nat) {
    match tax {
        Some(t) => numeral_term(t),
        None => (0, 0),
    }
}

/// The sum of the captured amounts can be held: none of them is out of range,
/// and their sum fits at their finest scale.
pub open spec fn subtotal_in_range(amounts: Seq<Seq<char>>) -> bool {
    &&& forall|i: int| 0 <= i < amounts.len() ==> !numeral_out_of_range(#[trigger] amounts[i])
    &&& sum_fits(amount_terms(amounts))
}

/// The total of a document can be held: its subtotal can, its tax rate can,
/// and so can their product.
pub open spec fn total_in_range(amounts: Seq<Seq<char>>, tax: Option<Seq<char>>) -> bool {
    &&& subtotal_in_range(amounts)
    &&& tax matches Some(t) ==> !numeral_out_of_range(t)
    &&& rated_fits(
        sum_values(amount_terms(amounts)),
        finest_scale(amount_terms(amounts)),
        rate_term(tax).0,
        rate_term(tax).1,
    )
}

/// The facts recovered from one rendered document.
#[derive(Clone, Debug)]
pub struct InvoiceFacts {
    /// The sum of all amounts, increased by the tax rate.
    pub total: Decimal,
    /// The paid flag; `false` where the document has none.
    pub is_paid: bool,
    /// The client's display name.
    pub client: String,
}

/// Why no facts could be recovered from a document.
#[derive(Clone, Copy, Debug, PartialEq, Eq, Structural)]
pub enum ExtractError {
    /// A numeral of the document, or the total they give, is too long to be
    /// held exactly.
    NumberOutOfRange,
}

/// `facts` are the facts of a document with these captured fields: the total
/// is the sum of the amounts times one plus the tax rate, the paid flag is set
/// exactly where the document says `true`, and the client is named by
/// [`client_name`].
pub open spec fn facts_agree(
    facts: InvoiceFacts,
    amounts: Seq<Seq<char>>,
    tax: Option<Seq<char>>,
    paid: Option<Seq<char>>,
    client: Option<Seq<char>>,
) -> bool {
    &&& facts.total@ * pow10(38) == sum_values(amount_terms(amounts)) * (pow10(38) + rate_term(
        tax,
    ).0)
    &&& facts.total.spec_scale() == finest_scale(amount_terms(amounts)) + rate_term(tax).1
    &&& facts.total.valid()
    &&& facts.is_paid == (paid == Some("true"@))
    &&& facts.client@ == client_name(client)
}

/// The value and scale of a decimal are the term of the numeral it was read
/// from.
proof fn lemma_parsed_term(text: Seq<char>, d: Decimal)
    requires
        numeral_of(text) == Ok::<(nat, nat), NumberError>((d.spec_mantissa(), d.spec_scale())),
    ensures
        numeral_term(text) == (d@, d.spec_scale()),
        d@ >= 0,
{
}

/// The sum of the captured amounts; `None` where it cannot be held.
pub fn subtotal(amounts: &Vec<String>) -> (r: Option<Decimal>)
    ensures
        r is Some <==> subtotal_in_range(amounts.deep_view()),
        r matches Some(d) ==> d@ == sum_values(amount_terms(amounts.deep_view()))
            && d.spec_scale() == finest_scale(amount_terms(amounts.deep_view())) && d.valid(),
{
    let ghost caps = amounts.deep_view();
    let ghost terms = amount_terms(caps);
    let mut acc = Decimal::zero();
    let mut k: usize = 0;
    proof {
        assert(terms.take(0) == Seq::<(int, nat)>::empty());
        assert forall|i: int| 0 <= i < terms.len() implies (#[trigger] terms[i]).0 >= 0 by {}
        assert forall|i: int| 0 <= i < terms.len() implies (#[trigger] terms[i]).1 <= 38 by {}
        lemma_finest_scale_bound(terms);
    }
    while k < amounts.len()
        invariant
            k <= amounts.len(),
            caps == amounts.deep_view(),
            terms == amount_terms(caps),
            terms.len() == amounts.len(),
            forall|i: int| 0 <= i < terms.len() ==> (#[trigger] terms[i]).0 >= 0,
            finest_scale(terms) <= 38,
            acc@ == sum_values(terms.take(k as int)),
            acc.spec_scale() == finest_scale(terms.take(k as int)),
            acc.valid(),
            forall|i: int| 0 <= i < k ==> !numeral_out_of_range(#[trigger] caps[i]),
        decreases amounts.len() - k,
    {
        let chars = to_chars(amounts[k].as_str());
        proof {
            assert(caps[k as int] == amounts@[k as int]@);
            assert(terms.take(k + 1).drop_last() == terms.take(k as int));
            assert(terms.take(k + 1).last() == numeral_term(caps[k as int]));
            lemma_prefix_sum(terms, k + 1);
        }
        match Decimal::parse_chars(&chars) {
            Ok(d) => {
                proof {
                    lemma_parsed_term(caps[k as int], d);
                }
                match acc.add(&d) {
                    Some(sum) => {
                        acc = sum;
                    },
                    None => {
                        proof {
                            if sum_fits(terms) {
                                lemma_fits_monotonic(
                                    sum_values(terms.take(k + 1)),
                                    finest_scale(terms.take(k + 1)),
                                    sum_values(terms),
                                    finest_scale(terms),
                                );
                            }
                        }
                        return None;
                    },
                }
            },
            Err(NumberError::Malformed) => {},
            Err(NumberError::OutOfRange) => {
                assert(numeral_out_of_range(caps[k as int]));
                return None;
            },
        }
        k += 1;
    }
    proof {
        assert(terms.take(k as int) == terms);
        acc.lemma_fits();
    }
    Some(acc)
}

/// The facts of a document whose field markers captured these texts.
pub fn facts_from_captures(
    amounts: &Vec<String>,
    tax: &Option<String>,
    paid: &Option<String>,
    client: &Option<String>,
) -> (r: Result<InvoiceFacts, ExtractError>)
    ensures
        match r {
            Ok(facts) => total_in_range(amounts.deep_view(), tax.deep_view()) && facts_agree(
                facts,
                amounts.deep_view(),
                tax.deep_view(),
                paid.deep_view(),
                client.deep_view(),
            ),
            Err(_) => !total_in_range(amounts.deep_view(), tax.deep_view()),
        },
{
    let sum = match subtotal(amounts) {
        Some(d) => d,
        None => {
            return Err(ExtractError::NumberOutOfRange);
        },
    };
    let rate = match tax {
        Some(t) => {
            let chars = to_chars(t.as_str());
            match Decimal::parse_chars(&chars) {
                Ok(d) => {
                    proof {
                        lemma_parsed_term(t@, d);
                    }
                    d
                },
                Err(NumberError::Malformed) => Decimal::zero(),
                Err(NumberError::OutOfRange) => {
                    return Err(ExtractError::NumberOutOfRange);
                },
            }
        },
        None => Decimal::zero(),
    };
    assert(rate@ == rate_term(tax.deep_view()).0);
    assert(rate.spec_scale() == rate_term(tax.deep_view()).1);
    let total = match sum.with_rate(&rate) {
        Some(d) => d,
        None => {
            return Err(ExtractError::NumberOutOfRange);
        },
    };
    let is_paid = match paid {
        Some(flag) => {
            let chars = to_chars(flag.as_str());
            let truth = to_chars("true");
            let same = same_text(&chars, &truth);
            same
        },
        None => false,
    };
    let name = match client {
        Some(c) => client_display_name(Some(c.as_str())),
        None => client_display_name(None),
    };
    Ok(InvoiceFacts { total, is_paid, client: name })
}

/// The facts of the rendered document `text`.
///
/// Every `amount` of the text counts; the first `tax_rate`, `is_paid` and
/// client name are taken, with the defaults zero, `false` and
/// `Unknown Client` where the text has none.
pub fn extract_facts(text: &str) -> (r: Result<InvoiceFacts, ExtractError>)
    ensures
        match r {
            Ok(facts) => total_in_range(
                all_captures(AMOUNT_PATTERN@, text@),
                first_capture(TAX_RATE_PATTERN@, text@),
            ) && facts_agree(
                facts,
                all_captures(AMOUNT_PATTERN@, text@),
                first_capture(TAX_RATE_PATTERN@, text@),
                first_capture(PAID_PATTERN@, text@),
                first_capture(CLIENT_PATTERN@, text@),
            ),
            Err(_) => !total_in_range(
                all_captures(AMOUNT_PATTERN@, text@),
                first_capture(TAX_RATE_PATTERN@, text@),
            ),
        },
{
    let amounts = find_all_captures(AMOUNT_PATTERN, text);
    let tax = find_first_capture(TAX_RATE_PATTERN, text);
    let paid = find_first_capture(PAID_PATTERN, text);
    let client = find_first_capture(CLIENT_PATTERN, text);
    facts_from_captures(&amounts, &tax, &paid, &client)
}

} // verus!
