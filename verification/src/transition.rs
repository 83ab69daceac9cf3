//! Changes of an invoice's status.
//!
//! The status of an invoice is written twice: as a suffix of its document's
//! file stem, and as a flag inside the rendered text. A transition rewrites
//! both together, so that the two never part.

use vstd::prelude::*;
use crate::lifecycle::flag_of;
use crate::lifecycle::lemma_transition_agrees;
use crate::status::InvoiceStatus;
use crate::status::PAID_SUFFIX;
use crate::status::VOID_SUFFIX;
use crate::status::status_of;
use crate::status::status_of_chars;
use crate::text::concat_exec;
use crate::text::contains;
use crate::text::contains_exec;
use crate::text::from_chars;
use crate::text::last_index_of;
use crate::text::last_index_of_exec;
use crate::text::lemma_last_index_of;
use crate::text::replace_all;
use crate::text::replace_all_exec;
use crate::text::splice;
use crate::text::splice_exec;
use crate::text::to_chars;

verus! {

/// The name of the flag that tells whether an invoice is paid.
pub const PAID_FLAG: &'static str = "is_paid";

/// The name of the flag that tells whether an invoice is void.
pub const VOID_FLAG: &'static str = "is_void";

/// What closes the outermost structure of a rendered document.
pub const CLOSING_DELIMITER: char = ')';

/// The flag `key` with the value `value`, as a rendered document spells it:
/// `is_paid: true`.
pub open spec fn flag_text(key: Seq<char>, value: bool) -> Seq<char> {
    key + ": "@ + if value {
        "true"@
    } else {
        "false"@
    }
}

/// The flag as it is added to a document that lacks it: `, is_void: true`.
pub open spec fn added_flag_text(key: Seq<char>, value: bool) -> Seq<char> {
    ", "@ + flag_text(key, value)
}

/// `content` with the flag `key` set to `value`.
///
/// Where the flag stands with the other value, every such place is
/// rewritten. Where it stands with `value` only, the text is left as it is.
/// Where the text has no such flag, the flag is added just before the last
/// closing delimiter; a text without any closing delimiter cannot take it.
pub open spec fn flag_rewritten(content: Seq<char>, key: Seq<char>, value: bool) -> Option<
    Seq<char>,
> {
    if contains(content, flag_text(key, !value)) {
        Some(replace_all(content, flag_text(key, !value), flag_text(key, value)))
    } else if contains(content, flag_text(key, value)) {
        Some(content)
    } else if last_index_of(content, CLOSING_DELIMITER) >= 0 {
        Some(
            splice(
                content,
                last_index_of(content, CLOSING_DELIMITER),
                added_flag_text(key, value),
            ),
        )
    } else {
        None
    }
}

/// The file stem of a document whose invoice goes over to `target`: paying
/// appends `_PAID`, unpaying takes out every `_PAID`, and voiding appends
/// `_VOID`, after taking out every `_PAID` of a paid invoice's stem.
pub open spec fn stem_retargeted(stem: Seq<char>, target: InvoiceStatus) -> Seq<char> {
    match target {
        InvoiceStatus::Paid => stem + PAID_SUFFIX@,
        InvoiceStatus::Unpaid => replace_all(stem, PAID_SUFFIX@, Seq::empty()),
        InvoiceStatus::Void => if status_of(stem) == InvoiceStatus::Paid {
            replace_all(stem, PAID_SUFFIX@, Seq::empty()) + VOID_SUFFIX@
        } else {
            stem + VOID_SUFFIX@
        },
    }
}

/// The rendered text of a document whose invoice goes over to `target`:
/// the paid flag is set or cleared, or the void flag is set.
pub open spec fn content_retargeted(content: Seq<char>, target: InvoiceStatus) -> Option<
    Seq<char>,
> {
    match target {
        InvoiceStatus::Paid => flag_rewritten(content, PAID_FLAG@, true),
        InvoiceStatus::Unpaid => flag_rewritten(content, PAID_FLAG@, false),
        InvoiceStatus::Void => flag_rewritten(content, VOID_FLAG@, true),
    }
}

/// Why a transition was refused.
#[derive(Clone, Copy, Debug, PartialEq, Eq, Structural)]
pub enum TransitionError {
    /// The invoice is void, and stays so.
    Terminal,
    /// The invoice already has the status asked for.
    NoChange,
    /// The rendered text has neither the flag nor a place to add it.
    Unwritable,
}

/// The stem and text of the document with stem `stem` and text `content`
/// after its invoice has gone over to `target`, or why it cannot.
pub open spec fn transitioned(
    stem: Seq<char>,
    content: Seq<char>,
    target: InvoiceStatus,
) -> Result<(Seq<char>, Seq<char>), TransitionError> {
    if status_of(stem) == InvoiceStatus::Void {
        Err(TransitionError::Terminal)
    } else if status_of(stem) == target {
        Err(TransitionError::NoChange)
    } else {
        match content_retargeted(content, target) {
            Some(text) => Ok((stem_retargeted(stem, target), text)),
            None => Err(TransitionError::Unwritable),
        }
    }
}

/// A rendered document: its file stem and its text.
#[derive(Clone, Debug)]
pub struct Document {
    pub stem: String,
    pub content: String,
}

/// The text of the flag `key` with the value `value`.
pub fn flag_chars(key: &Vec<char>, value: bool) -> (r: Vec<char>)
    ensures
        r@ == flag_text(key@, value),
{
    let colon = to_chars(": ");
    let word = if value {
        to_chars("true")
    } else {
        to_chars("false")
    };
    let head = concat_exec(key, &colon);
    concat_exec(&head, &word)
}

/// Sets the flag `key` of the rendered text `content` to `value`; `None`
/// where the text has neither the flag nor a closing delimiter.
pub fn rewrite_flag(content: &Vec<char>, key: &Vec<char>, value: bool) -> (r: Option<Vec<char>>)
    ensures
        r.deep_view() == flag_rewritten(content@, key@, value),
{
    let from = flag_chars(key, !value);
    let to = flag_chars(key, value);
    if contains_exec(content, &from) {
        let out = replace_all_exec(content, &from, &to);
        let r = Some(out);
        assert(r.deep_view() == Some(out@));
        return r;
    }
    if contains_exec(content, &to) {
        let out = content.clone();
        let r = Some(out);
        assert(r.deep_view() == Some(out@));
        return r;
    }
    proof {
        lemma_last_index_of(content@, CLOSING_DELIMITER);
    }
    match last_index_of_exec(content, CLOSING_DELIMITER) {
        Some(at) => {
            let comma = to_chars(", ");
            let added = concat_exec(&comma, &to);
            let out = splice_exec(content, at, &added);
            let r = Some(out);
            assert(r.deep_view() == Some(out@));
            r
        },
        None => None,
    }
}

/// The file stem for an invoice that goes over to `target`.
pub fn retarget_stem(stem: &Vec<char>, target: InvoiceStatus) -> (r: Vec<char>)
    ensures
        r@ == stem_retargeted(stem@, target),
{
    let paid = to_chars(PAID_SUFFIX);
    let void = to_chars(VOID_SUFFIX);
    let none: Vec<char> = Vec::new();
    match target {
        InvoiceStatus::Paid => concat_exec(stem, &paid),
        InvoiceStatus::Unpaid => replace_all_exec(stem, &paid, &none),
        InvoiceStatus::Void => {
            if status_of_chars(stem) == InvoiceStatus::Paid {
                let bare = replace_all_exec(stem, &paid, &none);
                concat_exec(&bare, &void)
            } else {
                concat_exec(stem, &void)
            }
        },
    }
}

/// Takes the invoice of `document` over to `target`: its flag is rewritten in
/// the text and its file stem gets the suffix that goes with `target`.
///
/// A void invoice is never changed, and an invoice is not taken over to the
/// status it has. Name and text change together: the new text holds the flag
/// of `target`, and the new stem of an invoice that was paid or voided tells
/// that status.
pub fn transition(document: &Document, target: InvoiceStatus) -> (r: Result<
    Document,
    TransitionError,
>)
    ensures
        r matches Ok(d) ==> contains(d.content@, flag_of(target)) && (target
            != InvoiceStatus::Unpaid ==> status_of(d.stem@) == target),
        match r {
            Ok(d) => transitioned(document.stem@, document.content@, target) == Ok::<
                (Seq<char>, Seq<char>),
                TransitionError,
            >((d.stem@, d.content@)),
            Err(e) => transitioned(document.stem@, document.content@, target) == Err::<
                (Seq<char>, Seq<char>),
                TransitionError,
            >(e),
        },
{
    let stem = to_chars(document.stem.as_str());
    let current = status_of_chars(&stem);
    if current == InvoiceStatus::Void {
        return Err(TransitionError::Terminal);
    }
    if current == target {
        return Err(TransitionError::NoChange);
    }
    let content = to_chars(document.content.as_str());
    let key = match target {
        InvoiceStatus::Void => to_chars(VOID_FLAG),
        _ => to_chars(PAID_FLAG),
    };
    let value = match target {
        InvoiceStatus::Unpaid => false,
        _ => true,
    };
    assert(content_retargeted(content@, target) == flag_rewritten(content@, key@, value));
    proof {
        if transitioned(document.stem@, document.content@, target) is Ok {
            lemma_transition_agrees(document.stem@, document.content@, target);
        }
    }
    let rewritten = rewrite_flag(&content, &key, value);
    match rewritten {
        Some(text) => {
            assert(rewritten.deep_view() == Some(text@));
            let new_stem = retarget_stem(&stem, target);
            Ok(Document { stem: from_chars(&new_stem), content: from_chars(&text) })
        },
        None => Err(TransitionError::Unwritable),
    }
}

} // verus!
