//! Carrying out a transition on disk.
//!
//! A transition is carried out in steps: the new rendered document is
//! written, the old files are removed where the name has changed, and the
//! new document is compiled. The caller performs each step and reports how
//! it went; the functions here decide what comes next and how the whole
//! ended. No old file is touched before the new text is safely written, and a
//! failed compilation is told apart from a failed rewrite.

use vstd::prelude::*;
use crate::status::BINARY_EXTENSION;
use crate::status::InvoiceStatus;
use crate::status::SOURCE_EXTENSION;
use crate::text::concat_exec;
use crate::text::from_chars;
use crate::text::same_text;
use crate::text::to_chars;
use crate::transition::Document;
use crate::transition::TransitionError;
use crate::transition::transition;
use crate::transition::transitioned;

verus! {

/// How carrying out a transition ended.
#[derive(Clone, Copy, Debug, PartialEq, Eq, Structural)]
pub enum Outcome {
    /// The new document is written and compiled.
    Completed,
    /// The new document could not be written; nothing was removed.
    RewriteFailed,
    /// The new document is written and the old files are gone, but its
    /// compilation failed: the compiled document is missing or stale.
    RecompileFailed,
}

/// How far a transition has been carried out.
#[derive(Clone, Copy, Debug, PartialEq, Eq, Structural)]
pub enum Phase {
    Planned,
    Writing,
    Removing,
    Compiling,
    Finished(Outcome),
}

/// What the caller reports.
#[derive(Clone, Copy, Debug, PartialEq, Eq, Structural)]
pub enum Event {
    /// The plan is to be carried out.
    Start,
    /// The new rendered document was written, or could not be.
    Written(bool),
    /// The old files were removed, as far as they could be.
    Removed,
    /// The compiler ran and succeeded, or did not.
    Compiled(bool),
}

/// What the caller is to do next.
#[derive(Clone, Copy, Debug, PartialEq, Eq, Structural)]
pub enum Step {
    /// Write the new rendered document.
    WriteNew,
    /// Remove the old rendered document and, if it exists, the old compiled
    /// one.
    RemoveOld,
    /// Compile the new rendered document.
    Compile,
    /// Tell the operator how it ended; nothing is left to do.
    Report(Outcome),
}

/// The phase and the step that follow `event` in `phase`; `None` where the
/// event has no place in the phase. `renamed` tells whether the new document
/// has another name than the old one.
pub open spec fn next(phase: Phase, event: Event, renamed: bool) -> Option<(Phase, Step)> {
    match (phase, event) {
        (Phase::Planned, Event::Start) => Some((Phase::Writing, Step::WriteNew)),
        (Phase::Writing, Event::Written(true)) => if renamed {
            Some((Phase::Removing, Step::RemoveOld))
        } else {
            Some((Phase::Compiling, Step::Compile))
        },
        (Phase::Writing, Event::Written(false)) => Some(
            (Phase::Finished(Outcome::RewriteFailed), Step::Report(Outcome::RewriteFailed)),
        ),
        (Phase::Removing, Event::Removed) => Some((Phase::Compiling, Step::Compile)),
        (Phase::Compiling, Event::Compiled(true)) => Some(
            (Phase::Finished(Outcome::Completed), Step::Report(Outcome::Completed)),
        ),
        (Phase::Compiling, Event::Compiled(false)) => Some(
            (Phase::Finished(Outcome::RecompileFailed), Step::Report(Outcome::RecompileFailed)),
        ),
        _ => None,
    }
}

/// The phase reached from `phase` by `events`, one after the other; an event
/// that has no place in its phase leaves the phase as it is.
pub open spec fn phase_after(phase: Phase, events: Seq<Event>, renamed: bool) -> Phase
    decreases events.len(),
{
    if events.len() == 0 {
        phase
    } else {
        let before = phase_after(phase, events.drop_last(), renamed);
        match next(before, events.last(), renamed) {
            Some((after, _)) => after,
            None => before,
        }
    }
}

/// The phase and the step that follow `event` in `phase`.
pub fn advance(phase: Phase, event: Event, renamed: bool) -> (r: Option<(Phase, Step)>)
    ensures
        r == next(phase, event, renamed),
{
    match phase {
        Phase::Planned => match event {
            Event::Start => Some((Phase::Writing, Step::WriteNew)),
            _ => None,
        },
        Phase::Writing => match event {
            Event::Written(ok) => {
                if !ok {
                    Some(
                        (
                            Phase::Finished(Outcome::RewriteFailed),
                            Step::Report(Outcome::RewriteFailed),
                        ),
                    )
                } else if renamed {
                    Some((Phase::Removing, Step::RemoveOld))
                } else {
                    Some((Phase::Compiling, Step::Compile))
                }
            },
            _ => None,
        },
        Phase::Removing => match event {
            Event::Removed => Some((Phase::Compiling, Step::Compile)),
            _ => None,
        },
        Phase::Compiling => match event {
            Event::Compiled(ok) => {
                let outcome = if ok {
                    Outcome::Completed
                } else {
                    Outcome::RecompileFailed
                };
                Some((Phase::Finished(outcome), Step::Report(outcome)))
            },
            _ => None,
        },
        Phase::Finished(_) => None,
    }
}

/// Some event among `events` is `event`.
pub open spec fn reported(events: Seq<Event>, event: Event) -> bool {
    exists|i: int| 0 <= i < events.len() && events[i] == event
}

/// Whatever the caller reports, and in whatever order: the old files are not
/// to be removed, nor the compiler run, before the new document was written;
/// a transition is completed only where the compiler succeeded; and a
/// failed compilation is reported only after the new document was written.
pub proof fn lemma_order_of_steps(events: Seq<Event>, renamed: bool)
    ensures
        ({
            let phase = phase_after(Phase::Planned, events, renamed);
            &&& phase == Phase::Removing || phase == Phase::Compiling ==> reported(
                events,
                Event::Written(true),
            )
            &&& phase == Phase::Removing ==> renamed
            &&& phase == Phase::Finished(Outcome::Completed) ==> reported(
                events,
                Event::Written(true),
            ) && reported(events, Event::Compiled(true))
            &&& phase == Phase::Finished(Outcome::RecompileFailed) ==> reported(
                events,
                Event::Written(true),
            ) && reported(events, Event::Compiled(false))
            &&& phase == Phase::Finished(Outcome::RewriteFailed) ==> reported(
                events,
                Event::Written(false),
            )
        }),
    decreases events.len(),
{
    if events.len() > 0 {
        let rest = events.drop_last();
        lemma_order_of_steps(rest, renamed);
        let last = events.len() - 1;
        assert(events[last] == events.last());
        assert forall|e: Event| reported(rest, e) implies reported(events, e) by {
            let i = choose|i: int| 0 <= i < rest.len() && rest[i] == e;
            assert(events[i] == e);
        }
    }
}

/// The name of the file with stem `stem` and extension `extension`.
pub open spec fn file_name_text(stem: Seq<char>, extension: Seq<char>) -> Seq<char> {
    stem + seq!['.'] + extension
}

/// What carrying out a transition takes: the names of the files to write,
/// to compile to and to remove, all in the directory of the old document,
/// and the text to write.
#[derive(Clone, Debug)]
pub struct TransitionPlan {
    /// The rendered document to remove once the new one is written.
    pub old_source: String,
    /// The compiled document to remove with it, where it exists.
    pub old_binary: String,
    /// The rendered document to write.
    pub new_source: String,
    /// The compiled document to produce from it.
    pub new_binary: String,
    /// The text of the new rendered document.
    pub content: String,
    /// Whether the new names differ from the old ones.
    pub renamed: bool,
}

/// `plan` carries the document with stem `old_stem` over to the stem
/// `new_stem` and the text `content`.
pub open spec fn plan_of(
    plan: TransitionPlan,
    old_stem: Seq<char>,
    new_stem: Seq<char>,
    content: Seq<char>,
) -> bool {
    &&& plan.old_source@ == file_name_text(old_stem, SOURCE_EXTENSION@)
    &&& plan.old_binary@ == file_name_text(old_stem, BINARY_EXTENSION@)
    &&& plan.new_source@ == file_name_text(new_stem, SOURCE_EXTENSION@)
    &&& plan.new_binary@ == file_name_text(new_stem, BINARY_EXTENSION@)
    &&& plan.content@ == content
    &&& plan.renamed == (new_stem != old_stem)
}

/// The name of the file with stem `stem` and extension `extension`.
pub fn file_name(stem: &str, extension: &str) -> (r: String)
    ensures
        r@ == file_name_text(stem@, extension@),
{
    let mut out = to_chars(stem);
    out.push('.');
    let ext = to_chars(extension);
    let all = concat_exec(&out, &ext);
    assert(out@ == stem@ + seq!['.']);
    from_chars(&all)
}

/// Plans the transition of `document` to `target`: which text to write under
/// which name, and which files to remove afterwards.
///
/// Fails, with nothing to carry out, exactly where the transition is
/// refused.
pub fn plan_transition(document: &Document, target: InvoiceStatus) -> (r: Result<
    TransitionPlan,
    TransitionError,
>)
    ensures
        match r {
            Ok(plan) => match transitioned(document.stem@, document.content@, target) {
                Ok((stem, content)) => plan_of(plan, document.stem@, stem, content),
                Err(_) => false,
            },
            Err(e) => transitioned(document.stem@, document.content@, target) == Err::<
                (Seq<char>, Seq<char>),
                TransitionError,
            >(e),
        },
{
    let after = match transition(document, target) {
        Ok(d) => d,
        Err(e) => {
            return Err(e);
        },
    };
    let old_chars = to_chars(document.stem.as_str());
    let new_chars = to_chars(after.stem.as_str());
    let same = same_text(&new_chars, &old_chars);
    Ok(
        TransitionPlan {
            old_source: file_name(document.stem.as_str(), SOURCE_EXTENSION),
            old_binary: file_name(document.stem.as_str(), BINARY_EXTENSION),
            new_source: file_name(after.stem.as_str(), SOURCE_EXTENSION),
            new_binary: file_name(after.stem.as_str(), BINARY_EXTENSION),
            content: after.content,
            renamed: !same,
        },
    )
}

} // verus!
