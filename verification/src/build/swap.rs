//! Replacing the output directory: the build is staged in a fresh sibling directory, which
//! then replaces the output with a rename. A reused output directory therefore cannot retain
//! anything from a previous build, and a failed build leaves the previous output untouched.

use vstd::prelude::*;

verus! {

/// Where replacing the output directory stands: what is to be done next, or the end.
#[derive(Clone, Copy, Debug, PartialEq, Eq, Structural)]
pub enum Swap {
    /// Remove the stage that a crashed earlier build left, if there is one.
    ClearStage,
    /// Remove the retired output that a crashed earlier build left, if there is one.
    ClearOld,
    /// Make the stage.
    MakeStage,
    /// Run the staged build.
    Fill,
    /// Remove the stage of a failed build, as far as that goes.
    DropStage,
    /// Whether there is an output to retire.
    Probe,
    /// Rename the output to the retired place.
    Retire,
    /// Rename the stage to the output.
    Promote,
    /// Remove the retired output.
    ClearRetired,
    Done,
    Failed,
}

/// How a step went: it was done, it could not be done, or (of a question) what holds.
#[derive(Clone, Copy, Debug, PartialEq, Eq, Structural)]
pub enum Went {
    Well,
    Badly,
    Found(bool),
}

/// What follows a step.
pub open spec fn swap_next(at: Swap, went: Went) -> Swap {
    match (at, went) {
        (Swap::Done, _) => Swap::Done,
        (Swap::Failed, _) => Swap::Failed,
        (Swap::DropStage, _) => Swap::Failed,
        (Swap::Fill, Went::Badly) => Swap::DropStage,
        (_, Went::Badly) => Swap::Failed,
        (Swap::ClearStage, Went::Well) => Swap::ClearOld,
        (Swap::ClearOld, Went::Well) => Swap::MakeStage,
        (Swap::MakeStage, Went::Well) => Swap::Fill,
        (Swap::Fill, Went::Well) => Swap::Probe,
        (Swap::Probe, Went::Found(there)) => if there {
            Swap::Retire
        } else {
            Swap::Promote
        },
        (Swap::Retire, Went::Well) => Swap::Promote,
        (Swap::Promote, Went::Well) => Swap::ClearRetired,
        (Swap::ClearRetired, Went::Well) => Swap::Done,
        _ => at,
    }
}

impl Swap {
    /// The first step.
    pub fn first() -> (r: Self)
        ensures
            r == Swap::ClearStage,
    {
        Swap::ClearStage
    }

    /// What follows, once the step was done. A failed build drops its stage and ends there:
    /// the previous output has not been touched. An answer to something else changes
    /// nothing.
    pub fn next(self, went: Went) -> (r: Self)
        ensures
            r == swap_next(self, went),
    {
        match (self, went) {
            (Swap::Done, _) => Swap::Done,
            (Swap::Failed, _) => Swap::Failed,
            (Swap::DropStage, _) => Swap::Failed,
            (Swap::Fill, Went::Badly) => Swap::DropStage,
            (_, Went::Badly) => Swap::Failed,
            (Swap::ClearStage, Went::Well) => Swap::ClearOld,
            (Swap::ClearOld, Went::Well) => Swap::MakeStage,
            (Swap::MakeStage, Went::Well) => Swap::Fill,
            (Swap::Fill, Went::Well) => Swap::Probe,
            (Swap::Probe, Went::Found(there)) => if there {
                Swap::Retire
            } else {
                Swap::Promote
            },
            (Swap::Retire, Went::Well) => Swap::Promote,
            (Swap::Promote, Went::Well) => Swap::ClearRetired,
            (Swap::ClearRetired, Went::Well) => Swap::Done,
            (at, _) => at,
        }
    }
}

/// What stands at the three places that a replacement works on. A tree is what it holds.
pub struct Disk<T> {
    pub out: Option<T>,
    pub stage: Option<T>,
    pub old: Option<T>,
}

/// What stands there once a step went well; a step that did not go well, and a question,
/// leave the output and the retired output as they are. `built` is what the staged build
/// makes.
pub open spec fn effect<T>(at: Swap, went: Went, disk: Disk<T>, fresh: T, built: T) -> Disk<T> {
    if went != Went::Well {
        disk
    } else {
        match at {
            Swap::ClearStage => Disk { stage: None, ..disk },
            Swap::ClearOld => Disk { old: None, ..disk },
            Swap::MakeStage => Disk { stage: Some(fresh), ..disk },
            Swap::Fill => Disk { stage: Some(built), ..disk },
            Swap::DropStage => Disk { stage: None, ..disk },
            Swap::Retire => Disk { out: None, old: disk.out, ..disk },
            Swap::Promote => Disk { out: disk.stage, stage: None, ..disk },
            Swap::ClearRetired => Disk { old: None, ..disk },
            _ => disk,
        }
    }
}

/// The step and the disk after a list of answers.
pub open spec fn trace<T>(start: Disk<T>, fresh: T, built: T, answers: Seq<Went>) -> (Swap, Disk<T>)
    decreases answers.len(),
{
    if answers.len() == 0 {
        (Swap::ClearStage, start)
    } else {
        let (at, disk) = trace(start, fresh, built, answers.drop_last());
        (
            swap_next(at, answers.last()),
            effect(at, answers.last(), disk, fresh, built),
        )
    }
}

/// An answer fits a step: a question is answered by what holds of the disk, and everything
/// else by how it went.
pub open spec fn fits<T>(at: Swap, disk: Disk<T>, went: Went) -> bool {
    if at == Swap::Probe {
        went == Went::Found(disk.out is Some)
    } else {
        went == Went::Well || went == Went::Badly
    }
}

/// Every answer of a list fits the step it was given to.
pub open spec fn fitting<T>(start: Disk<T>, fresh: T, built: T, answers: Seq<Went>) -> bool
    decreases answers.len(),
{
    answers.len() == 0 || (fitting(start, fresh, built, answers.drop_last()) && ({
        let (at, disk) = trace(start, fresh, built, answers.drop_last());
        fits(at, disk, answers.last())
    }))
}

/// The staged build was done well.
pub open spec fn filled<T>(start: Disk<T>, fresh: T, built: T, answers: Seq<Went>) -> bool
    decreases answers.len(),
{
    answers.len() > 0 && (filled(start, fresh, built, answers.drop_last()) || (trace(
        start,
        fresh,
        built,
        answers.drop_last(),
    ).0 == Swap::Fill && answers.last() == Went::Well))
}

proof fn lemma_trace<T>(start: Disk<T>, fresh: T, built: T, answers: Seq<Went>)
    requires
        fitting(start, fresh, built, answers),
    ensures
        ({
            let (at, disk) = trace(start, fresh, built, answers);
            let full = filled(start, fresh, built, answers);
            &&& !full ==> disk.out == start.out
            &&& (at == Swap::ClearStage || at == Swap::ClearOld || at == Swap::MakeStage || at
                == Swap::Fill || at == Swap::DropStage) ==> !full
            &&& (at == Swap::Probe || at == Swap::Retire) ==> disk.out == start.out && disk.old
                is None && disk.stage == Some(built) && full
            &&& at == Swap::Retire ==> disk.out is Some
            &&& at == Swap::Promote ==> disk.old == start.out && disk.stage == Some(built)
                && disk.out is None && full
            &&& at == Swap::ClearRetired ==> disk.out == Some(built) && disk.stage is None && full
            &&& at == Swap::Done ==> disk.out == Some(built) && disk.stage is None && disk.old
                is None && full
            &&& (at == Swap::MakeStage || at == Swap::Fill || at == Swap::DropStage)
                ==> disk.old is None
            &&& (at == Swap::Failed && full) ==> (disk.out == start.out || disk.old == start.out
                || disk.out == Some(built))
        }),
    decreases answers.len(),
{
    if answers.len() > 0 {
        lemma_trace(start, fresh, built, answers.drop_last());
    }
}

/// A build that fails leaves the previous output as it was: as long as the staged build was
/// not done, whatever went well or badly, the output is what it was at the start. And a
/// replacement that comes to its end leaves exactly what the staged build made, with no
/// stage and no retired output beside it.
pub proof fn law_failed_build_keeps_output<T>(
    start: Disk<T>,
    fresh: T,
    built: T,
    answers: Seq<Went>,
)
    requires
        fitting(start, fresh, built, answers),
    ensures
        !filled(start, fresh, built, answers) ==> trace(start, fresh, built, answers).1.out
            == start.out,
        trace(start, fresh, built, answers).0 == Swap::Done ==> trace(
            start,
            fresh,
            built,
            answers,
        ).1 == (Disk { out: Some(built), stage: None, old: None }),
{
    lemma_trace(start, fresh, built, answers);
}

/// Even when the replacement itself breaks off, the previous output is not lost before the
/// new one stands: it is still in place, or at the retired place.
pub proof fn law_previous_output_is_not_lost<T>(
    start: Disk<T>,
    fresh: T,
    built: T,
    answers: Seq<Went>,
)
    requires
        fitting(start, fresh, built, answers),
    ensures
        ({
            let (at, disk) = trace(start, fresh, built, answers);
            disk.out == start.out || disk.old == start.out || disk.out == Some(built)
        }),
{
    lemma_trace(start, fresh, built, answers);
}

/// A replacement takes its steps in order, each after the one before it went well: what a crash left
/// is cleared, the stage is made and filled, the output is retired if there is one, the stage is
/// promoted, and the retired output is removed.
pub proof fn law_steps_in_order()
    ensures
        swap_next(Swap::ClearStage, Went::Well) == Swap::ClearOld,
        swap_next(Swap::ClearOld, Went::Well) == Swap::MakeStage,
        swap_next(Swap::MakeStage, Went::Well) == Swap::Fill,
        swap_next(Swap::Fill, Went::Well) == Swap::Probe,
        swap_next(Swap::Probe, Went::Found(true)) == Swap::Retire,
        swap_next(Swap::Probe, Went::Found(false)) == Swap::Promote,
        swap_next(Swap::Retire, Went::Well) == Swap::Promote,
        swap_next(Swap::Promote, Went::Well) == Swap::ClearRetired,
        swap_next(Swap::ClearRetired, Went::Well) == Swap::Done,
{
}

/// A step that goes badly ends the replacement, a failed build after its stage was dropped; and an
/// end stays an end.
pub proof fn law_failure_ends(at: Swap, went: Went)
    ensures
        swap_next(Swap::Fill, Went::Badly) == Swap::DropStage,
        swap_next(Swap::DropStage, went) == Swap::Failed,
        at != Swap::Fill && at != Swap::Done ==> swap_next(at, Went::Badly) == Swap::Failed,
        swap_next(Swap::Done, went) == Swap::Done,
        swap_next(Swap::Failed, went) == Swap::Failed,
{
}

} // verus!
