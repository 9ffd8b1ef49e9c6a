//! The calibrator's stage sequencing and its skip policy.
//!
//! The geometric correction runs its four stages in one fixed order —
//! translate, rotate, shear, scale — threading each stage's parameters into
//! the next. The numeric work of a stage is the caller's; what stands here
//! is the decision between stages: after a sound stage the next stage runs,
//! and as soon as a stage reports degenerate geometry (a zero-width
//! bounding box, or parallel fitted cluster lines) the rest of the pipeline
//! is skipped for that group, so no contaminated values reach the output.

use vstd::prelude::*;

verus! {

/// What a caller's numeric stage reports back.
#[derive(Clone, Copy, PartialEq, Eq, Structural, Debug)]
pub enum StageOutcome {
    /// The stage computed sound parameters.
    Sound,
    /// The stage met degenerate geometry; its parameters are unusable.
    Degenerate,
}

/// Where one group stands in the calibration.
#[derive(Clone, Copy, PartialEq, Eq, Structural, Debug)]
pub enum CalibrationState {
    /// The next stage to run, counted from translate = 0, rotate = 1,
    /// shear = 2, scale = 3.
    Stage(u8),
    /// All four stages ran soundly.
    Complete,
    /// A stage met degenerate geometry; the group is left as the filter
    /// produced it and the remaining stages never run.
    Skipped,
}

/// The state a group starts the calibration in.
pub fn initial_state() -> (s: CalibrationState)
    ensures
        s == CalibrationState::Stage(0u8),
{
    CalibrationState::Stage(0u8)
}

/// Advance the calibration of one group by one stage report: sound stages
/// walk translate, rotate, shear, scale in that order and then complete;
/// one degenerate stage skips the group for good, and a finished group
/// stays where it is.
pub fn next_state(s: CalibrationState, outcome: StageOutcome) -> (n: CalibrationState)
    ensures
        n == next_state_spec(s, outcome),
{
    match s {
        CalibrationState::Stage(k) => {
            match outcome {
                StageOutcome::Sound => {
                    if k >= 3 {
                        CalibrationState::Complete
                    } else {
                        CalibrationState::Stage(k + 1)
                    }
                },
                StageOutcome::Degenerate => CalibrationState::Skipped,
            }
        },
        CalibrationState::Complete => CalibrationState::Complete,
        CalibrationState::Skipped => CalibrationState::Skipped,
    }
}

/// The transition table of the calibration.
pub open spec fn next_state_spec(s: CalibrationState, outcome: StageOutcome) -> CalibrationState {
    match s {
        CalibrationState::Stage(k) => {
            match outcome {
                StageOutcome::Sound => {
                    if k >= 3 {
                        CalibrationState::Complete
                    } else {
                        CalibrationState::Stage((k + 1) as u8)
                    }
                },
                StageOutcome::Degenerate => CalibrationState::Skipped,
            }
        },
        CalibrationState::Complete => CalibrationState::Complete,
        CalibrationState::Skipped => CalibrationState::Skipped,
    }
}

/// Run a whole group's worth of stage reports from the start.
pub open spec fn run_spec(outcomes: Seq<StageOutcome>) -> CalibrationState
    decreases outcomes.len(),
{
    if outcomes.len() == 0 {
        CalibrationState::Stage(0u8)
    } else {
        next_state_spec(run_spec(outcomes.drop_last()), outcomes.last())
    }
}

/// Four sound stages, in order, complete a group's calibration.
pub proof fn lemma_all_sound_completes(outcomes: Seq<StageOutcome>)
    requires
        outcomes.len() == 4,
        forall|k: int| 0 <= k < 4 ==> outcomes[k] == StageOutcome::Sound,
    ensures
        run_spec(outcomes) == CalibrationState::Complete,
{
    let s0 = outcomes.drop_last().drop_last().drop_last().drop_last();
    let s1 = outcomes.drop_last().drop_last().drop_last();
    let s2 = outcomes.drop_last().drop_last();
    let s3 = outcomes.drop_last();
    assert(s0.len() == 0);
    assert(run_spec(s0) == CalibrationState::Stage(0u8));
    assert(s1.last() == outcomes[0]);
    assert(run_spec(s1) == CalibrationState::Stage(1u8));
    assert(s2.last() == outcomes[1]);
    assert(run_spec(s2) == CalibrationState::Stage(2u8));
    assert(s3.last() == outcomes[2]);
    assert(run_spec(s3) == CalibrationState::Stage(3u8));
    assert(outcomes.last() == outcomes[3]);
}

/// One degenerate stage skips the group for good: whatever reports follow,
/// the group stays skipped, so no stage runs on contaminated values.
pub proof fn lemma_degenerate_skips_for_good(outcomes: Seq<StageOutcome>, k: int)
    requires
        0 <= k < outcomes.len(),
        run_spec(outcomes.take(k)) is Stage,
        outcomes[k] == StageOutcome::Degenerate,
    ensures
        run_spec(outcomes) == CalibrationState::Skipped,
    decreases outcomes.len(),
{
    if outcomes.len() == k + 1 {
        assert(outcomes.take(k) =~= outcomes.drop_last());
    } else {
        assert(outcomes.drop_last().take(k) =~= outcomes.take(k));
        lemma_degenerate_skips_for_good(outcomes.drop_last(), k);
    }
}

} // verus!
