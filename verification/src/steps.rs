//! Lists of steps that are performed in order, up to the first one that fails. Behind the last
//! step may stand a refusal: it is known beforehand, but what comes before it is still done.

use vstd::prelude::*;

verus! {

/// How far a list of steps has come.
#[derive(Debug, Clone, Copy, PartialEq, Eq, Structural)]
pub enum Progress {
    /// So many steps from the front have succeeded.
    Succeeded(usize),
    /// A step has failed.
    Failed,
}

/// What to do next with a list of steps.
#[derive(Debug)]
pub enum Turn<'a, T, E> {
    /// Perform a step.
    Perform(&'a T),
    /// Give up: every step has succeeded, but there is no going on.
    Refuse(&'a E),
    /// Every step has succeeded.
    Finished,
    /// Give up: a step has failed.
    Failed,
}

/// The step behind those that have succeeded, until one has failed; the refusal, if there is one,
/// once they all have succeeded.
pub open spec fn turn<T, E>(steps: Seq<T>, refusal: Option<E>, progress: Progress) -> Turn<
    'static,
    T,
    E,
> {
    match progress {
        Progress::Failed => Turn::Failed,
        Progress::Succeeded(count) => if count < steps.len() {
            Turn::Perform(&steps[count as int])
        } else {
            match refusal {
                Some(error) => Turn::Refuse(&error),
                None => Turn::Finished,
            }
        },
    }
}

/// What to do next with a list of steps and what is refused behind them.
pub fn next_turn<'a, T, E>(steps: &'a Vec<T>, refusal: &'a Option<E>, progress: Progress) -> (next:
    Turn<'a, T, E>)
    ensures
        next == turn(steps@, *refusal, progress),
{
    match progress {
        Progress::Failed => Turn::Failed,
        Progress::Succeeded(count) => if count < steps.len() {
            Turn::Perform(&steps[count])
        } else {
            match refusal {
                Some(error) => Turn::Refuse(error),
                None => Turn::Finished,
            }
        },
    }
}

/// Where a list of steps has come when those performed so far had these outcomes, `true` for one
/// that succeeded.
pub open spec fn reached(outcomes: Seq<bool>) -> Progress {
    if outcomes.contains(false) {
        Progress::Failed
    } else {
        Progress::Succeeded(outcomes.len() as usize)
    }
}

/// The outcomes of a run, complete or not: each step was performed because it was next.
pub open spec fn run<T, E>(steps: Seq<T>, refusal: Option<E>, outcomes: Seq<bool>) -> bool {
    forall|i: int|
        0 <= i < outcomes.len() ==> turn(
            steps,
            refusal,
            reached(#[trigger] outcomes.take(i)),
        ) is Perform
}

/// A run performs the steps in order. A step is performed only if all before it succeeded, and none
/// is performed behind one that failed. The run is finished only if every step succeeded and
/// nothing is refused, and something is refused only once every step succeeded.
pub proof fn steps_stop_at_the_first_failure<T, E>(
    steps: Seq<T>,
    refusal: Option<E>,
    outcomes: Seq<bool>,
)
    requires
        run(steps, refusal, outcomes),
        steps.len() <= usize::MAX,
    ensures
        outcomes.len() <= steps.len(),
        forall|i: int|
            0 <= i < outcomes.len() ==> turn(steps, refusal, reached(#[trigger] outcomes.take(i)))
                == Turn::<T, E>::Perform(&steps[i]),
        forall|i: int| 0 <= i < outcomes.len() - 1 ==> #[trigger] outcomes[i],
        turn(steps, refusal, reached(outcomes)) is Finished <==> refusal is None && outcomes
            == Seq::new(steps.len(), |i: int| true),
        turn(steps, refusal, reached(outcomes)) is Refuse <==> refusal is Some && outcomes
            == Seq::new(steps.len(), |i: int| true),
        turn(steps, refusal, reached(outcomes)) is Failed <==> outcomes.len() > 0
            && !outcomes.last(),
{
    let count = outcomes.len();
    if count > steps.len() {
        let front = outcomes.take(steps.len() as int);
        assert(turn(steps, refusal, reached(front)) is Perform);
    }
    assert forall|i: int| 0 <= i < count - 1 implies #[trigger] outcomes[i] by {
        let front = outcomes.take(count - 1);
        assert(turn(steps, refusal, reached(front)) is Perform);
        assert(front[i] == outcomes[i]);
    }
    if count > 0 && !outcomes.last() {
        assert(outcomes[count - 1] == false);
    }
    let all = Seq::new(steps.len(), |i: int| true);
    if !outcomes.contains(false) && count == steps.len() {
        assert forall|i: int| 0 <= i < count implies outcomes[i] == all[i] by {
            assert(outcomes.contains(outcomes[i]));
        }
        assert(outcomes =~= all);
    }
}

} // verus!
