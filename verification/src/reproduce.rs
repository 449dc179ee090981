//! The shape of the reproduction experiment.
//!
//! The experiment itself (several seeded runs, averaged trajectories and the
//! observed-versus-paper anchors) is floating-point bookkeeping done by the
//! driver; what is decided here is the size of the runs and the labels.
use vstd::prelude::*;

use crate::norm::NormType;

verus! {

/// The label of a norm type in anchor names.
pub fn type_label(alpha: NormType) -> (r: &'static str)
    ensures
        r@ == alpha.label_view(),
{
    alpha.label()
}

/// The size of the reproduction runs.
pub struct RunShape {
    /// Agents per run.
    pub population: usize,
    /// Rounds per run.
    pub rounds: usize,
    /// Norm entrepreneurs per run (never more than the population).
    pub entrepreneurs: usize,
    /// The convergence window: longer than the run, so that every run lasts
    /// all its rounds and trajectories compare round by round.
    pub convergence_window: usize,
}

/// The run size of a reproduction: the quick mode (a smoke check) caps the
/// population at 6 and the rounds at 12.
pub fn run_shape(population: usize, rounds: usize, entrepreneurs: usize, quick: bool) -> (r: RunShape)
    requires
        rounds < usize::MAX,
    ensures
        r.population == (if quick && population > 6 {
            6
        } else {
            population
        }),
        r.rounds == (if quick && rounds > 12 {
            12
        } else {
            rounds
        }),
        r.entrepreneurs == (if entrepreneurs < r.population {
            entrepreneurs
        } else {
            r.population
        }),
        r.convergence_window == (if r.rounds < 1 {
            1
        } else {
            r.rounds
        }) + 1,
{
    let p = if quick && population > 6 {
        6
    } else {
        population
    };
    let t = if quick && rounds > 12 {
        12
    } else {
        rounds
    };
    let e = if entrepreneurs < p {
        entrepreneurs
    } else {
        p
    };
    let w = if t < 1 {
        1
    } else {
        t
    };
    RunShape { population: p, rounds: t, entrepreneurs: e, convergence_window: w + 1 }
}

} // verus!
