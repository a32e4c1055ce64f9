//! The solving engine: the critical-set search, the deduction strategies
//! built on it, and the loop that runs them to a fixpoint.

pub mod hidden_n;
pub mod hidden_single;
pub mod naked_n;
pub mod naked_pair;
pub mod naked_triple;
pub mod prune_candidates;
pub mod sets;
pub mod soundness;
pub mod strategies;

use vstd::prelude::*;

use crate::cells::Cell;
use crate::grid::Grid;
use crate::solver::strategies::delta_grounded;
use crate::solver::strategies::grid_weight;
use crate::solver::strategies::makes_no_progress;
use crate::solver::strategies::spec_apply;
use crate::solver::strategies::well_ordered;
use crate::solver::strategies::Strategy;
use crate::solver::strategies::StrategyDelta;
use crate::solver::strategies::StrategyKind;

verus! {

broadcast use crate::grid::Grid::lemma_len;

/// One applied deduction of the trace: which strategy fired, the delta it
/// proposed, and how long the step took to find.
pub struct SolutionStep {
    pub strategy: StrategyKind,
    pub delta: StrategyDelta,
    pub time: std::time::Duration,
}

/// The outcome of a solve: the final grid and the ordered step trace.
pub struct Solution {
    pub grid: Grid,
    pub steps: Vec<SolutionStep>,
}

/// One valid solving step: the recorded strategy is in the list, every
/// earlier strategy proposed nothing, its non-empty delta satisfies its own
/// characterization, and the next cells are the delta applied to these.
pub open spec fn step_valid(
    strats: Seq<StrategyKind>,
    cells: Seq<Cell>,
    step: SolutionStep,
    next: Seq<Cell>,
) -> bool {
    &&& step.delta.wf()
    &&& delta_grounded(step.delta, cells)
    &&& !step.delta.spec_is_empty()
    &&& step.strategy.delta_spec(cells, step.delta)
    &&& exists|i: int|
        0 <= i < strats.len() && #[trigger] strats[i] == step.strategy && (forall|j: int|
            0 <= j < i ==> makes_no_progress(strats[j], cells))
    &&& next == spec_apply(step.delta, cells)
}

/// A valid trace: successive grids carried from one to the next by the
/// recorded steps.
pub open spec fn trace_valid(
    strats: Seq<StrategyKind>,
    gs: Seq<Seq<Cell>>,
    steps: Seq<SolutionStep>,
) -> bool {
    &&& gs.len() == steps.len() + 1
    &&& forall|i: int|
        0 <= i < steps.len() ==> step_valid(strats, gs[i], #[trigger] steps[i], gs[i + 1])
}

/// The solving loop: an ordered strategy list run to a fixpoint.
pub struct Solver {
    strategies: Vec<StrategyKind>,
}

impl Solver {
    pub closed spec fn spec_strategies(&self) -> Seq<StrategyKind> {
        self.strategies@
    }

    /// The ordering contract is the caller's: the trivial pruning strategy
    /// first, difficulties never decreasing.
    pub fn new(strategies: Vec<StrategyKind>) -> (r: Solver)
        requires
            well_ordered(strategies@),
        ensures
            r.spec_strategies() == strategies@,
            well_ordered(r.spec_strategies()),
    {
        Solver { strategies }
    }

    /// Evaluate the strategies in order against the grid: the first
    /// non-empty delta is returned with its strategy and the elapsed time,
    /// or nothing when every strategy proposes nothing.
    pub fn solve_step(&self, grid: &Grid) -> (r: Option<
        (StrategyKind, StrategyDelta, std::time::Duration),
    >)
        ensures
            r matches Some((k, d, _)) ==> {
                &&& d.wf()
                &&& delta_grounded(d, grid@)
                &&& !d.spec_is_empty()
                &&& k.delta_spec(grid@, d)
                &&& exists|i: int|
                    0 <= i < self.spec_strategies().len() && #[trigger] self.spec_strategies()[i]
                        == k && (forall|j: int|
                        0 <= j < i ==> makes_no_progress(self.spec_strategies()[j], grid@))
            },
            r is None ==> forall|j: int|
                0 <= j < self.spec_strategies().len() ==> makes_no_progress(
                    #[trigger] self.spec_strategies()[j],
                    grid@,
                ),
    {
        let start = std::time::Instant::now();
        let n = self.strategies.len();
        let mut i: usize = 0;
        while i < n
            invariant
                n == self.spec_strategies().len(),
                i <= n,
                forall|j: int|
                    0 <= j < i ==> makes_no_progress(#[trigger] self.spec_strategies()[j], grid@),
            decreases n - i,
        {
            let strat = self.strategies[i];
            let d = strat.solve(grid);
            if !d.is_empty() {
                let elapsed = start.elapsed();
                proof {
                    assert(self.spec_strategies()[i as int] == strat);
                }
                return Some((strat, d, elapsed));
            }
            proof {
                assert(makes_no_progress(self.spec_strategies()[i as int], grid@)) by {
                    assert(self.spec_strategies()[i as int].delta_spec(grid@, d));
                }
            }
            i = i + 1;
        }
        None
    }

    /// Repeatedly find and apply the first non-empty delta, recording each
    /// step, until no strategy makes progress. The final grid need not be
    /// solved: a puzzle these strategies cannot finish is a normal terminal
    /// state, visible through `is_solved`.
    pub fn solve(&self, grid: &mut Grid) -> (r: Solution)
        ensures
            r.grid == *final(grid),
            forall|j: int|
                0 <= j < self.spec_strategies().len() ==> makes_no_progress(
                    #[trigger] self.spec_strategies()[j],
                    final(grid)@,
                ),
            exists|gs: Seq<Seq<Cell>>|
                {
                    &&& #[trigger] trace_valid(self.spec_strategies(), gs, r.steps@)
                    &&& gs[0] == old(grid)@
                    &&& gs[gs.len() - 1] == final(grid)@
                },
    {
        let mut steps: Vec<SolutionStep> = Vec::new();
        let ghost mut gs: Seq<Seq<Cell>> = seq![grid@];
        let mut done = false;
        while !done
            invariant
                gs.len() == steps@.len() + 1,
                gs[0] == old(grid)@,
                gs[gs.len() - 1] == grid@,
                trace_valid(self.spec_strategies(), gs, steps@),
                done ==> forall|j: int|
                    0 <= j < self.spec_strategies().len() ==> makes_no_progress(
                        #[trigger] self.spec_strategies()[j],
                        grid@,
                    ),
            decreases (if done {
                0int
            } else {
                1int
            }), grid_weight(grid@),
        {
            match self.solve_step(grid) {
                Some((k, d, t)) => {
                    proof {
                        crate::solver::strategies::lemma_apply_decreases(d, grid@);
                    }
                    let ghost pre = grid@;
                    d.apply(grid);
                    let step = SolutionStep { strategy: k, delta: d, time: t };
                    proof {
                        assert(step_valid(self.spec_strategies(), pre, step, grid@));
                    }
                    steps.push(step);
                    proof {
                        gs = gs.push(grid@);
                        assert forall|i: int|
                            0 <= i < steps@.len() implies step_valid(
                            self.spec_strategies(),
                            gs[i],
                            #[trigger] steps@[i],
                            gs[i + 1],
                        ) by {
                            if i < steps@.len() - 1 {
                                assert(steps@[i] == steps@.drop_last()[i]);
                            }
                        }
                    }
                },
                None => {
                    done = true;
                },
            }
        }
        let final_grid = *grid;
        let r = Solution { grid: final_grid, steps };
        proof {
            assert(trace_valid(self.spec_strategies(), gs, r.steps@) && gs[0] == old(grid)@
                && gs[gs.len() - 1] == grid@);
        }
        r
    }
}

} // verus!
