//! Brownian Bridge: a process pinned to alpha at time 0 and to beta at
//! the horizon, interpolating stochastically between them. Each
//! interior step pulls toward the endpoint with growing force, and the
//! final column is overwritten with beta exactly.

use vstd::prelude::*;

verus! {

use crate::fixed::{Fixed, fx_add, fx_sub, fx_mul, tdiv, mantissas};
use crate::rng::sample_increments;

/// Brownian Bridge process simulates paths that start and end at fixed
/// points.
pub struct BrownianBridge {
    pub alpha: Fixed,
    pub beta: Fixed,
    pub sigma: Fixed,
    pub n_paths: usize,
    pub n_steps: usize,
    pub t_end: Fixed,
}

impl BrownianBridge {
    /// Creates a new Brownian Bridge instance.
    pub fn new(alpha: Fixed, beta: Fixed, sigma: Fixed, n_paths: usize, n_steps: usize, t_end: Fixed)
        -> (r: Self)
        ensures
            r.alpha == alpha,
            r.beta == beta,
            r.sigma == sigma,
            r.n_paths == n_paths,
            r.n_steps == n_steps,
            r.t_end == t_end,
    {
        Self { alpha, beta, sigma, n_paths, n_steps, t_end }
    }

    /// Parameters a simulation call accepts: at least one step so the
    /// grid divides, a positive horizon, and a step count the machine
    /// can index past and cast to a mantissa.
    pub open spec fn wf(&self) -> bool {
        &&& 1 <= self.n_steps
        &&& self.n_steps < usize::MAX
        &&& self.n_steps <= i64::MAX
        &&& self.t_end@ > 0
    }

    /// The uniform step of the time grid: dt = t_end / n_steps, shared
    /// by every path and every step of one call.
    pub open spec fn spec_dt(&self) -> int {
        tdiv(self.t_end@, self.n_steps as int)
    }

    /// One interior update at step j: the previous value, plus the
    /// pull (beta - prev) / (n_steps - j + 1) toward the endpoint,
    /// plus the diffusion term sigma dW. The pull's divisor counts the
    /// intervals remaining to the horizon and is deliberately not
    /// scaled by dt: a fixed discrete recurrence, not a continuous
    /// bridge formula.
    pub open spec fn step(&self, prev: int, j: int, dw: int) -> int {
        fx_add(
            fx_add(prev, tdiv(fx_sub(self.beta@, prev), self.n_steps - j + 1)),
            fx_mul(self.sigma@, dw),
        )
    }

    /// Value of a path at an interior column j (below n_steps) when
    /// driven by the increment mantissas ws: column 0 is alpha, and
    /// each later interior column follows from its predecessor by one
    /// update. The recurrence deliberately stops one column short of
    /// the horizon.
    pub open spec fn interior_value(&self, ws: Seq<int>, j: int) -> int
        decreases j,
    {
        if j <= 0 {
            self.alpha@
        } else {
            self.step(self.interior_value(ws, j - 1), j, ws[j - 1])
        }
    }

    /// Value of a path at any column: the final column is beta exactly
    /// (terminal pinning overwrites whatever the recurrence would have
    /// produced); every earlier column follows the recurrence.
    pub open spec fn column_value(&self, ws: Seq<int>, j: int) -> int {
        if j == self.n_steps {
            self.beta@
        } else {
            self.interior_value(ws, j)
        }
    }

    /// Value of a column when the volatility is zero: randomness
    /// contributes nothing and only the pull toward beta remains.
    pub open spec fn det_value(&self, j: int) -> int
        decreases j,
    {
        if j <= 0 {
            self.alpha@
        } else {
            fx_add(self.det_value(j - 1), tdiv(fx_sub(self.beta@, self.det_value(j - 1)), self.n_steps - j + 1))
        }
    }

    /// Does the row hold exactly the recurrence driven by ws, with the
    /// final column pinned?
    pub open spec fn row_follows(&self, row: Seq<Fixed>, ws: Seq<int>) -> bool {
        &&& ws.len() == self.n_steps - 1
        &&& row.len() == self.n_steps + 1
        &&& forall|j: int|
            0 <= j <= self.n_steps ==> (#[trigger] row[j])@ == self.column_value(ws, j)
    }

    /// Is the row driven by some table of increments? What simulate
    /// promises of each row: the drawn increments themselves are not
    /// part of the result, only that the row follows the recurrence
    /// for some choice of them.
    pub open spec fn some_increments_drive(&self, row: Seq<Fixed>) -> bool {
        exists|ws: Seq<int>| self.row_follows(row, ws)
    }

    /// With zero volatility the diffusion term vanishes for every
    /// increment, so each interior column equals its deterministic
    /// value whatever was drawn.
    pub proof fn lemma_zero_volatility_deterministic(&self, ws: Seq<int>, j: int)
        requires
            self.sigma@ == 0,
            0 <= j,
        ensures
            self.interior_value(ws, j) == self.det_value(j),
        decreases j,
    {
        if j > 0 {
            self.lemma_zero_volatility_deterministic(ws, j - 1);
        }
    }

    /// Runs the discretization engine on a caller-supplied table of
    /// Wiener increments, one row per path with one entry per interior
    /// step: the result has n_paths rows of n_steps + 1 columns, and
    /// every cell holds exactly the recurrence value for its column,
    /// the final one pinned to beta.
    pub fn simulate_with(&self, increments: &Vec<Vec<Fixed>>) -> (paths: Vec<Vec<Fixed>>)
        requires
            self.wf(),
            increments.len() == self.n_paths,
            forall|i: int|
                0 <= i < self.n_paths ==> (#[trigger] increments[i]).len() == self.n_steps - 1,
        ensures
            paths.len() == self.n_paths,
            forall|i: int|
                0 <= i < self.n_paths ==> (#[trigger] paths[i]).len() == self.n_steps + 1,
            forall|i: int, j: int|
                0 <= i < self.n_paths && 0 <= j <= self.n_steps ==> (#[trigger] paths[i][j])@
                    == self.column_value(mantissas(increments[i]@), j),
    {
        let mut paths: Vec<Vec<Fixed>> = Vec::new();
        let mut i: usize = 0;
        while i < self.n_paths
            invariant
                self.wf(),
                increments.len() == self.n_paths,
                forall|p: int|
                    0 <= p < self.n_paths ==> (#[trigger] increments[p]).len() == self.n_steps
                        - 1,
                i <= self.n_paths,
                paths.len() == i,
                forall|p: int|
                    0 <= p < i ==> (#[trigger] paths[p]).len() == self.n_steps + 1,
                forall|p: int, j: int|
                    0 <= p < i && 0 <= j <= self.n_steps ==> (#[trigger] paths[p][j])@
                        == self.column_value(mantissas(increments[p]@), j),
            decreases self.n_paths - i,
        {
            let ws = &increments[i];
            let ghost wsm = mantissas(ws@);
            let mut row: Vec<Fixed> = Vec::new();
            row.push(self.alpha);
            let mut j: usize = 1;
            while j < self.n_steps
                invariant
                    self.wf(),
                    ws.len() == self.n_steps - 1,
                    wsm == mantissas(ws@),
                    1 <= j <= self.n_steps,
                    row.len() == j,
                    forall|k: int|
                        0 <= k < j ==> (#[trigger] row[k])@ == self.interior_value(wsm, k),
                decreases self.n_steps - j,
            {
                let prev = row[j - 1];
                let d_w = ws[j - 1];
                let k = (self.n_steps - j + 1) as i64;
                let pull = self.beta.sub(prev).div_whole(k);
                let next = prev.add(pull).add(self.sigma.mul(d_w));
                proof {
                    assert(wsm[j - 1] == d_w@);
                    assert(next@ == self.interior_value(wsm, j as int));
                }
                row.push(next);
                j += 1;
            }
            row.push(self.beta);
            proof {
                assert(row.len() == self.n_steps + 1);
                assert forall|k: int|
                    0 <= k <= self.n_steps implies (#[trigger] row[k])@ == self.column_value(
                    wsm,
                    k,
                ) by {
                    if k < self.n_steps {
                        assert(row[k]@ == self.interior_value(wsm, k));
                    }
                }
            }
            paths.push(row);
            i += 1;
        }
        paths
    }

    /// Simulates Brownian Bridge paths using the Euler-Maruyama method
    /// with operating-system randomness: n_paths rows of n_steps + 1
    /// columns, column 0 holding alpha, the final column pinned to
    /// beta exactly for every row, each row following the recurrence
    /// for some drawn increments, and, with zero volatility, every
    /// cell equal to its deterministic value.
    pub fn simulate(&self) -> (paths: Vec<Vec<Fixed>>)
        requires
            self.wf(),
        ensures
            paths.len() == self.n_paths,
            forall|i: int|
                0 <= i < self.n_paths ==> (#[trigger] paths[i]).len() == self.n_steps + 1,
            forall|i: int|
                0 <= i < self.n_paths ==> (#[trigger] paths[i][0])@ == self.alpha@,
            forall|i: int|
                0 <= i < self.n_paths ==> (#[trigger] paths[i][self.n_steps as int])@
                    == self.beta@,
            forall|i: int|
                0 <= i < self.n_paths ==> self.some_increments_drive((#[trigger] paths[i])@),
            self.sigma@ == 0 ==> forall|i: int, j: int|
                0 <= i < self.n_paths && 0 <= j < self.n_steps ==> (#[trigger] paths[i][j])@
                    == self.det_value(j),
    {
        let dt = self.t_end.div_whole(self.n_steps as i64);
        proof {
            crate::fixed::lemma_div_le(self.t_end@, self.n_steps as int);
        }
        let sqrt_dt = dt.sqrt();
        let shocks = sample_increments(self.n_paths, self.n_steps - 1, sqrt_dt);
        let paths = self.simulate_with(&shocks);
        proof {
            assert forall|i: int|
                0 <= i < self.n_paths implies self.some_increments_drive(
                (#[trigger] paths[i])@,
            ) by {
                let ws0 = mantissas(shocks[i]@);
                assert(self.row_follows(paths[i]@, ws0));
            }
            if self.sigma@ == 0 {
                assert forall|i: int, j: int|
                    0 <= i < self.n_paths && 0 <= j < self.n_steps implies (#[trigger] paths[i][j])@
                    == self.det_value(j) by {
                    self.lemma_zero_volatility_deterministic(mantissas(shocks[i]@), j);
                }
            }
        }
        paths
    }
}

} // verus!
