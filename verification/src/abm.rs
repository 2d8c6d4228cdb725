//! Arithmetic Brownian Motion: dS = mu dt + sigma dW, discretized by
//! the Euler-Maruyama method over a uniform time grid.

use vstd::prelude::*;

verus! {

use crate::fixed::{Fixed, fx_add, fx_mul, tdiv, mantissas};
use crate::rng::sample_increments;

/// Arithmetic Brownian Motion simulates the asset price over time
/// using the formula dS = mu dt + sigma dW.
pub struct ArithmeticBrownianMotion {
    pub mu: Fixed,
    pub sigma: Fixed,
    pub n_paths: usize,
    pub n_steps: usize,
    pub t_end: Fixed,
    pub s_0: Fixed,
}

impl ArithmeticBrownianMotion {
    /// Creates a new ABM instance.
    pub fn new(mu: Fixed, sigma: Fixed, n_paths: usize, n_steps: usize, t_end: Fixed, s_0: Fixed)
        -> (r: Self)
        ensures
            r.mu == mu,
            r.sigma == sigma,
            r.n_paths == n_paths,
            r.n_steps == n_steps,
            r.t_end == t_end,
            r.s_0 == s_0,
    {
        Self { mu, sigma, n_paths, n_steps, t_end, s_0 }
    }

    /// Parameters a simulation call accepts: at least one step so the
    /// grid divides, a positive horizon, and a step count the machine
    /// can index past and cast to a mantissa.
    pub open spec fn wf(&self) -> bool {
        &&& 1 <= self.n_steps
        &&& self.n_steps < usize::MAX
        &&& self.n_steps <= i64::MAX
        &&& self.t_end@ > 0
    }

    /// The uniform step of the time grid: dt = t_end / n_steps, shared
    /// by every path and every step of one call.
    pub open spec fn spec_dt(&self) -> int {
        tdiv(self.t_end@, self.n_steps as int)
    }

    /// One Euler-Maruyama update: the previous value plus the drift
    /// term mu dt plus the diffusion term sigma dW.
    pub open spec fn step(&self, prev: int, dw: int) -> int {
        fx_add(fx_add(prev, fx_mul(self.mu@, self.spec_dt())), fx_mul(self.sigma@, dw))
    }

    /// Value of a path at column j when driven by the increment
    /// mantissas ws: column 0 is s_0, and each later column follows
    /// from its predecessor by one update with ws[j - 1].
    pub open spec fn path_value(&self, ws: Seq<int>, j: int) -> int
        decreases j,
    {
        if j <= 0 {
            self.s_0@
        } else {
            self.step(self.path_value(ws, j - 1), ws[j - 1])
        }
    }

    /// Value of the path at column j when the volatility is zero: each
    /// step adds the same drift mu dt and randomness contributes
    /// nothing.
    pub open spec fn det_value(&self, j: int) -> int
        decreases j,
    {
        if j <= 0 {
            self.s_0@
        } else {
            fx_add(self.det_value(j - 1), fx_mul(self.mu@, self.spec_dt()))
        }
    }

    /// Does the row hold exactly the recurrence driven by ws?
    pub open spec fn row_follows(&self, row: Seq<Fixed>, ws: Seq<int>) -> bool {
        &&& ws.len() == self.n_steps
        &&& row.len() == self.n_steps + 1
        &&& forall|j: int|
            0 <= j <= self.n_steps ==> (#[trigger] row[j])@ == self.path_value(ws, j)
    }

    /// Is the row driven by some table of increments? What simulate
    /// promises of each row: the drawn increments themselves are not
    /// part of the result, only that the row follows the recurrence
    /// for some choice of them.
    pub open spec fn some_increments_drive(&self, row: Seq<Fixed>) -> bool {
        exists|ws: Seq<int>| self.row_follows(row, ws)
    }

    /// With zero volatility the diffusion term vanishes for every
    /// increment, so the path equals the deterministic ramp whatever
    /// was drawn.
    pub proof fn lemma_zero_volatility_deterministic(&self, ws: Seq<int>, j: int)
        requires
            self.sigma@ == 0,
            0 <= j,
        ensures
            self.path_value(ws, j) == self.det_value(j),
        decreases j,
    {
        if j > 0 {
            self.lemma_zero_volatility_deterministic(ws, j - 1);
        }
    }

    /// Does the deterministic ramp stay representable through column
    /// k? Saturation is the one thing that can bend it.
    pub open spec fn ramp_in_range(&self, k: int) -> bool {
        i64::MIN <= self.s_0@ + k * fx_mul(self.mu@, self.spec_dt()) <= i64::MAX
    }

    /// With zero volatility the path reduces to the exact arithmetic
    /// ramp: column j holds s_0 + j (mu dt), the discrete form of
    /// S_j = S_0 + mu j dt, as long as no column saturates.
    pub proof fn lemma_deterministic_ramp(&self, j: int)
        requires
            0 <= j,
            forall|k: int| 0 <= k <= j ==> #[trigger] self.ramp_in_range(k),
        ensures
            self.det_value(j) == self.s_0@ + j * fx_mul(self.mu@, self.spec_dt()),
        decreases j,
    {
        let d = fx_mul(self.mu@, self.spec_dt());
        if j == 0 {
            assert(self.s_0@ + 0 * d == self.s_0@);
        } else {
            self.lemma_deterministic_ramp(j - 1);
            assert((j - 1) * d + d == j * d) by (nonlinear_arith);
            assert(self.ramp_in_range(j));
        }
    }

    /// Runs the discretization engine on a caller-supplied table of
    /// Wiener increments, one row per path with one entry per step:
    /// the result has n_paths rows of n_steps + 1 columns, and every
    /// cell holds exactly the recurrence value for its column.
    pub fn simulate_with(&self, increments: &Vec<Vec<Fixed>>) -> (paths: Vec<Vec<Fixed>>)
        requires
            self.wf(),
            increments.len() == self.n_paths,
            forall|i: int|
                0 <= i < self.n_paths ==> (#[trigger] increments[i]).len() == self.n_steps,
        ensures
            paths.len() == self.n_paths,
            forall|i: int|
                0 <= i < self.n_paths ==> (#[trigger] paths[i]).len() == self.n_steps + 1,
            forall|i: int, j: int|
                0 <= i < self.n_paths && 0 <= j <= self.n_steps ==> (#[trigger] paths[i][j])@
                    == self.path_value(mantissas(increments[i]@), j),
    {
        let dt = self.t_end.div_whole(self.n_steps as i64);
        let drift = self.mu.mul(dt);
        let mut paths: Vec<Vec<Fixed>> = Vec::new();
        let mut i: usize = 0;
        while i < self.n_paths
            invariant
                self.wf(),
                increments.len() == self.n_paths,
                forall|p: int|
                    0 <= p < self.n_paths ==> (#[trigger] increments[p]).len() == self.n_steps,
                dt@ == self.spec_dt(),
                drift@ == fx_mul(self.mu@, self.spec_dt()),
                i <= self.n_paths,
                paths.len() == i,
                forall|p: int|
                    0 <= p < i ==> (#[trigger] paths[p]).len() == self.n_steps + 1,
                forall|p: int, j: int|
                    0 <= p < i && 0 <= j <= self.n_steps ==> (#[trigger] paths[p][j])@
                        == self.path_value(mantissas(increments[p]@), j),
            decreases self.n_paths - i,
        {
            let ws = &increments[i];
            let ghost wsm = mantissas(ws@);
            let mut row: Vec<Fixed> = Vec::new();
            row.push(self.s_0);
            let mut j: usize = 1;
            while j <= self.n_steps
                invariant
                    self.wf(),
                    ws.len() == self.n_steps,
                    wsm == mantissas(ws@),
                    dt@ == self.spec_dt(),
                    drift@ == fx_mul(self.mu@, self.spec_dt()),
                    1 <= j <= self.n_steps + 1,
                    row.len() == j,
                    forall|k: int|
                        0 <= k < j ==> (#[trigger] row[k])@ == self.path_value(wsm, k),
                decreases self.n_steps + 1 - j,
            {
                let prev = row[j - 1];
                let d_w = ws[j - 1];
                let next = prev.add(drift).add(self.sigma.mul(d_w));
                proof {
                    assert(wsm[j - 1] == d_w@);
                    assert(next@ == self.path_value(wsm, j as int));
                }
                row.push(next);
                j += 1;
            }
            paths.push(row);
            i += 1;
        }
        paths
    }

    /// Simulates the ABM paths using the Euler-Maruyama method with
    /// operating-system randomness: n_paths rows of n_steps + 1
    /// columns, column 0 holding s_0, each row following the
    /// recurrence for some drawn increments, and, with zero
    /// volatility, every cell equal to the deterministic ramp.
    pub fn simulate(&self) -> (paths: Vec<Vec<Fixed>>)
        requires
            self.wf(),
        ensures
            paths.len() == self.n_paths,
            forall|i: int|
                0 <= i < self.n_paths ==> (#[trigger] paths[i]).len() == self.n_steps + 1,
            forall|i: int|
                0 <= i < self.n_paths ==> (#[trigger] paths[i][0])@ == self.s_0@,
            forall|i: int|
                0 <= i < self.n_paths ==> self.some_increments_drive((#[trigger] paths[i])@),
            self.sigma@ == 0 ==> forall|i: int, j: int|
                0 <= i < self.n_paths && 0 <= j <= self.n_steps ==> (#[trigger] paths[i][j])@
                    == self.det_value(j),
    {
        let dt = self.t_end.div_whole(self.n_steps as i64);
        proof {
            crate::fixed::lemma_div_le(self.t_end@, self.n_steps as int);
        }
        let sqrt_dt = dt.sqrt();
        let shocks = sample_increments(self.n_paths, self.n_steps, sqrt_dt);
        let paths = self.simulate_with(&shocks);
        proof {
            assert forall|i: int|
                0 <= i < self.n_paths implies self.some_increments_drive(
                (#[trigger] paths[i])@,
            ) by {
                let ws0 = mantissas(shocks[i]@);
                assert(self.row_follows(paths[i]@, ws0));
            }
            if self.sigma@ == 0 {
                assert forall|i: int, j: int|
                    0 <= i < self.n_paths && 0 <= j <= self.n_steps implies (#[trigger] paths[i][j])@
                    == self.det_value(j) by {
                    self.lemma_zero_volatility_deterministic(mantissas(shocks[i]@), j);
                }
            }
        }
        paths
    }
}

} // verus!
