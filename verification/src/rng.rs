//! The random increment source: independent scalar draws from the
//! operating system's entropy, shaped into Wiener increments.
//!
//! A draw is deliberately non-reproducible (no seed, no replay), so
//! nothing is stated about any drawn value: every caller's contract
//! must hold for all outcomes.

use vstd::prelude::*;

verus! {

use crate::fixed::{Fixed, fx_mul, SCALE};

/// Relies on rand::rngs::OsRng through rand::Rng::gen: one fresh
/// 64-bit draw of operating-system entropy per call. Nothing is
/// promised of the value.
#[verifier::external_body]
fn os_draw() -> u64 {
    let mut rng = rand::rngs::OsRng;
    rand::Rng::gen::<u64>(&mut rng)
}

/// One draw from [0, 1): a fixed-point mantissa strictly below one
/// whole, taken from the entropy source.
fn uniform_fraction() -> (r: Fixed)
    ensures
        0 <= r@ < SCALE,
{
    let d = os_draw();
    let m = (d % (SCALE as u64)) as i64;
    Fixed { m }
}

/// One Wiener increment: a uniform draw from [0, 1) scaled by the
/// square root of the step size.
pub fn wiener_increment(sqrt_dt: Fixed) -> (r: Fixed)
    ensures
        exists|f: int| 0 <= f < SCALE && r@ == fx_mul(f, sqrt_dt@),
{
    let f = uniform_fraction();
    let r = f.mul(sqrt_dt);
    proof {
        assert(0 <= f@ < SCALE && r@ == fx_mul(f@, sqrt_dt@));
    }
    r
}

/// A full table of Wiener increments, one per (path, step) pair, each
/// drawn independently of all the others.
pub fn sample_increments(n_paths: usize, n_steps: usize, sqrt_dt: Fixed) -> (ws: Vec<Vec<Fixed>>)
    ensures
        ws.len() == n_paths,
        forall|i: int| 0 <= i < n_paths ==> (#[trigger] ws[i]).len() == n_steps,
{
    let mut ws: Vec<Vec<Fixed>> = Vec::new();
    let mut i: usize = 0;
    while i < n_paths
        invariant
            i <= n_paths,
            ws.len() == i,
            forall|p: int| 0 <= p < i ==> (#[trigger] ws[p]).len() == n_steps,
        decreases n_paths - i,
    {
        let mut row: Vec<Fixed> = Vec::new();
        let mut j: usize = 0;
        while j < n_steps
            invariant
                j <= n_steps,
                row.len() == j,
            decreases n_steps - j,
        {
            row.push(wiener_increment(sqrt_dt));
            j += 1;
        }
        ws.push(row);
        i += 1;
    }
    ws
}

} // verus!
