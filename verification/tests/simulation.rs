use sde_paths::abm::ArithmeticBrownianMotion;
use sde_paths::bridge::BrownianBridge;
use sde_paths::feller::FellerSquareRoot;
use sde_paths::fixed::Fixed;

fn fx(whole: i64) -> Fixed {
    Fixed::new(whole * 1_000_000_000)
}

#[test]
fn abm_dimensions() {
    let p = ArithmeticBrownianMotion::new(fx(1), fx(2), 3, 7, fx(1), fx(50));
    let paths = p.simulate();
    assert_eq!(paths.len(), 3);
    for row in &paths {
        assert_eq!(row.len(), 8);
    }
}

#[test]
fn abm_zero_paths_gives_empty_matrix() {
    let p = ArithmeticBrownianMotion::new(fx(1), fx(2), 0, 4, fx(1), fx(50));
    let paths = p.simulate();
    assert_eq!(paths.len(), 0);
}

#[test]
fn abm_initial_column() {
    let p = ArithmeticBrownianMotion::new(fx(1), fx(2), 4, 5, fx(2), fx(100));
    let paths = p.simulate();
    for row in &paths {
        assert_eq!(row[0].m, 100_000_000_000);
    }
}

#[test]
fn abm_deterministic_ramp_exact() {
    // With zero volatility the drift mu dt = 5 * 0.25 = 1.25 accrues
    // exactly each step: both rows are 100, 101.25, ..., 105.
    let p = ArithmeticBrownianMotion::new(fx(5), fx(0), 2, 4, fx(1), fx(100));
    let paths = p.simulate();
    let expected: [i64; 5] = [
        100_000_000_000,
        101_250_000_000,
        102_500_000_000,
        103_750_000_000,
        105_000_000_000,
    ];
    assert_eq!(paths.len(), 2);
    for row in &paths {
        for (j, e) in expected.iter().enumerate() {
            assert_eq!(row[j].m, *e);
        }
    }
}

#[test]
fn abm_deterministic_formula() {
    // mu = 0.05 over dt = 0.25: each step adds exactly 0.0125, so
    // column j holds s_0 + mu * j * dt.
    let p = ArithmeticBrownianMotion::new(
        Fixed::new(50_000_000),
        fx(0),
        2,
        4,
        fx(1),
        fx(100),
    );
    let paths = p.simulate();
    let expected: [i64; 5] = [
        100_000_000_000,
        100_012_500_000,
        100_025_000_000,
        100_037_500_000,
        100_050_000_000,
    ];
    for row in &paths {
        for (j, e) in expected.iter().enumerate() {
            assert_eq!(row[j].m, *e);
        }
    }
}

#[test]
fn abm_grid_consistency() {
    // dt = t_end / n_steps = 2 / 3 truncates to 0.666666666, and the
    // same drift increment mu dt appears at every step of every path.
    let p = ArithmeticBrownianMotion::new(fx(3), fx(0), 2, 3, fx(2), fx(10));
    let paths = p.simulate();
    let drift = 3i64 * 666_666_666; // fx_mul(3, 0.666666666)
    for row in &paths {
        for j in 0..3 {
            assert_eq!(row[j + 1].m - row[j].m, drift);
        }
    }
}

#[test]
fn abm_supplied_increments_exact() {
    // mu = 0, sigma = 1: each column adds exactly the supplied
    // increment, so the increments are visibly not ignored.
    let p = ArithmeticBrownianMotion::new(fx(0), fx(1), 1, 2, fx(1), fx(0));
    let increments = vec![vec![Fixed::new(500_000_000), Fixed::new(250_000_000)]];
    let paths = p.simulate_with(&increments);
    assert_eq!(paths[0][0].m, 0);
    assert_eq!(paths[0][1].m, 500_000_000);
    assert_eq!(paths[0][2].m, 750_000_000);
}

#[test]
fn bridge_dimensions_and_initial_column() {
    let p = BrownianBridge::new(fx(1), fx(9), fx(1), 3, 6, fx(4));
    let paths = p.simulate();
    assert_eq!(paths.len(), 3);
    for row in &paths {
        assert_eq!(row.len(), 7);
        assert_eq!(row[0].m, 1_000_000_000);
    }
}

#[test]
fn bridge_pinned_terminal() {
    // Column n_steps equals beta exactly for every row, whatever the
    // volatility and whatever was drawn.
    for sigma_m in [0i64, 1_000_000_000, 3_500_000_000] {
        let p = BrownianBridge::new(fx(0), fx(10), Fixed::new(sigma_m), 4, 5, fx(1));
        let paths = p.simulate();
        for row in &paths {
            assert_eq!(row[5].m, 10_000_000_000);
        }
    }
}

#[test]
fn bridge_deterministic_interior() {
    // With zero volatility the pull alone moves the path: from 0
    // toward 10 in 5 steps the row is 0, 2, 4, 6, 8, 10 exactly.
    let p = BrownianBridge::new(fx(0), fx(10), fx(0), 2, 5, fx(1));
    let paths = p.simulate();
    let expected: [i64; 6] = [
        0,
        2_000_000_000,
        4_000_000_000,
        6_000_000_000,
        8_000_000_000,
        10_000_000_000,
    ];
    for row in &paths {
        for (j, e) in expected.iter().enumerate() {
            assert_eq!(row[j].m, *e);
        }
    }
}

#[test]
fn bridge_single_step() {
    // One step leaves no interior: the row is just alpha then beta.
    let p = BrownianBridge::new(fx(3), fx(7), fx(2), 2, 1, fx(1));
    let paths = p.simulate();
    for row in &paths {
        assert_eq!(row.len(), 2);
        assert_eq!(row[0].m, 3_000_000_000);
        assert_eq!(row[1].m, 7_000_000_000);
    }
}

#[test]
fn feller_dimensions_and_initial_column() {
    let p = FellerSquareRoot::new(fx(1), fx(2), fx(1), 3, 4, fx(1), fx(2));
    let paths = p.simulate();
    assert_eq!(paths.len(), 3);
    for row in &paths {
        assert_eq!(row.len(), 5);
        assert_eq!(row[0].m, 2_000_000_000);
    }
}

#[test]
fn feller_negative_value_is_tolerated() {
    // A negative state never reaches the square root: the clamp zeroes
    // the diffusion term, and with zero drift the path just stays at
    // -1 for every draw instead of producing an undefined value.
    let p = FellerSquareRoot::new(fx(0), fx(0), fx(1), 3, 6, fx(1), fx(-1));
    let paths = p.simulate();
    for row in &paths {
        for cell in row {
            assert_eq!(cell.m, -1_000_000_000);
        }
    }
}

#[test]
fn feller_deterministic_mean_reversion() {
    // sigma = 0, alpha = 1, mu = 2, dt = 0.5: the state halves its
    // distance to mu each step: 0, 1, 1.5.
    let p = FellerSquareRoot::new(fx(1), fx(2), fx(0), 1, 2, fx(1), fx(0));
    let paths = p.simulate();
    assert_eq!(paths[0][0].m, 0);
    assert_eq!(paths[0][1].m, 1_000_000_000);
    assert_eq!(paths[0][2].m, 1_500_000_000);
}

#[test]
fn feller_supplied_increments_use_square_root() {
    // alpha = 0 removes the drift; sigma = 1 and dW = 0.5 add
    // sqrt(4) * 0.5 = 1 exactly, so the row is 4 then 5.
    let p = FellerSquareRoot::new(fx(0), fx(0), fx(1), 1, 1, fx(1), fx(4));
    let increments = vec![vec![Fixed::new(500_000_000)]];
    let paths = p.simulate_with(&increments);
    assert_eq!(paths[0][0].m, 4_000_000_000);
    assert_eq!(paths[0][1].m, 5_000_000_000);
}
