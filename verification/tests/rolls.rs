use bullpen::gen_single::GenPen;
use bullpen::gendoubleai::{self, DoubleSolver, K};
use bullpen::genpenai::{self, num_capped, SplitMix};
use bullpen::matching::perfect_matching;
use bullpen::BullpenSolver;

#[test]
fn single_roll_returns_only_unique_boards() {
    let mut rng = SplitMix::new(17);
    let mut found = 0;
    for _ in 0..40 {
        if let Some(g) = genpenai::roll(6, &mut rng, num_capped(6)) {
            assert_eq!(g.len(), 6);
            assert!(BullpenSolver::new(&g).is_unique());
            assert_eq!(BullpenSolver::new(&g).solve().len(), 1);
            found += 1;
        }
    }
    assert!(found > 0);
}

#[test]
fn double_roll_returns_only_unique_boards() {
    let mut rng = SplitMix::new(5);
    let mut found = 0;
    for _ in 0..2000 {
        if let Some(g) = gendoubleai::roll(10, &mut rng, gendoubleai::num_capped(10)) {
            assert_eq!(g.len(), 10);
            assert!(DoubleSolver::new(&g, K).is_unique());
            found += 1;
            break;
        }
    }
    assert!(found > 0);
}

#[test]
fn gen_pen_roll_returns_only_unique_boards() {
    let mut gen = GenPen::new(fastrand::Rng::with_seed(3));
    let mut found = 0;
    for _ in 0..40 {
        if let Some(g) = gen.roll(6) {
            assert_eq!(g.len(), 6);
            assert!(BullpenSolver::new(&g).is_unique());
            found += 1;
        }
    }
    assert!(found > 0);
}

#[test]
fn double_solver_accepts_zero_bulls_per_line() {
    let grid = vec![vec![0, 1], vec![1, 0]];
    let _solver = DoubleSolver::new(&grid, 0);
}

#[test]
fn flow_filter_takes_any_k_that_fits() {
    let grid = vec![vec![0, 0, 1], vec![0, 2, 1], vec![2, 2, 1]];
    assert!(!gendoubleai::matchable(&grid, 1 << 40));
    assert!(gendoubleai::matchable(&grid, 1));
}

#[test]
fn matching_reads_the_first_n_entries_of_wide_rows() {
    let touch = vec![vec![false, true, true], vec![true, false, false]];
    assert!(perfect_matching(&touch));
    let blocked = vec![vec![false, true, true], vec![false, true, false]];
    assert!(!perfect_matching(&blocked));
}
