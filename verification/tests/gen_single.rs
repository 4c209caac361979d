use bullpen::{BullpenSolver, GenPen};

fn region_sizes(grid: &[Vec<usize>]) -> Vec<usize> {
    let n = grid.len();
    let mut sizes = vec![0; n];
    for row in grid {
        assert_eq!(row.len(), n);
        for &l in row {
            assert!(l < n);
            sizes[l] += 1;
        }
    }
    sizes
}

#[test]
fn gen_single_boards_are_unique() {
    let mut gen = GenPen::new(fastrand::Rng::with_seed(7));
    for n in [5usize, 7, 9] {
        let grid = gen.gen(n);
        assert_eq!(grid.len(), n);
        assert!(region_sizes(&grid).iter().all(|&s| s > 0));
        assert!(BullpenSolver::new(&grid).is_unique());
    }
}

#[test]
fn gen_single_is_deterministic_for_a_seed() {
    let a = GenPen::new(fastrand::Rng::with_seed(42)).gen(8);
    let b = GenPen::new(fastrand::Rng::with_seed(42)).gen(8);
    assert_eq!(a, b);
}
