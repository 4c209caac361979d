use bullpen::genpenai::{generate, matchable, num_capped, random_regions, SplitMix};
use bullpen::BullpenSolver;

type Grid = Vec<Vec<usize>>;

fn orth(y: usize, x: usize, n: usize) -> Vec<(usize, usize)> {
    let mut v = Vec::new();
    if y > 0 {
        v.push((y - 1, x));
    }
    if y + 1 < n {
        v.push((y + 1, x));
    }
    if x > 0 {
        v.push((y, x - 1));
    }
    if x + 1 < n {
        v.push((y, x + 1));
    }
    v
}

/// Every region 0..n present, and each one contiguous.
fn assert_valid_regions(grid: &Grid) {
    let n = grid.len();
    for region in 0..n {
        let cells: Vec<(usize, usize)> = (0..n)
            .flat_map(|y| (0..n).map(move |x| (y, x)))
            .filter(|&(y, x)| grid[y][x] == region)
            .collect();
        assert!(!cells.is_empty(), "region {} is empty", region);

        // flood fill from the first cell must reach the whole region
        let mut seen = vec![vec![false; n]; n];
        let mut stack = vec![cells[0]];
        seen[cells[0].0][cells[0].1] = true;
        let mut reached = 0;
        while let Some((y, x)) = stack.pop() {
            reached += 1;
            for (ny, nx) in orth(y, x, n) {
                if grid[ny][nx] == region && !seen[ny][nx] {
                    seen[ny][nx] = true;
                    stack.push((ny, nx));
                }
            }
        }
        assert_eq!(reached, cells.len(), "region {region} is split");
    }
}

#[test]
fn genpenai_generated_puzzles_are_unique_and_valid() {
    for n in [5, 6, 8] {
        for seed in 0..10 {
            let grid = generate(n, seed);
            assert_valid_regions(&grid);
            assert!(
                BullpenSolver::new(&grid).is_unique(),
                "n={} seed={} not unique: {:?}",
                n,
                seed,
                grid
            );
        }
    }
}

#[test]
fn genpenai_deterministic_for_a_seed() {
    assert_eq!(generate(6, 42), generate(6, 42));
}

#[test]
fn splitmix_reference_values() {
    // SplitMix64 from seed 0: first output is 0xE220A8397B1DCDAF
    let mut rng = SplitMix::new(0);
    assert_eq!(rng.next(), 0xE220_A839_7B1D_CDAF);
    assert_eq!(rng.next(), 0x6E78_9E6A_A1B9_65F4);
}

#[test]
fn below_and_range_stay_in_bounds() {
    let mut rng = SplitMix::new(7);
    for k in 1..50 {
        assert!(rng.below(k) < k);
        let r = rng.range((3, 3 + k));
        assert!((3..=3 + k).contains(&r));
    }
}

#[test]
fn num_capped_is_a_third() {
    assert_eq!(num_capped(15), (5, 7));
    assert_eq!(num_capped(20), (6, 8));
    assert_eq!(num_capped(2), (0, 2));
}

#[test]
fn random_regions_cover_the_board() {
    let mut rng = SplitMix::new(3);
    for n in [1, 4, 9, 15] {
        let grid = random_regions(n, &mut rng, num_capped(n));
        assert_eq!(grid.len(), n);
        assert!(grid.iter().all(|row| row.len() == n && row.iter().all(|&l| l < n)));
        assert_valid_regions(&grid);
    }
}

#[test]
fn matchable_rejects_region_confined_to_one_row_pair() {
    // regions 0 and 1 both live only in row 0: no region-row matching
    let grid = vec![vec![0, 1, 2], vec![2, 2, 2], vec![2, 2, 2]];
    assert!(!matchable(&grid));
    let ok = vec![vec![0, 0, 0], vec![1, 1, 1], vec![2, 2, 2]];
    assert!(matchable(&ok));
}

#[test]
fn solvable_random_boards_pass_the_matching_test() {
    // any board the solver finds a solution for must pass the prefilter
    let mut rng = SplitMix::new(7);
    let mut solvable_seen = 0;
    for _ in 0..300 {
        let grid = random_regions(6, &mut rng, num_capped(6));
        let count = BullpenSolver::new(&grid).count_sol();
        if count > 0 {
            solvable_seen += 1;
            assert!(matchable(&grid));
        }
    }
    assert!(solvable_seen > 0);
}
