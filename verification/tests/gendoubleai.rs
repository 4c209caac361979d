use bullpen::gendoubleai::{generate, matchable, num_capped, random_regions, regions_feasible, DoubleSolver, SplitMix, K};

type Grid = Vec<Vec<usize>>;
type Pos = (usize, usize);

fn orth(y: usize, x: usize, n: usize) -> Vec<Pos> {
    let mut v = Vec::new();
    if y > 0 {
        v.push((y - 1, x));
    }
    if y + 1 < n {
        v.push((y + 1, x));
    }
    if x > 0 {
        v.push((y, x - 1));
    }
    if x + 1 < n {
        v.push((y, x + 1));
    }
    v
}

/// Count k=1 solutions by trying every column permutation.
fn brute_force_k1(regions: &Grid) -> usize {
    fn rec(regions: &Grid, r: usize, perm: &mut Vec<usize>, used: &mut Vec<bool>, count: &mut usize) {
        let n = regions.len();
        if r == n {
            let mut seen = vec![false; n];
            for (r, &c) in perm.iter().enumerate() {
                let reg = regions[r][c];
                if seen[reg] {
                    return;
                }
                seen[reg] = true;
            }
            *count += 1;
            return;
        }
        for c in 0..n {
            if used[c] || (r > 0 && perm[r - 1].abs_diff(c) == 1) {
                continue;
            }
            used[c] = true;
            perm[r] = c;
            rec(regions, r + 1, perm, used, count);
            used[c] = false;
        }
    }

    let n = regions.len();
    let mut count = 0;
    rec(regions, 0, &mut vec![0; n], &mut vec![false; n], &mut count);
    count
}

/// All k=2 solutions by choosing a column pair per board row.
fn brute_force_k2(grid: &Grid) -> Vec<Vec<Pos>> {
    fn rec(
        grid: &Grid,
        r: usize,
        col_count: &mut Vec<usize>,
        reg_count: &mut Vec<usize>,
        rows: &mut Vec<(usize, usize)>,
        sols: &mut Vec<Vec<Pos>>,
    ) {
        let n = grid.len();
        if r == n {
            if col_count.iter().all(|&v| v == 2) && reg_count.iter().all(|&v| v == 2) {
                sols.push(rows.iter().enumerate().flat_map(|(y, &(a, b))| [(y, a), (y, b)]).collect());
            }
            return;
        }
        for c1 in 0..n {
            for c2 in c1 + 2..n {
                if r > 0 {
                    let (p1, p2) = rows[r - 1];
                    if p1.abs_diff(c1) <= 1 || p1.abs_diff(c2) <= 1 || p2.abs_diff(c1) <= 1 || p2.abs_diff(c2) <= 1 {
                        continue; // touches a bull in the row above
                    }
                }
                if col_count[c1] >= 2 || col_count[c2] >= 2 {
                    continue;
                }
                let (g1, g2) = (grid[r][c1], grid[r][c2]);
                if g1 == g2 {
                    if reg_count[g1] > 0 {
                        continue;
                    }
                } else if reg_count[g1] >= 2 || reg_count[g2] >= 2 {
                    continue;
                }

                col_count[c1] += 1;
                col_count[c2] += 1;
                reg_count[g1] += 1;
                reg_count[g2] += 1;
                rows.push((c1, c2));
                rec(grid, r + 1, col_count, reg_count, rows, sols);
                rows.pop();
                reg_count[g2] -= 1;
                reg_count[g1] -= 1;
                col_count[c2] -= 1;
                col_count[c1] -= 1;
            }
        }
    }

    let n = grid.len();
    let mut sols = Vec::new();
    rec(grid, 0, &mut vec![0; n], &mut vec![0; n], &mut Vec::new(), &mut sols);
    sols
}

fn assert_valid_solution(grid: &Grid, sol: &[Pos], k: usize) {
    let n = grid.len();
    assert_eq!(sol.len(), k * n);
    let mut rows = vec![0; n];
    let mut cols = vec![0; n];
    let mut regs = vec![0; n];
    for &(r, c) in sol {
        rows[r] += 1;
        cols[c] += 1;
        regs[grid[r][c]] += 1;
    }
    for i in 0..n {
        assert!(rows[i] == k && cols[i] == k && regs[i] == k, "count constraint broken");
    }
    for (i, &(r, c)) in sol.iter().enumerate() {
        for &(y, x) in &sol[i + 1..] {
            assert!(r.abs_diff(y).max(c.abs_diff(x)) >= 2, "bulls touch: {:?} {:?}", (r, c), (y, x));
        }
    }
}

/// Every region 0..n present, and each one contiguous.
fn assert_valid_regions(grid: &Grid) {
    let n = grid.len();
    for region in 0..n {
        let cells: Vec<Pos> = (0..n)
            .flat_map(|y| (0..n).map(move |x| (y, x)))
            .filter(|&(y, x)| grid[y][x] == region)
            .collect();
        assert!(!cells.is_empty(), "region {} is empty", region);

        let mut seen = vec![vec![false; n]; n];
        let mut stack = vec![cells[0]];
        seen[cells[0].0][cells[0].1] = true;
        let mut reached = 0;
        while let Some((y, x)) = stack.pop() {
            reached += 1;
            for (ny, nx) in orth(y, x, n) {
                if grid[ny][nx] == region && !seen[ny][nx] {
                    seen[ny][nx] = true;
                    stack.push((ny, nx));
                }
            }
        }
        assert_eq!(reached, cells.len(), "region {region} is split");
    }
}

/// Random n x n label grid with every region present.
fn random_label_grid(n: usize, rng: &mut SplitMix) -> Option<Grid> {
    let grid: Grid = (0..n).map(|_| (0..n).map(|_| rng.below(n)).collect()).collect();
    let mut seen = vec![false; n];
    for row in &grid {
        for &reg in row {
            seen[reg] = true;
        }
    }
    if seen.iter().all(|&s| s) {
        Some(grid)
    } else {
        None
    }
}

/// At multiplicity 1 Algorithm M is Algorithm X, so it must agree with a
/// permutation brute force on random label grids.
#[test]
fn k1_matches_brute_force() {
    let n = 5;
    let mut rng = SplitMix::new(0xdead_beef);
    let mut tested = 0;
    while tested < 200 {
        let grid = match random_label_grid(n, &mut rng) {
            Some(g) => g,
            None => continue,
        };
        tested += 1;
        let expected = brute_force_k1(&grid).min(2);
        assert_eq!(DoubleSolver::new(&grid, 1).solve().len(), expected, "mismatch for regions {:?}", grid);
    }
}

/// The multiplicity machinery must count k=2 solutions exactly once each.
#[test]
fn k2_matches_brute_force_on_random_labels() {
    let n = 6;
    let mut rng = SplitMix::new(42);
    let mut tested = 0;
    while tested < 200 {
        let grid = match random_label_grid(n, &mut rng) {
            Some(g) => g,
            None => continue,
        };
        tested += 1;
        let expected = brute_force_k2(&grid);
        let got = DoubleSolver::new(&grid, 2).solve();
        assert_eq!(got.len(), expected.len().min(2), "count mismatch for regions {:?}", grid);
        if expected.len() == 1 {
            let mut mine = got[0].clone();
            mine.sort();
            let mut theirs = expected[0].clone();
            theirs.sort();
            assert_eq!(mine, theirs, "solution mismatch for regions {:?}", grid);
        }
    }
}

/// Same cross-check on contiguous grown boards.
#[test]
fn k2_matches_brute_force_on_region_boards() {
    let n = 7;
    let mut rng = SplitMix::new(7);
    for _ in 0..50 {
        let grid = random_regions(n, &mut rng, num_capped(n));
        let expected = brute_force_k2(&grid);
        let got = DoubleSolver::new(&grid, 2).solve();
        assert_eq!(got.len(), expected.len().min(2), "count mismatch for regions {:?}", grid);
    }
}

#[test]
fn solver_is_reusable_after_solving() {
    let mut rng = SplitMix::new(3);
    let grid = random_regions(10, &mut rng, num_capped(10));
    let mut solver = DoubleSolver::new(&grid, 2);
    let first = solver.solve().len();
    // links, needs, and counts must be fully restored: solving again agrees
    assert_eq!(solver.solve().len(), first);
}

/// The prefilters must never reject a solvable board.
#[test]
fn prefilters_are_sound() {
    let n = 7;
    let mut rng = SplitMix::new(11);
    for _ in 0..200 {
        let grid = random_regions(n, &mut rng, num_capped(n));
        if !regions_feasible(&grid, K) || !matchable(&grid, K) {
            assert!(
                DoubleSolver::new(&grid, K).solve().is_empty(),
                "prefilter rejected a solvable board: {:?}",
                grid
            );
        }
    }
}

#[test]
fn gendoubleai_generated_puzzles_are_unique_and_valid() {
    for seed in 0..4 {
        let grid = generate(10, seed);
        assert_valid_regions(&grid);
        let sols = DoubleSolver::new(&grid, K).solve();
        assert_eq!(sols.len(), 1, "seed={} not unique: {:?}", seed, grid);
        assert_valid_solution(&grid, &sols[0], K);
    }
}

#[test]
fn gendoubleai_deterministic_for_a_seed() {
    assert_eq!(generate(10, 42), generate(10, 42));
}

// ------------------------------------------------------------ own tests

#[test]
fn num_capped_caps_about_two_thirds() {
    assert_eq!(num_capped(14), (9, 11));
    assert_eq!(num_capped(10), (5, 7));
    assert_eq!(num_capped(4), (0, 1));
    assert_eq!(num_capped(2), (0, 0));
}

#[test]
fn solutions_are_valid_and_distinct() {
    let mut rng = SplitMix::new(5);
    let mut seen_two = false;
    for _ in 0..40 {
        let grid = random_regions(7, &mut rng, num_capped(7));
        let sols = DoubleSolver::new(&grid, 2).solve();
        assert!(sols.len() <= 2);
        for s in &sols {
            assert_valid_solution(&grid, s, 2);
        }
        if sols.len() == 2 {
            seen_two = true;
            let mut a = sols[0].clone();
            a.sort();
            let mut b = sols[1].clone();
            b.sort();
            assert_ne!(a, b);
        }
    }
    let _ = seen_two;
}

#[test]
fn is_unique_agrees_with_solve() {
    let grid = generate(8, 1);
    assert!(DoubleSolver::new(&grid, K).is_unique());
    let mut solver = DoubleSolver::new(&grid, K);
    assert_eq!(solver.solve().len(), 1);
    assert!(solver.is_unique());
}

#[test]
fn double_zero_budget_gives_up() {
    let grid = generate(8, 2);
    let mut solver = DoubleSolver::new(&grid, K);
    assert!(solver.solve_within(0).is_none());
    assert!(solver.solve_other_within(0, &[]).is_none());
    // the solver is still usable afterwards
    assert_eq!(solver.solve().len(), 1);
}

#[test]
fn solve_other_finds_another_or_confirms_uniqueness() {
    // a unique board: the known solution is the only one
    let grid = generate(8, 3);
    let sols = DoubleSolver::new(&grid, K).solve();
    assert_eq!(sols.len(), 1);
    let mut known = sols[0].clone();
    known.sort();
    assert_eq!(DoubleSolver::new(&grid, K).solve_other_within(usize::MAX, &known), Some(None));

    // with a known list that is not the solution, the solution itself is
    // the "other" one
    let other = DoubleSolver::new(&grid, K).solve_other_within(usize::MAX, &[]).unwrap().unwrap();
    assert_valid_solution(&grid, &other, K);
    let mut o = other.clone();
    o.sort();
    assert_eq!(o, known);
}

#[test]
fn l_tromino_region_is_infeasible() {
    // region 0 is an L-tromino: any two of its cells touch
    let grid = vec![
        vec![0, 0, 1, 1],
        vec![0, 2, 2, 1],
        vec![3, 2, 2, 1],
        vec![3, 3, 3, 3],
    ];
    assert!(!regions_feasible(&grid, 2));
    assert!(regions_feasible(&grid, 1));
    assert!(DoubleSolver::new(&grid, 2).solve().is_empty());
}

#[test]
fn matchable_rejects_rows_starved_of_supply() {
    // every region lives in its own pair of rows, but region 0 is a
    // single row of adjacent cells that can hold only... see below
    let grid = vec![
        vec![0, 0, 0, 0],
        vec![1, 1, 1, 1],
        vec![2, 2, 2, 2],
        vec![3, 3, 3, 3],
    ];
    // each region is one row: it can put 2 bulls into its row but none
    // into the others, so every row gets 2, but columns: fine. The board
    // is still unsolvable (adjacent rows), which only the search sees.
    assert!(matchable(&grid, 2));
    assert!(regions_feasible(&grid, 2));
    assert!(DoubleSolver::new(&grid, 2).solve().is_empty());

    // region 0 confined to two adjacent cells of one row: supply 1 < 2
    let grid = vec![
        vec![0, 0, 1, 1],
        vec![1, 1, 1, 1],
        vec![2, 2, 2, 2],
        vec![3, 3, 3, 3],
    ];
    assert!(!matchable(&grid, 2));
}

#[test]
fn double_random_regions_cover_the_board() {
    let mut rng = SplitMix::new(17);
    for n in [3usize, 6, 9] {
        let grid = random_regions(n, &mut rng, num_capped(n));
        assert_valid_regions(&grid);
    }
}

#[test]
fn board_missing_a_label_has_no_solution() {
    // label 3 never occurs: four rows need four bulls, three regions hold three
    let grid: Grid = vec![vec![0, 0, 1, 1], vec![0, 0, 1, 1], vec![2, 2, 2, 2], vec![2, 2, 2, 2]];
    let mut solver = DoubleSolver::new(&grid, 1);
    assert!(solver.solve().is_empty());
    assert!(!solver.is_unique());
}
