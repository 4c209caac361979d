use bullpen::BullpenSolver;

fn board<const N: usize>(b: [[usize; N]; N]) -> Vec<Vec<usize>> {
    b.iter().map(|row| row.to_vec()).collect()
}

/// Count solutions by trying every column permutation
fn brute_force(regions: &[Vec<usize>]) -> usize {
    let n = regions.len();
    let mut count = 0;
    let mut perm = vec![0; n];
    let mut used = vec![false; n];
    brute_force_rec(regions, n, 0, &mut perm, &mut used, &mut count);
    count
}

fn brute_force_rec(
    regions: &[Vec<usize>],
    n: usize,
    r: usize,
    perm: &mut Vec<usize>,
    used: &mut Vec<bool>,
    count: &mut usize,
) {
    if r == n {
        // all columns distinct and non-adjacent by construction;
        // check regions are all distinct
        let mut seen = vec![false; n];
        for (r, &c) in perm.iter().enumerate() {
            let reg = regions[r][c];
            if seen[reg] {
                return;
            }
            seen[reg] = true;
        }
        *count += 1;
        return;
    }
    for c in 0..n {
        // adjacency: bulls in consecutive rows must not touch diagonally
        if used[c] || (r > 0 && perm[r - 1].abs_diff(c) == 1) {
            continue;
        }
        used[c] = true;
        perm[r] = c;
        brute_force_rec(regions, n, r + 1, perm, used, count);
        used[c] = false;
    }
}

/// Relabel regions by order of first appearance, so labels are 0..n.
fn normalized(regions: &[Vec<usize>]) -> Vec<Vec<usize>> {
    let mut seen: Vec<usize> = Vec::new();
    regions
        .iter()
        .map(|row| {
            row.iter()
                .map(|&l| match seen.iter().position(|&s| s == l) {
                    Some(i) => i,
                    None => {
                        seen.push(l);
                        seen.len() - 1
                    }
                })
                .collect()
        })
        .collect()
}

fn is_valid_solution(regions: &[Vec<usize>], sol: &[(usize, usize)]) -> bool {
    let n = regions.len();
    let norm = normalized(regions);
    let mut rows = vec![0; n];
    let mut cols = vec![0; n];
    let mut regs = vec![0; n];
    for &(r, c) in sol {
        rows[r] += 1;
        cols[c] += 1;
        regs[norm[r][c]] += 1;
    }
    let counts = (0..n).all(|i| rows[i] == 1 && cols[i] == 1 && regs[i] == 1);
    let apart = sol.iter().enumerate().all(|(i, &(r, c))| {
        sol[i + 1..]
            .iter()
            .all(|&(y, x)| r.abs_diff(y).max(c.abs_diff(x)) >= 2)
    });
    counts && apart && sol.len() == n
}

#[test]
fn unique_puzzle() {
    // for n=4 only two queen layouts avoid touching: columns 1,3,0,2
    // and columns 2,0,3,1; these regions allow the first and break
    // the second (its row-0 and row-2 queens would share region 1)
    let regions = board([[0, 0, 1, 1], [0, 2, 1, 1], [2, 2, 3, 1], [2, 3, 3, 3]]);
    assert_eq!(brute_force(&regions), 1);
    assert_eq!(BullpenSolver::new(&regions).count_sol(), 1);
    assert!(BullpenSolver::new(&regions).is_unique());
}

#[test]
fn ambiguous_puzzle() {
    // region == board column: both non-touching layouts survive
    let regions = board([[0, 1, 2, 3], [0, 1, 2, 3], [0, 1, 2, 3], [0, 1, 2, 3]]);
    assert_eq!(brute_force(&regions), 2);
    assert_eq!(BullpenSolver::new(&regions).count_sol(), 2);
    assert!(!BullpenSolver::new(&regions).is_unique());
}

#[test]
fn one_based_labels() {
    // same board as unique_puzzle, but with 1-based region labels
    let regions = board([[1, 1, 2, 2], [1, 3, 2, 2], [3, 3, 4, 2], [3, 4, 4, 4]]);
    assert!(BullpenSolver::new(&regions).is_unique());
}

#[test]
fn solver_is_reusable_after_counting() {
    let regions = board([[0, 0, 1, 1], [0, 2, 1, 1], [2, 2, 3, 1], [2, 3, 3, 3]]);
    let mut solver = BullpenSolver::new(&regions);
    assert_eq!(solver.count_sol(), 1);
    // matrix and bitmap must be fully restored: counting again agrees
    assert_eq!(solver.count_sol(), 1);
}

/// Boards with known full solution counts; the solver is additionally
/// cross-checked against brute force on every board.
#[test]
fn existing_puzzles() {
    let suite: Vec<(&str, usize, Vec<Vec<usize>>)> = vec![
        ("oneSol", 1, board([[3, 3, 5, 5, 5, 4], [3, 3, 1, 5, 5, 0], [3, 3, 1, 1, 0, 0], [3, 3, 1, 0, 0, 0], [1, 1, 1, 0, 0, 0], [2, 0, 0, 0, 0, 0]])),
        ("elevenSol", 11, board([[4, 4, 4, 5, 5, 5], [3, 4, 4, 4, 2, 2], [3, 3, 1, 1, 2, 2], [3, 3, 1, 1, 2, 2], [0, 0, 1, 1, 1, 2], [0, 0, 0, 0, 0, 0]])),
        ("sixSol", 6, board([[4, 4, 4, 5, 5, 5], [3, 3, 4, 5, 1, 1], [3, 3, 5, 5, 1, 1], [0, 0, 5, 2, 2, 1], [0, 0, 0, 2, 2, 1], [0, 0, 0, 2, 2, 2]])),
        ("difficultOneSolution", 1, board([[5, 5, 5, 4, 4, 4], [5, 3, 5, 5, 2, 4], [3, 3, 5, 0, 2, 4], [3, 1, 1, 0, 2, 2], [3, 3, 1, 0, 0, 2], [3, 3, 1, 0, 0, 2]])),
        ("oneSevenBySeven", 1, board([[3, 3, 3, 3, 6, 6, 5], [3, 3, 4, 6, 6, 1, 5], [3, 4, 4, 4, 4, 1, 5], [3, 3, 4, 4, 4, 1, 5], [2, 3, 4, 4, 1, 1, 5], [2, 0, 1, 4, 4, 1, 1], [0, 0, 1, 1, 1, 1, 1]])),
        ("illini", 17, board([[6, 4, 4, 4, 4, 2, 5], [6, 6, 4, 3, 4, 2, 5], [6, 6, 3, 3, 2, 2, 2], [3, 3, 3, 3, 3, 2, 2], [1, 0, 0, 0, 3, 2, 2], [1, 1, 0, 3, 3, 2, 2], [1, 0, 0, 0, 2, 2, 2]])),
        ("maskHard", 7, board([[4, 4, 4, 4, 5, 5], [4, 4, 3, 3, 5, 5], [2, 2, 2, 3, 3, 5], [1, 2, 2, 2, 3, 5], [1, 2, 1, 0, 3, 0], [1, 1, 1, 0, 0, 0]])),
        ("maskZero", 3, board([[5, 1, 1, 4, 4, 4], [5, 1, 3, 4, 3, 4], [5, 1, 3, 3, 3, 3], [5, 1, 3, 3, 3, 2], [5, 1, 1, 2, 2, 2], [5, 1, 1, 0, 0, 0]])),
        ("twelveSol", 12, board([[3, 3, 5, 5, 5, 4], [3, 3, 1, 5, 5, 4], [3, 3, 1, 1, 5, 4], [3, 3, 1, 2, 4, 4], [1, 1, 1, 2, 0, 0], [2, 2, 2, 2, 0, 0]])),
        ("bullPen", 1, board([[0, 0, 1, 1, 1, 1], [0, 2, 1, 1, 3, 3], [2, 2, 2, 1, 3, 3], [2, 2, 5, 4, 3, 3], [2, 4, 4, 4, 4, 3], [4, 4, 4, 4, 4, 4]])),
    ];

    for (name, expected, regions) in suite {
        let full = brute_force(&regions);
        assert_eq!(full, expected, "{name}: expected count vs brute force");
        assert_eq!(
            BullpenSolver::new(&regions).count_sol(),
            full.min(2),
            "{name}: solver vs brute force"
        );
    }
}

#[test]
fn random_grids_match_brute_force() {
    let n = 5;
    let mut seed: u64 = 0xdead_beef;
    let mut rand = move || {
        seed = seed
            .wrapping_mul(6364136223846793005)
            .wrapping_add(1442695040888963407);
        (seed >> 33) as usize
    };

    let mut tested = 0;
    while tested < 200 {
        let regions: Vec<Vec<usize>> = (0..n)
            .map(|_| (0..n).map(|_| rand() % n).collect())
            .collect();

        // every region must appear, otherwise the grid is rejected
        // by the constructor as malformed
        let mut seen = vec![false; n];
        for row in &regions {
            for &reg in row {
                seen[reg] = true;
            }
        }
        if seen.iter().any(|&s| !s) {
            continue;
        }
        tested += 1;

        let expected = brute_force(&regions).min(2);
        assert_eq!(
            BullpenSolver::new(&regions).count_sol(),
            expected,
            "mismatch for regions {:?}",
            regions
        );
    }
}

#[test]
fn solve_lists_valid_distinct_solutions() {
    let regions = board([[0, 1, 2, 3], [0, 1, 2, 3], [0, 1, 2, 3], [0, 1, 2, 3]]);
    let sols = BullpenSolver::new(&regions).solve();
    assert_eq!(sols.len(), 2);
    for s in &sols {
        assert!(is_valid_solution(&regions, s));
    }
    let mut a = sols[0].clone();
    let mut b = sols[1].clone();
    a.sort();
    b.sort();
    assert_ne!(a, b);
}

#[test]
fn solve_finds_the_unique_solution() {
    let regions = board([[0, 0, 1, 1], [0, 2, 1, 1], [2, 2, 3, 1], [2, 3, 3, 3]]);
    let sols = BullpenSolver::new(&regions).solve();
    assert_eq!(sols.len(), 1);
    let mut s = sols[0].clone();
    s.sort();
    assert_eq!(s, vec![(0, 1), (1, 3), (2, 0), (3, 2)]);
}

#[test]
fn zero_budget_gives_up() {
    let regions = board([[0, 0, 1, 1], [0, 2, 1, 1], [2, 2, 3, 1], [2, 3, 3, 3]]);
    let mut solver = BullpenSolver::new(&regions);
    assert!(solver.solve_within(0).is_none());
    // the abandoned search unwinds cleanly
    assert_eq!(solver.solve_within(1000).map(|s| s.len()), Some(1));
}

#[test]
fn board_without_solution_counts_zero() {
    // 2 x 2: any two bulls touch
    let regions = board([[0, 0], [1, 1]]);
    assert_eq!(BullpenSolver::new(&regions).count_sol(), 0);
    assert!(BullpenSolver::new(&regions).solve().is_empty());
}
