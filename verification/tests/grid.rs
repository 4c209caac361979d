use bullpen::grid::{kill_solution, orth_neighbors, stays_contiguous};
use bullpen::rng::{shuffle, SplitMix};

#[test]
fn orth_neighbors_in_order() {
    assert_eq!(orth_neighbors(1, 1, 3), vec![(0, 1), (2, 1), (1, 0), (1, 2)]);
    assert_eq!(orth_neighbors(0, 0, 3), vec![(1, 0), (0, 1)]);
    assert_eq!(orth_neighbors(2, 2, 3), vec![(1, 2), (2, 1)]);
    assert_eq!(orth_neighbors(0, 0, 1), vec![]);
}

#[test]
fn contiguity_after_removal() {
    // region 0 is a horizontal bar: removing its middle splits it
    let grid = vec![vec![0, 0, 0], vec![1, 1, 1], vec![1, 1, 1]];
    assert!(!stays_contiguous(&grid, 0, 1));
    assert!(stays_contiguous(&grid, 0, 0));
    // a single-cell region cannot give up its cell
    let single = vec![vec![0, 1, 1], vec![1, 1, 1], vec![1, 1, 1]];
    assert!(!stays_contiguous(&single, 0, 0));
    // a ring: removing one cell leaves a path
    let ring = vec![vec![0, 0, 0], vec![0, 1, 0], vec![0, 0, 0]];
    assert!(stays_contiguous(&ring, 0, 1));
}

#[test]
fn shuffle_is_a_permutation() {
    let mut rng = SplitMix::new(11);
    let mut v: Vec<usize> = (0..20).collect();
    shuffle(&mut v, &mut rng);
    let mut s = v.clone();
    s.sort();
    assert_eq!(s, (0..20).collect::<Vec<_>>());
    let mut rng2 = SplitMix::new(11);
    let mut w: Vec<usize> = (0..20).collect();
    shuffle(&mut w, &mut rng2);
    assert_eq!(v, w);
}

#[test]
fn kill_solution_keeps_one_and_kills_the_other() {
    // region == board column: two solutions
    let mut grid = vec![vec![0, 1, 2, 3]; 4];
    let keep = vec![(0, 1), (1, 3), (2, 0), (3, 2)];
    let kill = vec![(0, 2), (1, 0), (2, 3), (3, 1)];
    let before = grid.clone();
    let mut rng = SplitMix::new(5);
    assert!(kill_solution(&mut grid, &keep, &kill, &mut rng));
    // exactly one cell changed, a bull of `kill` only
    let changed: Vec<(usize, usize)> = (0..4)
        .flat_map(|r| (0..4).map(move |c| (r, c)))
        .filter(|&(r, c)| grid[r][c] != before[r][c])
        .collect();
    assert_eq!(changed.len(), 1);
    assert!(kill.contains(&changed[0]) && !keep.contains(&changed[0]));
    let regions_of = |sol: &[(usize, usize)]| {
        let mut v: Vec<usize> = sol.iter().map(|&(r, c)| grid[r][c]).collect();
        v.sort();
        v
    };
    assert_eq!(regions_of(&keep), vec![0, 1, 2, 3]);
    assert_ne!(regions_of(&kill), vec![0, 1, 2, 3]);
}

#[test]
fn kill_solution_refuses_when_nothing_moves() {
    let mut grid = vec![vec![0, 1], vec![0, 1]];
    let same = vec![(0, 0), (1, 1)];
    let mut rng = SplitMix::new(1);
    assert!(!kill_solution(&mut grid, &same, &same, &mut rng));
    assert_eq!(grid, vec![vec![0, 1], vec![0, 1]]);
}
