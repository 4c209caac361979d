use bullpen::regions::{grow_min, UNASSIGNED};
use bullpen::rng::{shuffle, Dice, SplitMix};

const U: usize = UNASSIGNED;

fn count(grid: &[Vec<usize>], l: usize) -> usize {
    grid.iter().map(|row| row.iter().filter(|&&x| x == l).count()).sum()
}

#[test]
fn grow_min_fills_every_open_region_to_the_minimum() {
    let mut grid = vec![vec![0, U, U, U], vec![U, U, U, U], vec![U, U, U, U], vec![U, U, U, 1]];
    let mut frontier = vec![((0, 1), 0), ((1, 0), 0), ((2, 3), 1), ((3, 2), 1)];
    let mut sizes = vec![1, 1, 0, 0];
    let mut rng = SplitMix::new(5);
    grow_min(&mut grid, &mut frontier, &mut sizes, 3, &mut rng);
    assert!(sizes[0] >= 3);
    assert!(sizes[1] >= 3);
    assert_eq!(count(&grid, 0), sizes[0]);
    assert_eq!(count(&grid, 1), sizes[1]);
}

#[test]
fn grow_min_leaves_a_walled_in_region_small() {
    let mut grid = vec![vec![0, 1, U], vec![1, 1, U], vec![U, U, U]];
    let mut frontier = vec![((0, 2), 1), ((1, 2), 1), ((2, 0), 1), ((2, 1), 1)];
    let mut sizes = vec![1, 3, 0];
    let mut rng = SplitMix::new(11);
    grow_min(&mut grid, &mut frontier, &mut sizes, 2, &mut rng);
    assert_eq!(sizes, vec![1, 3, 0]);
    assert_eq!(grid, vec![vec![0, 1, U], vec![1, 1, U], vec![U, U, U]]);
}

#[test]
fn split_mix_dice_draws_as_range_and_shuffle() {
    let mut a = SplitMix::new(9);
    let mut b = SplitMix::new(9);
    for _ in 0..20 {
        assert_eq!(a.pick(3, 7), b.range((3, 7)));
    }
    let mut xs = vec![1, 2, 3, 4, 5, 6];
    let mut ys = xs.clone();
    a.mix_up(&mut xs);
    shuffle(&mut ys, &mut b);
    assert_eq!(xs, ys);
}
