use automata::chance::{draw, Chance};
use automata::life::LifeGrid;
use automata::rule::BsRule;
use rand::rngs::StdRng;
use rand::SeedableRng;

fn life() -> BsRule {
    BsRule::parse("B3/S23").unwrap()
}

fn set_all(grid: &mut LifeGrid, cells: &[(usize, usize)]) {
    for &(x, y) in cells {
        grid.set(x, y, true);
    }
}

fn live_cells(grid: &LifeGrid) -> Vec<(usize, usize)> {
    let mut out = Vec::new();
    for y in 0..grid.height {
        for x in 0..grid.width {
            if grid.get(x, y) {
                out.push((x, y));
            }
        }
    }
    out
}

#[test]
fn blinker_oscillates_with_period_two() {
    let mut grid = LifeGrid::new(8, 8);
    set_all(&mut grid, &[(2, 3), (3, 3), (4, 3)]);
    grid.step(life());
    assert_eq!(live_cells(&grid), vec![(3, 2), (3, 3), (3, 4)]);
    grid.step(life());
    assert_eq!(live_cells(&grid), vec![(2, 3), (3, 3), (4, 3)]);
}

#[test]
fn block_is_still_life() {
    let mut grid = LifeGrid::new(6, 6);
    set_all(&mut grid, &[(2, 2), (3, 2), (2, 3), (3, 3)]);
    let before = live_cells(&grid);
    grid.step(life());
    assert_eq!(live_cells(&grid), before);
}

#[test]
fn glider_translates_by_one_diagonal_every_four_generations() {
    let mut grid = LifeGrid::new(16, 16);
    set_all(&mut grid, &[(1, 0), (2, 1), (0, 2), (1, 2), (2, 2)]);
    let start = live_cells(&grid);
    for _ in 0..4 {
        grid.step(life());
    }
    let shifted: Vec<_> = start.iter().map(|&(x, y)| (x + 1, y + 1)).collect();
    assert_eq!(live_cells(&grid), shifted);
}

#[test]
fn glider_wraps_around_toroidal_edges() {
    let mut grid = LifeGrid::new(8, 8);
    set_all(&mut grid, &[(1, 0), (2, 1), (0, 2), (1, 2), (2, 2)]);
    // One full lap: 4 generations per diagonal step, 8 steps to wrap.
    let start = live_cells(&grid);
    for _ in 0..32 {
        grid.step(life());
    }
    assert_eq!(live_cells(&grid), start);
}

#[test]
fn life_rule_can_change_mid_simulation() {
    // Run a block under Life (stable), then switch to Seeds: every live
    // cell dies, and cells with exactly two live neighbors are born.
    let mut grid = LifeGrid::new(8, 8);
    set_all(&mut grid, &[(2, 2), (3, 2), (2, 3), (3, 3)]);
    grid.step(life());
    assert_eq!(live_cells(&grid), vec![(2, 2), (3, 2), (2, 3), (3, 3)]);

    let seeds = BsRule::parse("B2/S").unwrap();
    grid.step(seeds);
    let after = live_cells(&grid);
    assert!(
        !after.contains(&(2, 2)),
        "live cells never survive in Seeds"
    );
    assert!(
        after.contains(&(1, 2)),
        "edge-adjacent cells see exactly two neighbors"
    );
    assert!(
        !after.contains(&(1, 1)),
        "corner-diagonal cells see only one neighbor"
    );
}

#[test]
fn grid_counts_generations_and_clears() {
    let mut grid = LifeGrid::new(5, 4);
    assert_eq!((grid.width(), grid.height(), grid.generation()), (5, 4, 0));
    grid.set(1, 1, true);
    grid.step(life());
    grid.step(life());
    assert_eq!(grid.generation, 2);
    grid.set(3, 2, true);
    assert!(grid.get(3, 2));
    grid.clear();
    assert_eq!(grid.generation, 0);
    assert!(live_cells(&grid).is_empty());
}

#[test]
fn torus_of_one_cell_is_its_own_neighborhood() {
    // Each of the eight steps leads to the only cell.
    let mut grid = LifeGrid::new(1, 1);
    grid.set(0, 0, true);
    grid.step(BsRule::parse("B/S8").unwrap());
    assert!(grid.get(0, 0));
    grid.step(life());
    assert!(!grid.get(0, 0));
}

#[test]
fn narrow_torus_wraps_in_all_eight_directions() {
    // Straight left and straight right lead back to the cell itself.
    let mut grid = LifeGrid::new(1, 3);
    grid.set(0, 0, true);
    assert_eq!(grid.live_neighbors(0, 0), 2);
    assert_eq!(grid.live_neighbors(0, 1), 3);
    assert_eq!(grid.live_neighbors(0, 2), 3);
    let mut flat = LifeGrid::new(3, 1);
    flat.set(1, 0, true);
    assert_eq!((flat.live_neighbors(0, 0), flat.live_neighbors(1, 0)), (3, 2));
    // On a side of two the steps back and forth meet.
    let mut pair = LifeGrid::new(2, 2);
    pair.set(0, 0, true);
    assert_eq!((pair.live_neighbors(0, 0), pair.live_neighbors(1, 0)), (0, 2));
    assert_eq!(pair.live_neighbors(1, 1), 4);
}

#[test]
fn torus_steps_alike_wherever_the_pattern_lies() {
    let pattern = [(0, 0), (1, 0), (2, 0), (2, 1), (1, 2)];
    let mut here = LifeGrid::new(7, 5);
    let mut there = LifeGrid::new(7, 5);
    for &(x, y) in &pattern {
        here.set(x, y, true);
        there.set((x + 6) % 7, (y + 3) % 5, true);
    }
    for _ in 0..10 {
        here.step(life());
        there.step(life());
        for y in 0..5 {
            for x in 0..7 {
                assert_eq!(here.get(x, y), there.get((x + 6) % 7, (y + 3) % 5));
            }
        }
    }
}

#[test]
fn randomizing_a_grid_follows_the_chance() {
    let mut rng = StdRng::seed_from_u64(3);
    let mut grid = LifeGrid::new(20, 20);
    grid.randomize(Chance { numerator: 1, denominator: 1 }, &mut rng);
    assert_eq!(live_cells(&grid).len(), 400);
    grid.randomize(Chance { numerator: 0, denominator: 1 }, &mut rng);
    assert_eq!(live_cells(&grid).len(), 0);
    grid.randomize(Chance { numerator: 1, denominator: 2 }, &mut rng);
    let live = live_cells(&grid).len();
    assert!(100 < live && live < 300, "{live} of 400 cells are alive");
}

#[test]
fn given_rolls_decide_a_grid() {
    let mut grid = LifeGrid::new(3, 2);
    grid.set(0, 0, true);
    grid.randomize_with(&[false, true, false, true, false, true]);
    assert_eq!(live_cells(&grid), vec![(1, 0), (0, 1), (2, 1)]);

    let density = Chance { numerator: 1, denominator: 2 };
    let (mut a, mut b) = (StdRng::seed_from_u64(5), StdRng::seed_from_u64(5));
    let (mut one, mut other) = (LifeGrid::new(8, 6), LifeGrid::new(8, 6));
    one.randomize(density, &mut a);
    other.randomize_with(&draw(&mut b, density, 48));
    assert_eq!(live_cells(&one), live_cells(&other));
    assert_eq!(a, b);
}
