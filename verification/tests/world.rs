use automata::chance::{draw, Chance};
use automata::chunk::{split, CHUNK_SIZE};
use automata::rule::BsRule;
use automata::world::World;
use rand::rngs::StdRng;
use rand::SeedableRng;

fn life() -> BsRule {
    BsRule::parse("B3/S23").unwrap()
}

fn set_all(world: &mut World, cells: &[(i64, i64)]) {
    for &(x, y) in cells {
        world.set(x, y, true);
    }
}

fn live_cells(world: &World) -> Vec<(i64, i64)> {
    let mut cells = world.live_cells_in(-10_000, -10_000, 10_000, 10_000);
    cells.sort();
    cells
}

fn glider(origin_x: i64, origin_y: i64) -> Vec<(i64, i64)> {
    [(1, 0), (2, 1), (0, 2), (1, 2), (2, 2)]
        .iter()
        .map(|&(x, y)| (origin_x + x, origin_y + y))
        .collect()
}

#[test]
fn blinker_oscillates_across_chunk_boundary() {
    // Horizontal blinker straddling the x = 0 chunk edge.
    let mut world = World::new();
    set_all(&mut world, &[(-1, 3), (0, 3), (1, 3)]);
    world.step(life());
    assert_eq!(live_cells(&world), vec![(0, 2), (0, 3), (0, 4)]);
    world.step(life());
    assert_eq!(live_cells(&world), vec![(-1, 3), (0, 3), (1, 3)]);
}

#[test]
fn block_is_still_life_at_negative_coordinates() {
    let mut world = World::new();
    set_all(
        &mut world,
        &[(-70, -70), (-69, -70), (-70, -69), (-69, -69)],
    );
    let before = live_cells(&world);
    world.step(life());
    assert_eq!(live_cells(&world), before);
}

#[test]
fn glider_crosses_chunk_boundary_intact() {
    // Starts near the corner of chunk (0,0); after 16 generations it has
    // moved (+4,+4) and crossed into neighboring chunks.
    let mut world = World::new();
    set_all(&mut world, &glider(60, 60));
    for _ in 0..8 {
        world.step(life());
    }
    assert!(
        world.chunk_count() > 1,
        "mid-crossing, the glider straddles the boundary"
    );
    for _ in 0..8 {
        world.step(life());
    }
    let mut expected = glider(64, 64);
    expected.sort();
    assert_eq!(live_cells(&world), expected);
}

#[test]
fn empty_chunks_are_dropped() {
    let mut world = World::new();
    world.set(5, 5, true); // lone cell dies of underpopulation
    assert_eq!(world.chunk_count(), 1);
    world.step(life());
    assert_eq!(world.population(), 0);
    assert_eq!(world.chunk_count(), 0);
}

#[test]
fn world_erasing_last_cell_frees_the_chunk() {
    let mut world = World::new();
    world.set(5, 5, true);
    world.set(5, 5, false);
    assert_eq!(world.chunk_count(), 0);
    // Setting a cell dead in empty space allocates nothing.
    world.set(9999, 9999, false);
    assert_eq!(world.chunk_count(), 0);
}

#[test]
fn birth_can_allocate_a_new_chunk() {
    // Blinker at the very edge of chunk (0,0): its vertical phase pokes
    // into the chunk above/below.
    let mut world = World::new();
    set_all(&mut world, &[(9, 0), (10, 0), (11, 0)]);
    assert_eq!(world.chunk_count(), 1);
    world.step(life());
    assert_eq!(live_cells(&world), vec![(10, -1), (10, 0), (10, 1)]);
    assert_eq!(world.chunk_count(), 2);
}

#[test]
fn world_rule_can_change_mid_simulation() {
    let mut world = World::new();
    set_all(&mut world, &[(2, 2), (3, 2), (2, 3), (3, 3)]);
    world.step(life());
    assert_eq!(live_cells(&world).len(), 4, "block stable under Life");
    world.step(BsRule::parse("B2/S").unwrap());
    let after = live_cells(&world);
    assert!(
        !after.contains(&(2, 2)),
        "live cells never survive in Seeds"
    );
    assert!(
        after.contains(&(1, 2)),
        "cells born where two neighbors meet"
    );
}

#[test]
fn live_cells_in_respects_bounds() {
    let mut world = World::new();
    set_all(&mut world, &[(0, 0), (100, 100), (-100, -100)]);
    assert_eq!(world.live_cells_in(-10, -10, 10, 10), vec![(0, 0)]);
    assert_eq!(world.live_cells_in(-200, -200, 200, 200).len(), 3);
}

#[test]
fn coordinates_split_into_chunk_and_place() {
    assert_eq!(split(0), (0, 0));
    assert_eq!(split(63), (0, 63));
    assert_eq!(split(64), (1, 0));
    assert_eq!(split(-1), (-1, 63));
    assert_eq!(split(-64), (-1, 0));
    assert_eq!(split(i64::MIN), (i64::MIN / CHUNK_SIZE, 0));
    assert_eq!(split(i64::MAX), (i64::MAX / CHUNK_SIZE, 63));
}

#[test]
fn cells_can_be_set_at_the_ends_of_the_plane() {
    let mut world = World::new();
    let corners = [
        (i64::MIN, i64::MIN),
        (i64::MIN, i64::MAX),
        (i64::MAX, i64::MIN),
        (i64::MAX, i64::MAX),
    ];
    set_all(&mut world, &corners);
    for (x, y) in corners {
        assert!(world.get(x, y));
    }
    assert!(!world.get(0, 0));
    assert_eq!(world.population(), 4);
    assert_eq!(world.chunk_count(), 4);
}

#[test]
fn live_cells_are_listed_chunk_by_chunk() {
    let mut world = World::new();
    set_all(&mut world, &[(70, 1), (1, 2), (2, 1), (1, 1), (0, -1), (3, 70)]);
    assert_eq!(
        world.live_cells_in(-100, -100, 100, 100),
        vec![(0, -1), (1, 1), (2, 1), (1, 2), (70, 1), (3, 70)]
    );
    assert!(world.live_cells_in(10, 10, -10, -10).is_empty());
}

#[test]
fn clearing_starts_over() {
    let mut world = World::new();
    set_all(&mut world, &glider(0, 0));
    world.step(life());
    assert_eq!(world.generation, 1);
    assert_eq!(world.generation(), 1);
    world.clear();
    assert_eq!((world.population(), world.chunk_count(), world.generation), (0, 0, 0));
}

#[test]
fn clones_are_independent() {
    let mut world = World::new();
    set_all(&mut world, &glider(0, 0));
    let copy = world.clone();
    world.step(life());
    assert_eq!(live_cells(&copy).len(), 5);
    assert_ne!(live_cells(&copy), live_cells(&world));
    assert_eq!(copy.generation, 0);
}

#[test]
fn patterns_evolve_alike_wherever_they_lie() {
    let mut here = World::new();
    let mut there = World::new();
    set_all(&mut here, &glider(0, 0));
    set_all(&mut there, &glider(61, -67));
    for _ in 0..30 {
        here.step(life());
        there.step(life());
    }
    let moved: Vec<_> = live_cells(&here)
        .into_iter()
        .map(|(x, y)| (x + 61, y - 67))
        .collect();
    assert_eq!(moved, live_cells(&there));
}

#[test]
fn birth_on_nothing_fills_the_chunks_around() {
    // With birth on zero neighbors the chunks next to a live cell come alive.
    let mut world = World::new();
    world.set(10, 10, true);
    world.step(BsRule::parse("B0/S").unwrap());
    assert_eq!(world.chunk_count(), 9);
    assert_eq!(world.population(), 9 * 64 * 64 - 9);
    assert!(world.get(-64, -64));
    assert!(!world.get(-65, 0));
    assert!(!world.get(11, 10));
}

#[test]
fn empty_worlds_stay_empty() {
    let mut world = World::new();
    world.step(BsRule::parse("B0/S012345678").unwrap());
    assert_eq!(world.population(), 0);
    assert_eq!(world.generation, 1);
}

#[test]
fn randomizing_a_region_stays_within_it() {
    let mut rng = StdRng::seed_from_u64(11);
    let mut world = World::new();
    world.set(100, 0, true);
    world.randomize_region(-5, -5, 5, 5, Chance { numerator: 1, denominator: 1 }, &mut rng);
    assert_eq!(world.population(), 122);
    world.randomize_region(-5, -5, 5, 5, Chance { numerator: 0, denominator: 7 }, &mut rng);
    assert_eq!(live_cells(&world), vec![(100, 0)]);
    world.randomize_region(-50, -50, 50, 50, Chance { numerator: 1, denominator: 5 }, &mut rng);
    let live = world.live_cells_in(-50, -50, 50, 50).len();
    assert!(1_500 < live && live < 2_600, "{live} of 10201 cells are alive");
    assert!(world.get(100, 0));
}

#[test]
fn given_rolls_decide_a_region() {
    let mut world = World::new();
    world.set(0, 0, true);
    world.set(0, 2, true);
    world.randomize_region_with((0, 0, 1, 1), &[false, true, true, false]);
    assert_eq!(live_cells(&world), vec![(0, 1), (0, 2), (1, 0)]);
    world.randomize_region_with((1, 0, 0, 1), &[]);
    assert_eq!(world.population(), 3);

    let density = Chance { numerator: 1, denominator: 5 };
    let (mut a, mut b) = (StdRng::seed_from_u64(12), StdRng::seed_from_u64(12));
    let mut expected = World::new();
    world.randomize_region(-9, -4, 9, 4, density, &mut a);
    expected.randomize_region_with((-9, -4, 9, 4), &draw(&mut b, density, 171));
    assert_eq!(live_cells(&world), live_cells(&expected));
    assert_eq!(a, b);
}

#[test]
fn stepped_worlds_leave_the_old_one_as_it_was() {
    let mut world = World::new();
    set_all(&mut world, &glider(0, 0));
    let next = world.stepped(BsRule::parse("B3/S23").unwrap());
    assert_eq!((world.generation, next.generation), (0, 1));
    assert_eq!((world.count(), next.count()), (Some(5), Some(5)));
    let before = live_cells(&world);
    world.step(BsRule::parse("B3/S23").unwrap());
    assert!(live_cells(&next) != before && live_cells(&next) == live_cells(&world));
}
