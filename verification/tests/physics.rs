use automata::chance::{draw, Chance};
use automata::chunk::{CellSet, CHUNK_SIZE};
use automata::material::{
    builtin_materials, Density, Material, MaterialId, Phase, EMPTY, SAND, STONE, WATER,
};
use automata::physics::{can_displace, PhysicsWorld};
use automata::scene::{default_physics_scene, physics_scene_with};
use rand::rngs::StdRng;
use rand::{Rng, SeedableRng};

fn step_n(world: &mut PhysicsWorld, n: usize) {
    let materials = builtin_materials();
    let mut rng = StdRng::seed_from_u64(7);
    for _ in 0..n {
        world.step(&materials, &mut rng);
    }
}

fn cells(world: &PhysicsWorld) -> Vec<(i64, i64, MaterialId)> {
    let mut out = world.cells_in(-10_000, -10_000, 10_000, 10_000);
    out.sort();
    out
}

#[test]
fn sand_falls_and_rests_on_stone() {
    let mut world = PhysicsWorld::new();
    // Three-wide floor so the grain can't topple off diagonally.
    for x in -1..=1 {
        world.set(x, 10, STONE);
    }
    world.set(0, 0, SAND);
    step_n(&mut world, 15);
    assert_eq!(world.get(0, 9), SAND, "sand came to rest on the stone");
    assert_eq!(world.get(0, 10), STONE);
}

#[test]
fn sand_piles_diagonally() {
    let mut world = PhysicsWorld::new();
    for x in -2..=2 {
        world.set(x, 10, STONE);
    }
    world.set(0, 9, SAND);
    world.set(0, 8, SAND);
    step_n(&mut world, 5);
    assert_eq!(world.get(0, 9), SAND, "bottom grain stays put");
    let toppled = world.get(-1, 9) == SAND || world.get(1, 9) == SAND;
    assert!(toppled, "top grain slid off diagonally: {:?}", cells(&world));
    assert_eq!(world.get(0, 8), EMPTY);
}

#[test]
fn water_spreads_to_find_level() {
    let mut world = PhysicsWorld::new();
    // Walled basin: water jitters sideways forever, so an open floor
    // would let it wander off the edge.
    for x in -4..=4 {
        world.set(x, 10, STONE);
    }
    for y in 6..10 {
        world.set(-4, y, STONE);
        world.set(4, y, STONE);
    }
    world.set(0, 9, WATER);
    world.set(0, 8, WATER);
    step_n(&mut world, 10);
    let water: Vec<_> = cells(&world)
        .into_iter()
        .filter(|&(_, _, m)| m == WATER)
        .collect();
    assert_eq!(water.len(), 2);
    assert!(
        water.iter().all(|&(_, y, _)| y == 9),
        "water leveled out into one layer: {water:?}"
    );
}

#[test]
fn sand_sinks_through_water() {
    // Sealed 1-wide well: floor at y=11, walls up both sides, so the
    // water has nowhere to go but up past the sand.
    let mut world = PhysicsWorld::new();
    for x in -1..=1 {
        world.set(x, 11, STONE);
    }
    for y in 8..=10 {
        world.set(-1, y, STONE);
        world.set(1, y, STONE);
    }
    world.set(0, 10, WATER);
    world.set(0, 9, SAND);
    step_n(&mut world, 5);
    assert_eq!(world.get(0, 10), SAND, "sand displaced the water");
    assert_eq!(world.get(0, 9), WATER, "water bubbled up above it");
}

#[test]
fn falling_crosses_chunk_boundary() {
    // Stone floor in chunk row 1, sand starting in chunk row 0.
    let mut world = PhysicsWorld::new();
    for x in -1..=1 {
        world.set(x, CHUNK_SIZE + 6, STONE);
    }
    world.set(0, CHUNK_SIZE - 2, SAND);
    step_n(&mut world, 12);
    assert_eq!(world.get(0, CHUNK_SIZE + 5), SAND);
}

#[test]
fn cell_moves_at_most_once_per_step() {
    // A lone grain falls exactly one cell per tick, even though the
    // in-place scan revisits the row it lands in... it must not.
    let mut world = PhysicsWorld::new();
    world.set(0, 0, SAND);
    let materials = builtin_materials();
    let mut rng = StdRng::seed_from_u64(1);
    world.step(&materials, &mut rng);
    assert_eq!(world.get(0, 1), SAND);
    assert_eq!(world.population(), 1);
}

#[test]
fn step_is_deterministic_for_a_fixed_seed() {
    let build = || {
        let mut world = PhysicsWorld::new();
        for x in -20..=20 {
            world.set(x, 30, STONE);
        }
        let mut rng = StdRng::seed_from_u64(42);
        world.sprinkle((-15, 0, 15, 20), SAND, Chance { numerator: 3, denominator: 10 }, &mut rng);
        world.sprinkle((-15, 0, 15, 20), WATER, Chance { numerator: 1, denominator: 5 }, &mut rng);
        let materials = builtin_materials();
        for _ in 0..30 {
            world.step(&materials, &mut rng);
        }
        cells(&world)
    };
    assert_eq!(build(), build());
}

#[test]
fn physics_erasing_last_cell_frees_the_chunk() {
    let mut world = PhysicsWorld::new();
    world.set(5, 5, SAND);
    assert_eq!(world.chunk_count(), 1);
    world.set(5, 5, EMPTY);
    assert_eq!(world.chunk_count(), 0);
    world.set(9999, 9999, EMPTY);
    assert_eq!(world.chunk_count(), 0);
}

/// The built-in materials, a light gas, a heavy gas and a heavy liquid.
fn materials_with_gases() -> Vec<Material> {
    let mut materials = builtin_materials();
    let more = [
        ("Steam", Phase::Gas, 0.25f32),
        ("Smoke", Phase::Gas, 0.5),
        ("Mercury", Phase::Liquid, 13.5),
    ];
    for (name, phase, density) in more {
        materials.push(Material {
            name: name.to_string(),
            phase,
            density: Density::from_bits(density.to_bits()),
            color: 0xffffff,
        });
    }
    materials
}

const STEAM: MaterialId = 4;
const SMOKE: MaterialId = 5;
const MERCURY: MaterialId = 6;

#[test]
fn cells_that_hold_something_can_be_read_back() {
    let mut world = PhysicsWorld::new();
    world.set(-3, 70, SAND);
    world.set(-3, 70, WATER);
    world.set(i64::MIN, i64::MAX, STONE);
    assert_eq!(world.get(-3, 70), WATER);
    assert_eq!(world.get(i64::MIN, i64::MAX), STONE);
    assert_eq!(world.get(0, 0), EMPTY);
    assert_eq!(world.population(), 2);
    world.generation = 9;
    world.clear();
    assert_eq!((world.population(), world.chunk_count(), world.generation()), (0, 0, 0));
}

#[test]
fn gases_rise_and_light_ones_pass_heavy_ones() {
    let materials = materials_with_gases();
    let mut world = PhysicsWorld::new();
    world.set(0, 0, SMOKE);
    world.step(&materials, &mut StdRng::seed_from_u64(5));
    assert_eq!(world.get(0, -1), SMOKE);

    // A sealed shaft with smoke above steam: they change places.
    let mut world = PhysicsWorld::new();
    for y in -1..=3 {
        world.set(-1, y, STONE);
        world.set(1, y, STONE);
    }
    world.set(0, -1, STONE);
    world.set(0, 2, STONE);
    world.set(0, 0, SMOKE);
    world.set(0, 1, STEAM);
    world.step(&materials, &mut StdRng::seed_from_u64(5));
    assert_eq!((world.get(0, 0), world.get(0, 1)), (STEAM, SMOKE));
}

#[test]
fn displacement_follows_phase_and_density() {
    let materials = materials_with_gases();
    let may = |mover: MaterialId, target: MaterialId, dy: i64| {
        can_displace(&materials[mover as usize], target, dy, &materials)
    };
    assert!(may(SAND, EMPTY, 1) && may(WATER, EMPTY, 0) && may(STEAM, EMPTY, -1));
    assert!(may(SAND, WATER, 1));
    assert!(!may(SAND, WATER, 0));
    assert!(!may(SAND, MERCURY, 1));
    assert!(!may(SAND, STONE, 1) && !may(STONE, SAND, 1));
    assert!(may(MERCURY, WATER, 1) && !may(WATER, MERCURY, 1));
    assert!(!may(WATER, WATER, 1) && !may(WATER, WATER, -1));
    assert!(may(STEAM, SMOKE, -1) && !may(SMOKE, STEAM, -1));
    assert!(may(STEAM, WATER, -1));
}

#[test]
fn nothing_sinks_by_a_density_that_is_no_number() {
    let mut materials = builtin_materials();
    materials[SAND as usize].density = Density::from_bits(f32::NAN.to_bits());
    let sand = materials[SAND as usize].clone();
    assert!(!can_displace(&sand, WATER, 1, &materials));
    assert!(!can_displace(&sand, WATER, -1, &materials));
}

#[test]
fn coins_choose_between_left_and_right() {
    let materials = builtin_materials();
    // A grain on top of another slides off to either side.
    for (first, landed) in [(false, -1), (true, 1)] {
        let mut world = PhysicsWorld::new();
        let mut moved = CellSet::new();
        world.set(0, 1, SAND);
        world.set(0, 0, SAND);
        world.turn(0, 0, &materials, &mut moved, first, false);
        assert_eq!(world.get(landed, 1), SAND);
        assert_eq!(world.get(0, 0), EMPTY);
        assert!(moved.contains(landed, 1) && !moved.contains(0, 0));
    }
    // Water on a wide floor flows to either side.
    for (second, landed) in [(false, -1), (true, 1)] {
        let mut world = PhysicsWorld::new();
        let mut moved = CellSet::new();
        for x in -1..=1 {
            world.set(x, 1, STONE);
        }
        world.set(0, 0, WATER);
        world.turn(0, 0, &materials, &mut moved, false, second);
        assert_eq!(world.get(landed, 0), WATER);
    }
}

#[test]
fn cells_that_moved_wait_for_the_next_tick() {
    let materials = builtin_materials();
    let mut world = PhysicsWorld::new();
    let mut moved = CellSet::new();
    world.set(0, 0, SAND);
    world.turn(0, 0, &materials, &mut moved, false, false);
    assert_eq!(world.get(0, 1), SAND);
    world.turn(0, 1, &materials, &mut moved, false, false);
    assert_eq!(world.get(0, 1), SAND);
    // Both cells of an exchange count as moved.
    world.set(5, 0, SAND);
    world.set(5, 1, WATER);
    world.turn(5, 0, &materials, &mut moved, false, false);
    assert_eq!((world.get(5, 0), world.get(5, 1)), (WATER, SAND));
    assert!(moved.contains(5, 0) && moved.contains(5, 1));
}

#[test]
fn displaced_fluid_is_displaced_once() {
    // Two grains above water in a sealed well: the lower one passes it, and
    // the upper one waits for the next tick.
    let mut world = PhysicsWorld::new();
    for y in 0..=3 {
        world.set(-1, y, STONE);
        world.set(1, y, STONE);
    }
    world.set(0, 3, STONE);
    world.set(0, 2, WATER);
    world.set(0, 1, SAND);
    world.set(0, 0, SAND);
    step_n(&mut world, 1);
    assert_eq!(
        (world.get(0, 0), world.get(0, 1), world.get(0, 2)),
        (SAND, WATER, SAND)
    );
    step_n(&mut world, 1);
    assert_eq!(
        (world.get(0, 0), world.get(0, 1), world.get(0, 2)),
        (WATER, SAND, SAND)
    );
}

#[test]
fn fluid_that_has_spread_is_not_displaced_in_the_same_tick() {
    let mut world = PhysicsWorld::new();
    for (x, y) in [(-1, 2), (2, 2), (-1, 3), (0, 3), (1, 3)] {
        world.set(x, y, STONE);
    }
    world.set(0, 2, WATER);
    world.set(1, 1, SAND);
    world.step(&builtin_materials(), &mut StdRng::seed_from_u64(1));
    assert_eq!(world.get(1, 2), WATER);
    assert_eq!((world.get(0, 2), world.get(1, 1)), (SAND, EMPTY));
}

#[test]
fn equal_generators_tick_alike() {
    let materials = materials_with_gases();
    let mut one = PhysicsWorld::new();
    let mut layout = StdRng::seed_from_u64(40);
    for material in [SAND, WATER, STEAM, SMOKE] {
        one.sprinkle((-9, -9, 9, 9), material, Chance { numerator: 1, denominator: 4 }, &mut layout);
    }
    let mut other = one.clone();
    let (mut a, mut b) = (StdRng::seed_from_u64(41), StdRng::seed_from_u64(41));
    for _ in 0..20 {
        one.step(&materials, &mut a);
        other.step(&materials, &mut b);
        assert_eq!(cells(&one), cells(&other));
        assert_eq!(one.generation, other.generation);
        assert_eq!(a, b);
    }
}

fn count(world: &PhysicsWorld, material: MaterialId) -> usize {
    cells(world).iter().filter(|cell| cell.2 == material).count()
}

#[test]
fn ticks_conserve_every_material() {
    let materials = materials_with_gases();
    let mut rng = StdRng::seed_from_u64(23);
    let mut world = PhysicsWorld::new();
    for x in -40..=40 {
        world.set(x, 40, STONE);
    }
    let half = Chance { numerator: 1, denominator: 2 };
    for material in [SAND, WATER, STEAM, SMOKE, MERCURY] {
        world.sprinkle((-30, -20, 30, 30), material, half, &mut rng);
    }
    let before: Vec<usize> = (1..7).map(|material| count(&world, material)).collect();
    let stones: Vec<_> = cells(&world).into_iter().filter(|cell| cell.2 == STONE).collect();
    for generation in 0..25 {
        assert_eq!(world.generation, generation);
        world.step(&materials, &mut rng);
        let after: Vec<usize> = (1..7).map(|material| count(&world, material)).collect();
        assert_eq!(after, before);
        assert_eq!(world.population() as usize, before.iter().sum::<usize>());
    }
    let still: Vec<_> = cells(&world).into_iter().filter(|cell| cell.2 == STONE).collect();
    assert_eq!(still, stones);
}

#[test]
fn powder_falls_at_most_one_row_in_a_tick() {
    let materials = builtin_materials();
    let mut rng = StdRng::seed_from_u64(31);
    let mut world = PhysicsWorld::new();
    world.sprinkle((-20, 50, 20, 80), SAND, Chance { numerator: 2, denominator: 3 }, &mut rng);
    for _ in 0..10 {
        let before = world.clone();
        world.step(&materials, &mut rng);
        for (x, y, _) in cells(&world) {
            let sources = [(x, y), (x, y - 1), (x - 1, y - 1), (x + 1, y - 1)];
            assert!(sources.iter().any(|&(u, v)| before.get(u, v) == SAND));
        }
    }
}

#[test]
fn settled_worlds_rest() {
    let mut world = PhysicsWorld::new();
    for x in -3..=3 {
        world.set(x, 5, STONE);
    }
    for (x, y) in [(-1, 4), (0, 4), (1, 4), (0, 3)] {
        world.set(x, y, SAND);
    }
    let before = cells(&world);
    step_n(&mut world, 6);
    assert_eq!(cells(&world), before);
    assert_eq!(world.generation, 6);
}

#[test]
fn scan_direction_alternates() {
    // Two grains compete for the gap between them. Going right the left one
    // gets it, going left the right one.
    let build = || {
        let mut world = PhysicsWorld::new();
        for x in -4..=4 {
            world.set(x, 2, STONE);
        }
        for x in [-4, -3, -2, -1, 1, 2, 3, 4] {
            world.set(x, 1, STONE);
        }
        world.set(-1, 0, SAND);
        world.set(1, 0, SAND);
        world
    };
    let mut world = build();
    step_n(&mut world, 1);
    assert_eq!((world.get(-1, 0), world.get(0, 1), world.get(1, 0)), (EMPTY, SAND, SAND));
    let mut world = build();
    world.generation = 1;
    step_n(&mut world, 1);
    assert_eq!((world.get(-1, 0), world.get(0, 1), world.get(1, 0)), (SAND, SAND, EMPTY));
}

#[test]
fn ticks_do_not_depend_on_chunk_boundaries() {
    let materials = builtin_materials();
    let build = |dx: i64, dy: i64| {
        let mut world = PhysicsWorld::new();
        let mut layout = StdRng::seed_from_u64(77);
        world.sprinkle((0, 0, 30, 30), SAND, Chance { numerator: 1, denominator: 3 }, &mut layout);
        world.sprinkle((0, 0, 30, 30), WATER, Chance { numerator: 1, denominator: 3 }, &mut layout);
        let mut moved = PhysicsWorld::new();
        for (x, y, material) in cells(&world) {
            moved.set(x + dx, y + dy, material);
        }
        let mut rng = StdRng::seed_from_u64(78);
        for _ in 0..20 {
            moved.step(&materials, &mut rng);
        }
        let mut back: Vec<_> = cells(&moved)
            .into_iter()
            .map(|(x, y, material)| (x - dx, y - dy, material))
            .collect();
        back.sort();
        back
    };
    let here = build(0, 0);
    assert_eq!(build(50, 40), here);
    assert_eq!(build(-75, -201), here);
}

#[test]
fn sprinkling_follows_the_chance() {
    let mut rng = StdRng::seed_from_u64(2);
    let mut world = PhysicsWorld::new();
    world.set(0, 0, STONE);
    world.sprinkle((0, 0, 9, 9), SAND, Chance { numerator: 0, denominator: 3 }, &mut rng);
    assert_eq!(cells(&world), vec![(0, 0, STONE)]);
    world.sprinkle((0, 0, 9, 9), SAND, Chance { numerator: 3, denominator: 3 }, &mut rng);
    assert_eq!(count(&world, SAND), 100);
    world.sprinkle((20, 0, 59, 39), WATER, Chance { numerator: 7, denominator: 10 }, &mut rng);
    let water = count(&world, WATER);
    assert!(960 < water && water < 1280, "{water} of 1600 cells are wet");
    assert_eq!(count(&world, SAND), 100);
}

#[test]
fn rolls_are_taken_row_by_row() {
    let mut world = PhysicsWorld::new();
    world.set(0, 0, STONE);
    world.set(3, 0, STONE);
    world.sprinkle_with((0, 0, 2, 1), SAND, &[false, true, false, false, false, true]);
    assert_eq!(cells(&world), vec![(0, 0, STONE), (1, 0, SAND), (2, 1, SAND), (3, 0, STONE)]);
    // Erasing by rolls, and a rectangle without cells.
    world.sprinkle_with((0, 0, 0, 0), EMPTY, &[true]);
    world.sprinkle_with((5, 0, 4, 9), SAND, &[]);
    assert_eq!(cells(&world), vec![(1, 0, SAND), (2, 1, SAND), (3, 0, STONE)]);
    assert_eq!(world.generation, 0);
}

#[test]
fn sprinkling_draws_one_roll_for_each_cell() {
    // Rows wider than what is drawn at a time take the same rolls.
    let density = Chance { numerator: 1, denominator: 3 };
    let (mut a, mut b) = (StdRng::seed_from_u64(50), StdRng::seed_from_u64(50));
    let rect = (-700, -1, 1900, 1);
    let mut world = PhysicsWorld::new();
    world.sprinkle(rect, WATER, density, &mut a);
    let mut expected = PhysicsWorld::new();
    expected.sprinkle_with(rect, WATER, &draw(&mut b, density, 2601 * 3));
    assert_eq!(cells(&world), cells(&expected));
    assert_eq!(a, b);
    // A chance of all takes no words from the generator.
    world.sprinkle(rect, SAND, Chance { numerator: 4, denominator: 4 }, &mut a);
    assert_eq!(count(&world, SAND), 7803);
    assert_eq!(a, b);
}

#[test]
fn draws_follow_the_generator() {
    let density = Chance { numerator: 3, denominator: 10 };
    let rolls = draw(&mut StdRng::seed_from_u64(3), density, 1000);
    let mut rng = StdRng::seed_from_u64(3);
    let expected: Vec<bool> = (0..1000).map(|_| rng.random_ratio(3, 10)).collect();
    assert_eq!(rolls, expected);
    assert!(rolls.contains(&true) && rolls.contains(&false));
}

#[test]
fn starter_scene_follows_its_rolls() {
    let (mut mound, mut pool) = (vec![false; 713], vec![false; 984]);
    let bare = physics_scene_with(&mound, &pool);
    assert_eq!(bare.population(), 121 + 2 * 37);
    mound[0] = true;
    mound[31] = true;
    mound[712] = true;
    pool[40] = true;
    pool[983] = true;
    let world = physics_scene_with(&mound, &pool);
    let drawn: Vec<_> = cells(&world).into_iter().filter(|cell| cell.2 != STONE).collect();
    assert_eq!(
        drawn,
        vec![(-45, 8, SAND), (-45, 9, SAND), (-15, 30, SAND), (50, 15, WATER), (50, 38, WATER)]
    );

    let (mut a, mut b) = (StdRng::seed_from_u64(60), StdRng::seed_from_u64(60));
    let world = default_physics_scene(&mut a);
    let mound = draw(&mut b, Chance { numerator: 1, denominator: 2 }, 713);
    let pool = draw(&mut b, Chance { numerator: 7, denominator: 10 }, 984);
    assert_eq!(cells(&world), cells(&physics_scene_with(&mound, &pool)));
    assert_eq!(a, b);
}

#[test]
fn cells_at_the_ends_of_the_grid_may_lack_room() {
    let materials = materials_with_gases();
    let tickable = |x, y, material| {
        let mut world = PhysicsWorld::new();
        world.set(x, y, material);
        world.is_tickable(&materials)
    };
    assert!(tickable(0, 0, SAND) && tickable(i64::MIN, i64::MAX, STONE));
    for material in [SAND, WATER] {
        assert!(!tickable(i64::MIN, 0, material) && !tickable(i64::MAX, 0, material));
        assert!(!tickable(0, i64::MAX, material) && tickable(0, i64::MIN, material));
        assert!(tickable(i64::MIN + 1, i64::MAX - 1, material));
    }
    assert!(!tickable(0, i64::MIN, STEAM) && tickable(0, i64::MAX, STEAM));
    assert!(!tickable(i64::MAX, 0, STEAM) && tickable(i64::MAX - 1, i64::MIN + 1, STEAM));
}

#[test]
fn starter_scene_is_a_basin_with_sand_and_water() {
    let world = default_physics_scene(&mut StdRng::seed_from_u64(8));
    let stones = cells(&world).into_iter().filter(|cell| cell.2 == STONE);
    assert_eq!(stones.count(), 121 + 2 * 37);
    assert_eq!((world.get(-60, 5), world.get(60, 42), world.get(0, 42)), (STONE, STONE, STONE));
    let (sand, water) = (count(&world, SAND), count(&world, WATER));
    assert!(250 < sand && sand < 470, "{sand} of 713 cells are sand");
    assert!(560 < water && water < 820, "{water} of 984 cells are wet");
    for (x, y, material) in cells(&world) {
        if material == SAND {
            assert!((-45..=-15).contains(&x) && (8..=30).contains(&y));
        }
        if material == WATER {
            assert!((10..=50).contains(&x) && (15..=38).contains(&y));
        }
    }
}

#[test]
fn columns_fall_together() {
    for material in [SAND, WATER] {
        let mut world = PhysicsWorld::new();
        for y in 50..80 {
            world.set(3, y, material);
        }
        step_n(&mut world, 4);
        let expected: Vec<_> = (54..84).map(|y| (3, y, material)).collect();
        assert_eq!(cells(&world), expected);
    }
}

#[test]
fn given_coins_decide_a_tick() {
    let materials = builtin_materials();
    for (coins, landed) in [([false, false], -1), ([false, true], 1)] {
        // The lower grain rests in a groove; its coin comes first.
        let mut world = PhysicsWorld::new();
        for (x, y) in [(-2, 2), (-1, 2), (0, 2), (1, 2), (2, 2)] {
            world.set(x, y, STONE);
        }
        world.set(0, 1, SAND);
        world.set(0, 0, SAND);
        world.step_with(&materials, &coins, &mut StdRng::seed_from_u64(0));
        assert_eq!((world.get(0, 1), world.get(landed, 1)), (SAND, SAND));
        assert_eq!(world.generation, 1);
    }
    // Each cell of water takes two coins, in the order of the scan.
    let mut world = PhysicsWorld::new();
    for x in -9..=9 {
        world.set(x, 1, STONE);
    }
    world.set(-5, 0, WATER);
    world.set(5, 0, WATER);
    let coins = [false, true, false, false];
    world.step_with(&materials, &coins, &mut StdRng::seed_from_u64(0));
    assert_eq!((world.get(-4, 0), world.get(4, 0)), (WATER, WATER));
    // Going left the same coins meet the other cell first.
    world.set(-4, 0, EMPTY);
    world.set(4, 0, EMPTY);
    world.set(-5, 0, WATER);
    world.set(5, 0, WATER);
    world.step_with(&materials, &coins, &mut StdRng::seed_from_u64(0));
    assert_eq!((world.get(-6, 0), world.get(6, 0)), (WATER, WATER));
}

#[test]
fn mirrored_ticks_are_ticks_mirrored() {
    let materials = materials_with_gases();
    let mut rng = StdRng::seed_from_u64(99);
    let mut world = PhysicsWorld::new();
    for material in [STONE, SAND, WATER, STEAM, SMOKE, MERCURY] {
        let chance = Chance { numerator: 1, denominator: 5 };
        world.sprinkle((-20, -20, 20, 20), material, chance, &mut rng);
    }
    let mut mirrored = PhysicsWorld::new();
    for (x, y, material) in cells(&world) {
        mirrored.set(-x, y, material);
    }
    mirrored.generation = 1;
    for round in 0..12u64 {
        let coins: Vec<bool> = (0..2 * world.population())
            .map(|i| (i * 7 + round * 13) % 5 < 2)
            .collect();
        let turned: Vec<bool> = coins.iter().map(|coin| !coin).collect();
        world.step_with(&materials, &coins, &mut rng);
        mirrored.step_with(&materials, &turned, &mut rng);
        let mut back: Vec<_> = cells(&mirrored)
            .into_iter()
            .map(|(x, y, material)| (-x, y, material))
            .collect();
        back.sort();
        assert_eq!(back, cells(&world));
    }
}
