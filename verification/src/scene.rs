//! The starter scene of the physics mode.
use rand::rngs::StdRng;
use vstd::prelude::*;

use crate::chance::{draw, Chance};
use crate::material::{MaterialId, EMPTY, SAND, STONE, WATER};
use crate::physics::PhysicsWorld;
#[allow(unused_imports)]
use crate::{chance, scatter, tick};

verus! {

/// Where the sand mound is scattered: x and y of two opposite corners.
pub open spec fn mound() -> (i64, i64, i64, i64) {
    (-45i64, 8i64, -15i64, 30i64)
}

/// Where the pool of water is scattered.
pub open spec fn pool() -> (i64, i64, i64, i64) {
    (10i64, 15i64, 50i64, 38i64)
}

/// The floor and the walls of the basin.
pub open spec fn is_basin(x: int, y: int) -> bool {
    ||| -60 <= x <= 60 && y == 42
    ||| (x == -60 || x == 60) && 5 <= y <= 42
}

/// What lies at a place of the starter scene, given the rolls of the cells of
/// the mound and of the pool.
pub open spec fn scenery(
    mound_rolls: Seq<bool>,
    pool_rolls: Seq<bool>,
    x: int,
    y: int,
) -> MaterialId {
    if is_basin(x, y) {
        STONE
    } else if scatter::in_quad(x, y, mound()) && mound_rolls[scatter::index_in(mound(), x, y)] {
        SAND
    } else if scatter::in_quad(x, y, pool()) && pool_rolls[scatter::index_in(pool(), x, y)] {
        WATER
    } else {
        EMPTY
    }
}

/// How densely the mound is scattered.
pub open spec fn mound_density() -> Chance {
    Chance { numerator: 1, denominator: 2 }
}

/// How densely the pool is scattered.
pub open spec fn pool_density() -> Chance {
    Chance { numerator: 7, denominator: 10 }
}

/// The mound and the pool have this many cells.
pub proof fn lemma_areas()
    ensures
        scatter::area_of(mound()) == 713,
        scatter::area_of(pool()) == 984,
{
    assert(23 * 31 == 713) by (nonlinear_arith);
    assert(24 * 41 == 984) by (nonlinear_arith);
}

/// What lies at a place of the starter scene that is drawn from the words that
/// start at `from`: the mound takes the first of them and the pool those that
/// follow.
pub open spec fn drawn_scenery(words: Map<int, u64>, from: int, x: int, y: int) -> MaterialId {
    scenery(
        chance::rolls_of(words, from, 713, mound_density()),
        chance::rolls_of(words, from + 713, 984, pool_density()),
        x,
        y,
    )
}

/// The basin is built up to the column `x` of its floor and the row `y` of its
/// walls, and there is nothing else.
spec fn is_built(cells: Map<(int, int), u8>, x: int, y: int) -> bool {
    forall|u: int, v: int| #[trigger]
        tick::content(cells, u, v) == (if (-60 <= u < x && v == 42) || ((u == -60 || u == 60) && 5
            <= v < y) {
            STONE
        } else {
            EMPTY
        })
}

/// The starter scene with the given rolls: a stone basin, with sand where the
/// rolls of the mound's cells came true and water where those of the pool's
/// cells did. The rolls go row by row.
pub fn physics_scene_with(mound_rolls: &[bool], pool_rolls: &[bool]) -> (r: PhysicsWorld)
    requires
        mound_rolls@.len() == 713,
        pool_rolls@.len() == 984,
    ensures
        r.wf(),
        r.generation() == 0,
        forall|x: int, y: int| #[trigger]
            tick::content(r@, x, y) == scenery(mound_rolls@, pool_rolls@, x, y),
{
    let mut world = PhysicsWorld::new();
    let mut x: i64 = -60;
    while x <= 60
        invariant
            world.wf(),
            world.generation() == 0,
            -60 <= x <= 61,
            is_built(world@, x as int, 5),
        decreases 61 - x,
    {
        let ghost before = world@;
        world.set(x, 42, STONE);
        assert forall|u: int, v: int| #[trigger] tick::content(world@, u, v) == (if u == x && v
            == 42 {
            STONE
        } else {
            tick::content(before, u, v)
        }) by {}
        x = x + 1;
    }
    let mut y: i64 = 5;
    while y <= 42
        invariant
            world.wf(),
            world.generation() == 0,
            5 <= y <= 43,
            is_built(world@, 61, y as int),
        decreases 43 - y,
    {
        let ghost before = world@;
        world.set(-60, y, STONE);
        world.set(60, y, STONE);
        assert forall|u: int, v: int| #[trigger] tick::content(world@, u, v) == (if (u == -60 || u
            == 60) && v == y {
            STONE
        } else {
            tick::content(before, u, v)
        }) by {}
        y = y + 1;
    }
    proof {
        lemma_areas();
    }
    world.sprinkle_with((-45, 8, -15, 30), SAND, mound_rolls);
    world.sprinkle_with((10, 15, 50, 38), WATER, pool_rolls);
    world
}

/// Starter physics scene: a stone basin holding a sand mound and a pool of
/// water, so the mode is immediately alive when switched to.
pub fn default_physics_scene(rng: &mut StdRng) -> (r: PhysicsWorld)
    ensures
        r.wf(),
        r.generation() == 0,
        forall|x: int, y: int| #[trigger]
            tick::content(r@, x, y) == drawn_scenery(chance::words_of(*old(rng)), 0, x, y),
        chance::is_rest(chance::words_of(*final(rng)), chance::words_of(*old(rng)), 1697),
{
    let ghost words = chance::words_of(*rng);
    let mound_rolls = draw(rng, Chance { numerator: 1, denominator: 2 }, 713);
    let ghost rest = chance::words_of(*rng);
    let pool_rolls = draw(rng, Chance { numerator: 7, denominator: 10 }, 984);
    proof {
        chance::lemma_rolls_of_rest(words, rest, 713, 0, 984, pool_density());
        chance::lemma_rest_of_rest(words, rest, chance::words_of(*rng), 713, 984);
    }
    physics_scene_with(mound_rolls.as_slice(), pool_rolls.as_slice())
}

/// The starter scene is a stone basin, 121 cells wide, with its floor in row 42
/// and walls from row 5 down. Left of the middle lies sand, where the rolls of
/// 31 by 23 cells came true, and right of it water, where those of 41 by 24
/// cells did. There is nothing else.
pub proof fn law_scenery(mound_rolls: Seq<bool>, pool_rolls: Seq<bool>, x: int, y: int)
    ensures
        ({
            let material = scenery(mound_rolls, pool_rolls, x, y);
            let basin = (y == 42 && -60 <= x <= 60) || ((x == -60 || x == 60) && 5 <= y <= 42);
            let mound = -45 <= x <= -15 && 8 <= y <= 30;
            let pool = 10 <= x <= 50 && 15 <= y <= 38;
            &&& material == 3 <==> basin
            &&& material == 1 <==> mound && mound_rolls[(y - 8) * 31 + (x + 45)]
            &&& material == 2 <==> pool && pool_rolls[(y - 15) * 41 + (x - 10)]
            &&& material <= 3
        }),
{
}

/// The rolls of the starter scene are drawn one after the other: even ones for
/// the mound, and then ones of seven in ten for the pool.
pub proof fn law_scenery_is_drawn(words: Map<int, u64>, from: int, x: int, y: int)
    ensures
        ({
            let material = drawn_scenery(words, from, x, y);
            &&& -45 <= x <= -15 && 8 <= y <= 30 ==> material == (if chance::is_hit(
                words[from + ((y - 8) * 31 + (x + 45))],
                1,
                2,
            ) {
                1u8
            } else {
                0u8
            })
            &&& 10 <= x <= 50 && 15 <= y <= 38 ==> material == (if chance::is_hit(
                words[from + 713 + ((y - 15) * 41 + (x - 10))],
                7,
                10,
            ) {
                2u8
            } else {
                0u8
            })
        }),
{
}

} // verus!
