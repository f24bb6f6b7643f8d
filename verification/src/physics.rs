//! Falling-sand physics on an unbounded grid of materials.
use vstd::prelude::*;

use rand::rngs::StdRng;

use crate::chance::{roll, Chance};
use crate::chunk::{CellSet, ChunkPos, SparseGrid, CHUNK_SIZE};
use crate::material::{Material, MaterialId, Phase, EMPTY};
use crate::tick::Tick;
#[allow(unused_imports)]
use crate::{chance, chunk, scatter, tick};

verus! {

/// Sparse infinite grid of materials for the falling-sand physics mode.
///
/// Unlike the two-state `World`, stepping mutates in place with a well-defined
/// scan order (bottom to top, alternating horizontal direction per
/// generation). A "move" is a clear and set pair, which doesn't map cleanly
/// onto a double-buffered model.
pub struct PhysicsWorld {
    /// The material of each cell.
    pub cells: SparseGrid,
    pub generation: u64,
}

impl View for PhysicsWorld {
    type V = Map<(int, int), u8>;

    open spec fn view(&self) -> Map<(int, int), u8> {
        self.cells@
    }
}

impl Clone for PhysicsWorld {
    fn clone(&self) -> (r: Self)
        ensures
            r.wf() == self.wf(),
            r@ == self@,
            r.generation() == self.generation(),
    {
        PhysicsWorld { cells: self.cells.clone(), generation: self.generation }
    }
}

impl PhysicsWorld {
    pub open spec fn wf(self) -> bool {
        &&& self.cells.wf()
        &&& forall|x: int, y: int| #[trigger]
            self.cells@.dom().contains((x, y)) ==> on_grid(x, y)
    }

    pub open spec fn spec_generation(&self) -> u64 {
        self.generation
    }

    /// How many ticks the world has taken.
    #[verifier::when_used_as_spec(spec_generation)]
    pub fn generation(&self) -> (r: u64)
        ensures
            r == self.generation(),
    {
        self.generation
    }

    /// A world holds finitely many cells, each of which holds something and
    /// can be addressed.
    pub proof fn lemma_cells(self)
        requires
            self.wf(),
        ensures
            self@.dom().finite(),
            forall|x: int, y: int| #[trigger]
                self@.dom().contains((x, y)) ==> on_grid(x, y) && self@[(x, y)] != EMPTY,
    {
        self.cells.lemma_finite();
    }

    pub fn new() -> (r: Self)
        ensures
            r.wf(),
            r@ == Map::<(int, int), u8>::empty(),
            r.generation() == 0,
    {
        PhysicsWorld { cells: SparseGrid::new(), generation: 0 }
    }

    pub fn get(&self, x: i64, y: i64) -> (r: MaterialId)
        requires
            self.wf(),
        ensures
            r == tick::content(self@, x as int, y as int),
    {
        self.cells.get(x, y)
    }

    pub fn set(&mut self, x: i64, y: i64, value: MaterialId)
        requires
            old(self).wf(),
        ensures
            final(self).wf(),
            final(self)@ == tick::placed(old(self)@, x as int, y as int, value),
            final(self).generation() == old(self).generation(),
    {
        self.cells.set(x, y, value);
        assert(self@ =~= tick::placed(old(self)@, x as int, y as int, value));
    }

    pub fn clear(&mut self)
        ensures
            final(self).wf(),
            final(self)@ == Map::<(int, int), u8>::empty(),
            final(self).generation() == 0,
    {
        self.cells.clear();
        self.generation = 0;
    }

    /// How many cells hold something.
    pub fn population(&self) -> (r: u64)
        requires
            self.wf(),
            self@.dom().len() <= u64::MAX,
        ensures
            r == self@.dom().len(),
    {
        self.cells.population()
    }

    /// How many cells hold something, if they can be counted.
    pub fn count(&self) -> (r: Option<u64>)
        requires
            self.wf(),
        ensures
            match r {
                Some(total) => total == self@.dom().len(),
                None => self@.dom().len() > u64::MAX,
            },
    {
        self.cells.count()
    }

    /// How many chunks are stored: those that hold something.
    pub fn chunk_count(&self) -> (r: usize)
        requires
            self.wf(),
        ensures
            r == chunk::occupied_chunks(self@.dom()).len(),
    {
        self.cells.chunk_count()
    }

    /// All non-empty cells inside the (inclusive) world-coordinate rectangle:
    /// chunk by chunk, and row by row in a chunk.
    pub fn cells_in(&self, min_x: i64, min_y: i64, max_x: i64, max_y: i64) -> (r: Vec<
        (i64, i64, MaterialId),
    >)
        requires
            self.wf(),
        ensures
            chunk::lists_rect(
                r@,
                self@,
                min_x as int,
                min_y as int,
                max_x as int,
                max_y as int,
            ),
    {
        self.cells.cells_in(min_x, min_y, max_x, max_y)
    }

    /// Put `material` where the roll of a cell of the inclusive rectangle came
    /// true, leaving the other cells untouched. There is one roll for each
    /// cell, row by row.
    pub fn sprinkle_with(
        &mut self,
        rect: (i64, i64, i64, i64),
        material: MaterialId,
        rolls: &[bool],
    )
        requires
            old(self).wf(),
            rolls@.len() == scatter::area_of(rect),
        ensures
            final(self).wf(),
            final(self).generation() == old(self).generation(),
            forall|x: int, y: int| #[trigger]
                tick::content(final(self)@, x, y) == (if scatter::in_quad(x, y, rect)
                    && rolls@[scatter::index_in(rect, x, y)] {
                    material
                } else {
                    tick::content(old(self)@, x, y)
                }),
    {
        self.cells.scatter_with(rect, material, None, rolls);
        assert forall|x: int, y: int| #[trigger] tick::content(self@, x, y) == self.cells.at(x, y) by {}
        assert forall|x: int, y: int| #[trigger] self.cells@.dom().contains((x, y)) implies on_grid(
            x,
            y,
        ) by {
            assert(scatter::in_quad(x, y, rect) || old(self).cells@.dom().contains((x, y)));
        }
    }

    /// Scatter `material` over the inclusive rectangle at the given density,
    /// leaving cells that don't pass the roll untouched. Each cell takes one
    /// roll, row by row.
    pub fn sprinkle(
        &mut self,
        rect: (i64, i64, i64, i64),
        material: MaterialId,
        density: Chance,
        rng: &mut StdRng,
    )
        requires
            old(self).wf(),
            density.valid(),
        ensures
            final(self).wf(),
            final(self).generation() == old(self).generation(),
            forall|x: int, y: int| #[trigger]
                tick::content(final(self)@, x, y) == (if scatter::in_quad(x, y, rect)
                    && chance::roll_at(
                    chance::words_of(*old(rng)),
                    scatter::index_in(rect, x, y),
                    density,
                ) {
                    material
                } else {
                    tick::content(old(self)@, x, y)
                }),
            chance::is_rest(
                chance::words_of(*final(rng)),
                chance::words_of(*old(rng)),
                chance::words_used(scatter::area_of(rect), density),
            ),
    {
        self.cells.scatter(rect, material, None, density, rng);
        assert forall|x: int, y: int| #[trigger] tick::content(self@, x, y) == self.cells.at(x, y) by {}
        assert forall|x: int, y: int| #[trigger] self.cells@.dom().contains((x, y)) implies on_grid(
            x,
            y,
        ) by {
            assert(scatter::in_quad(x, y, rect) || old(self).cells@.dom().contains((x, y)));
        }
    }
}

/// The place can be addressed.
pub open spec fn on_grid(x: int, y: int) -> bool {
    i64::MIN <= x <= i64::MAX && i64::MIN <= y <= i64::MAX
}

/// Whether the rows are scanned from left to right.
pub open spec fn goes_right(generation: u64) -> bool {
    generation % 2 == 0
}

/// There is a place to go to in each of the headings.
pub open spec fn has_room(phase: Phase, x: int, y: int) -> bool {
    match phase {
        Phase::Powder | Phase::Liquid => i64::MIN < x < i64::MAX && y < i64::MAX,
        Phase::Gas => i64::MIN < x < i64::MAX && i64::MIN < y,
        _ => true,
    }
}

/// The materials of the cells are known, and each cell that can move has room
/// to.
pub open spec fn can_tick(materials: Seq<Material>, cells: Map<(int, int), u8>) -> bool {
    &&& tick::covers(materials, cells)
    &&& forall|x: int, y: int| #[trigger]
        cells.dom().contains((x, y)) ==> has_room(
            materials[cells[(x, y)] as int].phase,
            x,
            y,
        )
}

/// The tick makes `after` of the cells, with the given coins and, once those are
/// used up, others that are drawn from the words. The words `rest` are left.
pub open spec fn is_tick(
    cells: Map<(int, int), u8>,
    materials: Seq<Material>,
    rightward: bool,
    given: Seq<bool>,
    words: Map<int, u64>,
    after: Map<(int, int), u8>,
    rest: Map<int, u64>,
) -> bool {
    exists|n: int|
        {
            let tick = tick::ticked(cells, materials, rightward, #[trigger] coins_of(given, words, n));
            &&& 0 <= n
            &&& tick.flipped == n
            &&& tick.cells == after
            &&& chance::is_rest(rest, words, coins_drawn(given.len(), n))
        }
}

/// Two ticks of the same cells with equal generators do the same, and leave
/// the generators with the same words to give out.
pub proof fn law_equal_generators_tick_alike(
    cells: Map<(int, int), u8>,
    materials: Seq<Material>,
    rightward: bool,
    given: Seq<bool>,
    words: Map<int, u64>,
    a: (Map<(int, int), u8>, Map<int, u64>),
    b: (Map<(int, int), u8>, Map<int, u64>),
)
    requires
        is_tick(cells, materials, rightward, given, words, a.0, a.1),
        is_tick(cells, materials, rightward, given, words, b.0, b.1),
    ensures
        a.0 == b.0,
        chance::is_rest(a.1, b.1, 0),
{
    let m = choose|n: int|
        {
            let tick = tick::ticked(cells, materials, rightward, #[trigger] coins_of(given, words, n));
            &&& 0 <= n
            &&& tick.flipped == n
            &&& tick.cells == a.0
            &&& chance::is_rest(a.1, words, coins_drawn(given.len(), n))
        };
    let n = choose|n: int|
        {
            let tick = tick::ticked(cells, materials, rightward, #[trigger] coins_of(given, words, n));
            &&& 0 <= n
            &&& tick.flipped == n
            &&& tick.cells == b.0
            &&& chance::is_rest(b.1, words, coins_drawn(given.len(), n))
        };
    lemma_coins_suffice(cells, materials, rightward, given, words, m, n);
    lemma_coins_suffice(cells, materials, rightward, given, words, n, m);
    assert forall|i: int| 0 <= i implies #[trigger] a.1[i] == b.1[i + 0] by {
        assert(a.1[i] == words[i + coins_drawn(given.len(), n)]);
        assert(b.1[i] == words[i + coins_drawn(given.len(), n)]);
    }
}

/// Coins after the last one flipped make no difference.
proof fn lemma_coins_suffice(
    cells: Map<(int, int), u8>,
    materials: Seq<Material>,
    rightward: bool,
    given: Seq<bool>,
    words: Map<int, u64>,
    m: int,
    n: int,
)
    requires
        0 <= m,
        tick::ticked(cells, materials, rightward, coins_of(given, words, m)).flipped == m,
    ensures
        m <= n ==> tick::ticked(cells, materials, rightward, coins_of(given, words, n))
            == tick::ticked(cells, materials, rightward, coins_of(given, words, m)),
{
    if m <= n {
        let (few, many) = (coins_of(given, words, m), coins_of(given, words, n));
        let order = tick::turn_order(cells.dom(), rightward);
        assert(many =~= few + many.skip(m));
        Tick::start(cells).lemma_more_flips(materials, order, few, many.skip(m));
    }
}

/// Whether `mover` may enter a cell holding `target_id` when moving with
/// vertical direction `dy`. Empty cells are always enterable; fluids are
/// displaced by density (denser sinks, lighter rises); sideways movement
/// requires empty space.
pub fn can_displace(
    mover: &Material,
    target_id: MaterialId,
    dy: i64,
    materials: &[Material],
) -> (r: bool)
    requires
        target_id == EMPTY || target_id < materials@.len(),
    ensures
        r == tick::enters(materials@, *mover, target_id, dy as int),
{
    if target_id == EMPTY {
        return true;
    }
    if dy == 0 {
        return false;
    }
    let target = &materials[target_id as usize];
    match target.phase {
        Phase::Liquid | Phase::Gas => if dy > 0 {
            mover.density.is_above(target.density)
        } else {
            target.density.is_above(mover.density)
        },
        _ => false,
    }
}

fn heading_count(phase: Phase) -> (r: usize)
    ensures
        forall|first: bool, second: bool| r == #[trigger] tick::headings(phase, first, second).len(),
{
    match phase {
        Phase::Powder | Phase::Gas => 3,
        Phase::Liquid => 5,
        Phase::Empty | Phase::Solid => 0,
    }
}

/// The `i`th of the headings that a cell may take.
fn heading(phase: Phase, first: bool, second: bool, i: usize) -> (r: (i64, i64))
    requires
        i < tick::headings(phase, first, second).len(),
    ensures
        (r.0 as int, r.1 as int) == tick::headings(phase, first, second)[i as int],
        -1 <= r.0 <= 1,
        -1 <= r.1 <= 1,
        phase is Gas ==> r.1 == -1,
        !(phase is Gas) ==> r.1 >= 0,
        r != (0i64, 0i64),
{
    let dy: i64 = match phase {
        Phase::Gas => -1,
        _ => 1,
    };
    if i == 0 {
        (0, dy)
    } else if i < 3 {
        (if (i == 1) == first {
            1
        } else {
            -1
        }, dy)
    } else {
        (if (i == 3) == second {
            1
        } else {
            -1
        }, 0)
    }
}

/// The chance with which a coin falls on its heads.
pub open spec fn even_chance() -> Chance {
    Chance { numerator: 1, denominator: 2 }
}

/// How the `i`th coin falls: the given ones come first, and then those that
/// are drawn from the words.
pub open spec fn coin_at(given: Seq<bool>, words: Map<int, u64>, i: int) -> bool {
    if i < given.len() {
        given[i]
    } else {
        chance::roll_at(words, i - given.len(), even_chance())
    }
}

/// How the first `n` coins fall.
pub open spec fn coins_of(given: Seq<bool>, words: Map<int, u64>, n: int) -> Seq<bool> {
    Seq::new(n as nat, |i: int| coin_at(given, words, i))
}

/// How many of the first `n` coins are drawn, where so many are given.
pub open spec fn coins_drawn(given: nat, n: int) -> int {
    if n <= given {
        0
    } else {
        n - given
    }
}

/// Coins to flip: the given ones, and random ones once those are used up.
struct Coins<'a> {
    given: &'a [bool],
    next: usize,
}

impl<'a> Coins<'a> {
    /// How the `i`th of the coins that are left falls.
    spec fn coin(self, words: Map<int, u64>, i: int) -> bool {
        coin_at(self.given@, words, self.next + i)
    }

    fn flip(&mut self, rng: &mut StdRng) -> (r: bool)
        requires
            old(self).next <= old(self).given@.len(),
        ensures
            final(self).given == old(self).given,
            final(self).next <= final(self).given@.len(),
            r == old(self).coin(chance::words_of(*old(rng)), 0),
            final(self).next == (if old(self).next < old(self).given@.len() {
                old(self).next + 1
            } else {
                old(self).next as int
            }),
            chance::is_rest(
                chance::words_of(*final(rng)),
                chance::words_of(*old(rng)),
                old(self).next + 1 - final(self).next,
            ),
    {
        if self.next < self.given.len() {
            let coin = self.given[self.next];
            self.next = self.next + 1;
            coin
        } else {
            roll(rng, Chance { numerator: 1, denominator: 2 })
        }
    }
}

impl PhysicsWorld {
    /// Give the cell at `(x, y)` its turn, with coins that fall as given: it
    /// moves if it has not moved this tick and is free to. `moved` holds the
    /// cells that were moved into this tick.
    pub fn turn(
        &mut self,
        x: i64,
        y: i64,
        materials: &[Material],
        moved: &mut CellSet,
        first: bool,
        second: bool,
    )
        requires
            old(self).wf(),
            tick::covers(materials@, old(self)@),
            ({
                let before = Tick { cells: old(self)@, moved: old(moved)@, flipped: 0 };
                before.waits(x as int, y as int) ==> has_room(
                    before.phase_at(materials@, x as int, y as int),
                    x as int,
                    y as int,
                )
            }),
        ensures
            final(self).wf(),
            final(self).generation() == old(self).generation(),
            ({
                let before = Tick { cells: old(self)@, moved: old(moved)@, flipped: 0 };
                let after = before.turn(materials@, x as int, y as int, first, second);
                final(self)@ == after.cells && final(moved)@ == after.moved
            }),
    {
        let id = self.get(x, y);
        if id == EMPTY || moved.contains(x, y) {
            return ;
        }
        proof {
            self.lemma_cells();
        }
        let mover = &materials[id as usize];
        let phase = mover.phase;
        let count = heading_count(phase);
        let ghost all = tick::headings(phase, first, second);
        let ghost before = Tick { cells: self@, moved: moved@, flipped: 0 };
        let mut i: usize = 0;
        assert(all.skip(0) =~= all);
        while i < count
            invariant
                self.wf(),
                self.generation() == old(self).generation(),
                tick::covers(materials@, self@),
                id == tick::content(self@, x as int, y as int),
                id != EMPTY,
                id < materials@.len(),
                *mover == materials@[id as int],
                phase == mover.phase,
                has_room(phase, x as int, y as int),
                0 <= i <= count,
                all == tick::headings(phase, first, second),
                all.len() == count,
                before == (Tick { cells: self@, moved: moved@, flipped: 0 }),
                before == (Tick { cells: old(self)@, moved: old(moved)@, flipped: 0 }),
                before.waits(x as int, y as int),
                before.heading(materials@, x as int, y as int, first, second) == tick::first_open(
                    self@,
                    moved@,
                    materials@,
                    x as int,
                    y as int,
                    all.skip(i as int),
                ),
            decreases count - i,
        {
            let (dx, dy) = heading(phase, first, second, i);
            let (tx, ty) = (x + dx, y + dy);
            let target_id = self.get(tx, ty);
            assert(all.skip(i as int)[0] == all[i as int]);
            assert(all.skip(i as int).drop_first() =~= all.skip(i + 1));
            // What has moved this tick is not displaced either.
            let free = target_id == EMPTY || !moved.contains(tx, ty);
            if free && can_displace(mover, target_id, dy, materials) {
                // Swap: covers plain moves (target empty) and displacement
                // (sand sinking through water, which bubbles up in its place).
                self.set(x, y, target_id);
                self.set(tx, ty, id);
                moved.insert(tx, ty);
                if target_id != EMPTY {
                    moved.insert(x, y);
                }
                return ;
            }
            i = i + 1;
        }
        assert(all.skip(count as int).len() == 0);
    }

    /// Give the cell at `(x, y)` its turn. The result is how the coins fell.
    fn step_cell(
        &mut self,
        x: i64,
        y: i64,
        materials: &[Material],
        moved: &mut CellSet,
        coins: &mut Coins<'_>,
        rng: &mut StdRng,
    ) -> (r: (bool, bool))
        requires
            old(self).wf(),
            tick::covers(materials@, old(self)@),
            old(coins).next <= old(coins).given@.len(),
            ({
                let before = Tick { cells: old(self)@, moved: old(moved)@, flipped: 0 };
                before.waits(x as int, y as int) ==> has_room(
                    before.phase_at(materials@, x as int, y as int),
                    x as int,
                    y as int,
                )
            }),
        ensures
            final(self).wf(),
            final(self).generation() == old(self).generation(),
            final(coins).given == old(coins).given,
            ({
                let before = Tick { cells: old(self)@, moved: old(moved)@, flipped: 0 };
                let after = before.turn(materials@, x as int, y as int, r.0, r.1);
                let (given, next) = (old(coins).given@, old(coins).next as int);
                &&& final(self)@ == after.cells
                &&& final(moved)@ == after.moved
                &&& final(coins).next == (if next + after.flipped < given.len() {
                    next + after.flipped
                } else {
                    given.len() as int
                })
                &&& after.flipped >= 1 ==> r.0 == old(coins).coin(chance::words_of(*old(rng)), 0)
                &&& after.flipped >= 2 ==> r.1 == old(coins).coin(chance::words_of(*old(rng)), 1)
                &&& chance::is_rest(
                    chance::words_of(*final(rng)),
                    chance::words_of(*old(rng)),
                    next + after.flipped - final(coins).next,
                )
            }),
    {
        let id = self.get(x, y);
        if id == EMPTY || moved.contains(x, y) {
            return (false, false);
        }
        let (first, second) = match materials[id as usize].phase {
            Phase::Powder | Phase::Gas => (coins.flip(rng), false),
            Phase::Liquid => {
                let ghost words = chance::words_of(*rng);
                let first = coins.flip(rng);
                let ghost between = chance::words_of(*rng);
                let ghost used = old(coins).next + 1 - coins.next;
                let second = coins.flip(rng);
                proof {
                    assert(between[0] == words[used]);
                    chance::lemma_rest_of_rest(
                        words,
                        between,
                        chance::words_of(*rng),
                        used,
                        old(coins).next + 2 - coins.next - used,
                    );
                }
                (first, second)
            },
            Phase::Empty | Phase::Solid => {
                return (false, false);
            },
        };
        self.turn(x, y, materials, moved, first, second);
        (first, second)
    }
}

/// Each number is larger than those before it.
spec fn is_ascending(s: Seq<i64>) -> bool {
    forall|i: int, j: int| 0 <= i < j < s.len() ==> #[trigger] s[i] < #[trigger] s[j]
}

/// Put the value in its place, unless it is there already.
fn insert_ascending(list: &mut Vec<i64>, value: i64)
    requires
        is_ascending(old(list)@),
    ensures
        is_ascending(final(list)@),
        forall|n: i64| #[trigger] final(list)@.contains(n) <==> n == value || old(list)@.contains(n),
{
    let mut low: usize = 0;
    let mut high: usize = list.len();
    while low < high
        invariant
            list@ == old(list)@,
            is_ascending(list@),
            low <= high <= list@.len(),
            forall|i: int| 0 <= i < low ==> #[trigger] list@[i] < value,
            forall|i: int| high <= i < list@.len() ==> value <= #[trigger] list@[i],
        decreases high - low,
    {
        let middle: usize = low + (high - low) / 2;
        if list[middle] < value {
            low = middle + 1;
        } else {
            high = middle;
        }
    }
    if low == list.len() || list[low] != value {
        let ghost before = list@;
        list.insert(low, value);
        proof {
            assert forall|n: i64| #[trigger] list@.contains(n) <==> n == value || before.contains(
                n,
            ) by {
                assert(list@[low as int] == value);
                if before.contains(n) {
                    let i = choose|i: int| 0 <= i < before.len() && before[i] == n;
                    assert(list@[if i < low {
                        i
                    } else {
                        i + 1
                    }] == n);
                }
                if list@.contains(n) && n != value {
                    let i = choose|i: int| 0 <= i < list@.len() && list@[i] == n;
                    assert(before[if i < low {
                        i
                    } else {
                        i - 1
                    }] == n);
                }
            }
        }
    }
}

impl PhysicsWorld {
    /// The chunk rows that hold something, from top to bottom.
    fn chunk_rows(&self) -> (r: Vec<i64>)
        requires
            self.wf(),
        ensures
            is_ascending(r@),
            forall|cy: i64| #[trigger]
                r@.contains(cy) <==> exists|cx: int| #[trigger]
                    chunk::occupied_chunks(self@.dom()).contains((cx, cy as int)),
    {
        let positions = self.cells.positions();
        let mut rows: Vec<i64> = Vec::new();
        let mut i: usize = 0;
        while i < positions.len()
            invariant
                i <= positions@.len(),
                is_ascending(rows@),
                forall|cy: i64| #[trigger]
                    rows@.contains(cy) <==> exists|j: int|
                        0 <= j < i && #[trigger] positions@[j].y == cy,
            decreases positions@.len() - i,
        {
            let ghost before = rows@;
            insert_ascending(&mut rows, positions[i].y);
            assert forall|cy: i64| #[trigger] rows@.contains(cy) <==> exists|j: int|
                0 <= j < i + 1 && #[trigger] positions@[j].y == cy by {
                if before.contains(cy) {
                    let j = choose|j: int| 0 <= j < i && #[trigger] positions@[j].y == cy;
                    assert(0 <= j < i + 1 && positions@[j].y == cy);
                }
                assert(positions@[i as int].y == positions@[i as int].y);
            }
            i = i + 1;
        }
        proof {
            let held = chunk::occupied_chunks(self@.dom());
            assert forall|cy: i64| #[trigger] rows@.contains(cy) <==> exists|cx: int| #[trigger]
                held.contains((cx, cy as int)) by {
                if rows@.contains(cy) {
                    let j = choose|j: int| 0 <= j < positions@.len() && #[trigger] positions@[j].y == cy;
                    assert(held.contains((positions@[j].x as int, cy as int)));
                }
                if exists|cx: int| #[trigger] held.contains((cx, cy as int)) {
                    let cx = choose|cx: int| #[trigger] held.contains((cx, cy as int));
                    let j = choose|j: int|
                        0 <= j < positions@.len() && #[trigger] positions@[j].x == cx
                            && positions@[j].y == cy;
                    assert(positions@[j].y == cy);
                }
            }
        }
        rows
    }

    /// The chunks of a chunk row that hold something, from left to right.
    fn chunk_columns(&self, cy: i64) -> (r: Vec<i64>)
        requires
            self.wf(),
        ensures
            is_ascending(r@),
            forall|cx: i64| #[trigger]
                r@.contains(cx) <==> chunk::occupied_chunks(self@.dom()).contains(
                    (cx as int, cy as int),
                ),
    {
        let positions = self.cells.positions();
        let mut columns: Vec<i64> = Vec::new();
        let mut i: usize = 0;
        while i < positions.len()
            invariant
                i <= positions@.len(),
                is_ascending(columns@),
                forall|cx: i64| #[trigger]
                    columns@.contains(cx) <==> exists|j: int|
                        0 <= j < i && #[trigger] positions@[j].x == cx && positions@[j].y == cy,
            decreases positions@.len() - i,
        {
            let ghost before = columns@;
            if positions[i].y == cy {
                insert_ascending(&mut columns, positions[i].x);
            }
            assert forall|cx: i64| #[trigger] columns@.contains(cx) <==> exists|j: int|
                0 <= j < i + 1 && #[trigger] positions@[j].x == cx && positions@[j].y == cy by {
                if before.contains(cx) {
                    let j = choose|j: int|
                        0 <= j < i && #[trigger] positions@[j].x == cx && positions@[j].y == cy;
                    assert(0 <= j < i + 1 && positions@[j].x == cx);
                }
                assert(positions@[i as int].x == positions@[i as int].x);
            }
            i = i + 1;
        }
        proof {
            let held = chunk::occupied_chunks(self@.dom());
            assert forall|cx: i64| #[trigger] columns@.contains(cx) <==> held.contains(
                (cx as int, cy as int),
            ) by {
                if held.contains((cx as int, cy as int)) {
                    let j = choose|j: int|
                        0 <= j < positions@.len() && #[trigger] positions@[j].x == cx
                            && positions@[j].y == cy;
                    assert(positions@[j].x == cx);
                }
            }
        }
        columns
    }
}

/// A tick under way.
struct Run<'a> {
    materials: &'a [Material],
    rightward: bool,
    /// The cells that were moved into this tick.
    moved: CellSet,
    coins: Coins<'a>,
    /// How the coins have fallen.
    flips: Ghost<Seq<bool>>,
    /// The words that the generator held at the start of the tick.
    words: Ghost<Map<int, u64>>,
    /// The cells at the start of the tick.
    start: Ghost<Map<(int, int), u8>>,
    /// How many of those have had their turn.
    passed: Ghost<int>,
}

/// Where a column stands in the order of a row.
spec fn rank_of(rightward: bool, x: int) -> int {
    if rightward {
        x
    } else {
        -x
    }
}

/// Less than the rank of any column.
spec fn rank_low() -> int {
    -0x8000_0000_0000_0000
}

impl<'a> Run<'a> {
    spec fn order(self) -> Seq<(int, int)> {
        tick::turn_order(self.start@.dom(), self.rightward)
    }

    spec fn now(self, cells: Map<(int, int), u8>) -> Tick {
        Tick { cells, moved: self.moved@, flipped: self.flips@.len() as int }
    }

    /// The cells that come before `rank` in `row` have had their turn and no
    /// others, and `cells` is what has come of it.
    spec fn has_reached(self, cells: Map<(int, int), u8>, row: int, rank: int) -> bool {
        &&& self.start@.dom().finite()
        &&& can_tick(self.materials@, self.start@)
        &&& forall|x: int, y: int| #[trigger] self.start@.dom().contains((x, y)) ==> on_grid(x, y)
        &&& tick::has_passed(self.order(), self.passed@, self.rightward, row, rank)
        &&& Tick::start(self.start@).swept(
            self.materials@,
            self.order().take(self.passed@),
            self.flips@,
        ) == self.now(cells)
    }

    /// The coins have fallen as they had to, and the generator still holds the
    /// words `now`.
    spec fn is_fed(self, now: Map<int, u64>) -> bool {
        let (given, n) = (self.coins.given@, self.flips@.len() as int);
        &&& self.coins.next == n - coins_drawn(given.len(), n)
        &&& self.flips@ == coins_of(given, self.words@, n)
        &&& chance::is_rest(now, self.words@, coins_drawn(given.len(), n))
    }

    /// It is the same tick.
    spec fn continues(self, other: Run<'a>) -> bool {
        &&& self.materials == other.materials
        &&& self.rightward == other.rightward
        &&& self.start == other.start
        &&& self.words == other.words
        &&& self.coins.given == other.coins.given
    }

    proof fn lemma_reached(self, cells: Map<(int, int), u8>, row: int, rank: int)
        requires
            self.has_reached(cells, row, rank),
        ensures
            tick::covers(self.materials@, cells),
            tick::is_turn_order(self.order(), self.start@.dom(), self.rightward),
            forall|x: int, y: int| #[trigger]
                self.now(cells).waits(x, y) ==> on_grid(x, y) && self.start@.dom().contains((x, y))
                    && has_room(self.now(cells).phase_at(self.materials@, x, y), x, y),
    {
        tick::lemma_turn_order(self.start@.dom(), self.rightward);
        let order = self.order().take(self.passed@);
        let start = Tick::start(self.start@);
        start.lemma_swept(self.materials@, order, self.flips@, 0, 0);
        assert forall|x: int, y: int| #[trigger] self.now(cells).waits(x, y) implies on_grid(x, y)
            && self.start@.dom().contains((x, y)) && has_room(
            self.now(cells).phase_at(self.materials@, x, y),
            x,
            y,
        ) by {
            start.lemma_swept(self.materials@, order, self.flips@, x, y);
            assert(start.waits(x, y));
        }
    }

    /// More coins have fallen.
    proof fn lemma_fed(
        self,
        coins: Coins<'a>,
        flips: Seq<bool>,
        more: Seq<bool>,
        before: Map<int, u64>,
        now: Map<int, u64>,
    )
        requires
            (Run { coins, flips: Ghost(flips), ..self }).is_fed(before),
            self.coins.given == coins.given,
            self.flips@ == flips + more,
            self.coins.next == (if coins.next + more.len() < coins.given@.len() {
                coins.next + more.len()
            } else {
                coins.given@.len() as int
            }),
            forall|i: int| 0 <= i < more.len() ==> #[trigger] more[i] == coins.coin(before, i),
            chance::is_rest(now, before, coins.next + more.len() - self.coins.next),
        ensures
            self.is_fed(now),
    {
        let (given, n) = (self.coins.given@, flips.len() as int);
        let drawn = coins_drawn(given.len(), n);
        let words = self.words@;
        let all = coins_of(given, words, self.flips@.len() as int);
        assert forall|i: int| 0 <= i < self.flips@.len() implies self.flips@[i] == all[i] by {
            if i < n {
                assert(flips[i] == coins_of(given, words, n)[i]);
            } else {
                let j = i - n;
                assert(more[j] == coins.coin(before, j));
                if i >= given.len() {
                    let k = coins.next + j - given.len();
                    assert(before[k] == words[k + drawn]);
                }
            }
        }
        assert(self.flips@ =~= all);
        chance::lemma_rest_of_rest(
            words,
            before,
            now,
            drawn,
            coins.next + more.len() - self.coins.next,
        );
    }

    /// Nothing waits on the way to the next point: go there.
    fn skip(
        &mut self,
        Ghost(cells): Ghost<Map<(int, int), u8>>,
        Ghost(from): Ghost<(int, int)>,
        Ghost(to): Ghost<(int, int)>,
    )
        requires
            old(self).has_reached(cells, from.0, from.1),
            to.0 < from.0 || (to.0 == from.0 && from.1 <= to.1),
            forall|x: int, y: int| #[trigger]
                old(self).now(cells).waits(x, y) && tick::is_past(
                    old(self).rightward,
                    (x, y),
                    to.0,
                    to.1,
                ) ==> tick::is_past(old(self).rightward, (x, y), from.0, from.1),
        ensures
            final(self).has_reached(cells, to.0, to.1),
            *final(self) == (Run { passed: final(self).passed, ..*old(self) }),
    {
        proof {
            self.lemma_reached(cells, from.0, from.1);
            let k = self.passed@;
            self.passed@ = Tick::start(self.start@).lemma_advance(
                self.materials@,
                self.order(),
                self.flips@,
                k,
                self.rightward,
                from,
                to,
            );
        }
    }
}

impl PhysicsWorld {
    /// Give the next cell its turn.
    fn visit(&mut self, run: &mut Run<'_>, x: i64, y: i64, rng: &mut StdRng)
        requires
            old(self).wf(),
            old(run).has_reached(old(self)@, y as int, rank_of(old(run).rightward, x as int)),
            old(run).is_fed(chance::words_of(*old(rng))),
        ensures
            final(self).wf(),
            final(self).generation() == old(self).generation(),
            final(run).continues(*old(run)),
            final(run).has_reached(final(self)@, y as int, rank_of(old(run).rightward, x as int) + 1),
            final(run).is_fed(chance::words_of(*final(rng))),
            forall|u: int, v: int| #[trigger]
                final(run).now(final(self)@).waits(u, v) ==> old(run).now(old(self)@).waits(u, v),
    {
        let ghost (px, py) = (x as int, y as int);
        let ghost rank = rank_of(run.rightward, px);
        let ghost before = run.now(self@);
        let ghost flips = run.flips@;
        let ghost order = run.order();
        let ghost start = Tick::start(run.start@);
        let ghost k = run.passed@;
        let ghost all = run.materials@;
        let ghost now = chance::words_of(*rng);
        let ghost coins = run.coins;
        proof {
            run.lemma_reached(self@, py, rank);
            assert(before.waits(px, py) ==> has_room(before.phase_at(all, px, py), px, py));
        }
        let (first, second) = self.step_cell(
            x,
            y,
            run.materials,
            &mut run.moved,
            &mut run.coins,
            rng,
        );
        proof {
            let drawn = if before.waits(px, py) {
                tick::flips_for(before.phase_at(all, px, py))
            } else {
                0
            };
            let more = seq![first, second].take(drawn);
            let after = before.turn(all, px, py, first, second);
            run.flips@ = flips + more;
            assert(after == run.now(self@));
            run.lemma_fed(coins, flips, more, now, chance::words_of(*rng));
            start.lemma_more_flips(all, order.take(k), flips, more);
            before.lemma_same_flips(
                all,
                px,
                py,
                (first, second),
                (run.flips@[before.flipped], run.flips@[before.flipped + 1]),
            );
            assert(before.visited(all, px, py, run.flips@) == after);
            assert forall|u: int, v: int| #[trigger] after.waits(u, v) implies before.waits(u, v) by {
                before.lemma_turn(all, px, py, first, second, u, v);
            }
            if k < order.len() && order[k] == (px, py) {
                run.passed@ = k + 1;
                assert(order.take(k + 1).drop_last() =~= order.take(k));
                assert(order.take(k + 1).last() == (px, py));
                assert(start.swept(all, order.take(k + 1), run.flips@) == after);
                assert(tick::has_passed(order, k + 1, run.rightward, py, rank + 1));
            } else {
                assert(!order.contains((px, py)));
                assert(order.to_set().contains((px, py)) <==> order.contains((px, py)));
                assert(!before.waits(px, py));
                assert(after == before);
                run.passed@ = start.lemma_advance(
                    all,
                    order,
                    run.flips@,
                    k,
                    run.rightward,
                    (py, rank),
                    (py, rank + 1),
                );
            }
        }
    }
}

/// Where the cells of a chunk start in the order of a row.
spec fn span_start(rightward: bool, cx: int) -> int {
    if rightward {
        cx * 64
    } else {
        -(cx * 64 + 63)
    }
}

/// A chunk at this coordinate has cells that can be addressed.
spec fn is_chunk_coord(c: int) -> bool {
    -0x200_0000_0000_0000 <= c < 0x200_0000_0000_0000
}

impl PhysicsWorld {
    /// Give the cells of one chunk in the row `y` their turns.
    fn sweep_span(&mut self, run: &mut Run<'_>, cx: i64, y: i64, rng: &mut StdRng)
        requires
            old(self).wf(),
            is_chunk_coord(cx as int),
            old(run).has_reached(
                old(self)@,
                y as int,
                span_start(old(run).rightward, cx as int),
            ),
            old(run).is_fed(chance::words_of(*old(rng))),
        ensures
            final(self).wf(),
            final(self).generation() == old(self).generation(),
            final(run).continues(*old(run)),
            final(run).has_reached(
                final(self)@,
                y as int,
                span_start(old(run).rightward, cx as int) + 64,
            ),
            final(run).is_fed(chance::words_of(*final(rng))),
            forall|u: int, v: int| #[trigger]
                final(run).now(final(self)@).waits(u, v) ==> old(run).now(old(self)@).waits(u, v),
    {
        let mut i: i64 = 0;
        while i < CHUNK_SIZE
            invariant
                self.wf(),
                self.generation() == old(self).generation(),
                is_chunk_coord(cx as int),
                run.continues(*old(run)),
                0 <= i <= 64,
                run.has_reached(self@, y as int, span_start(run.rightward, cx as int) + i),
                run.is_fed(chance::words_of(*rng)),
                forall|u: int, v: int| #[trigger]
                    run.now(self@).waits(u, v) ==> old(run).now(old(self)@).waits(u, v),
            decreases 64 - i,
        {
            let lx: i64 = if run.rightward {
                i
            } else {
                CHUNK_SIZE - 1 - i
            };
            let ghost between = run.now(self@);
            self.visit(run, cx * CHUNK_SIZE + lx, y, rng);
            assert forall|u: int, v: int| #[trigger] run.now(self@).waits(u, v) implies old(run).now(
                old(self)@,
            ).waits(u, v) by {
                assert(between.waits(u, v));
            }
            i = i + 1;
        }
    }

    /// The chunks of a chunk row that hold something, in the order of a tick.
    fn chunks_in_turn(&self, cy: i64, rightward: bool) -> (r: Vec<i64>)
        requires
            self.wf(),
        ensures
            are_in_turn(rightward, r@),
            forall|cx: i64| #[trigger]
                r@.contains(cx) <==> chunk::occupied_chunks(self@.dom()).contains(
                    (cx as int, cy as int),
                ),
    {
        let mut columns = self.chunk_columns(cy);
        if rightward {
            return columns;
        }
        let mut reversed: Vec<i64> = Vec::new();
        let ghost all = columns@;
        while columns.len() > 0
            invariant
                all.len() == columns@.len() + reversed@.len(),
                forall|i: int| 0 <= i < columns@.len() ==> columns@[i] == #[trigger] all[i],
                forall|i: int|
                    0 <= i < reversed@.len() ==> #[trigger] reversed@[i] == all[all.len() - 1 - i],
            decreases columns@.len(),
        {
            match columns.pop() {
                Some(cx) => reversed.push(cx),
                None => {},
            }
        }
        proof {
            assert forall|cx: i64| #[trigger] reversed@.contains(cx) <==> all.contains(cx) by {
                if reversed@.contains(cx) {
                    let i = choose|i: int| 0 <= i < reversed@.len() && reversed@[i] == cx;
                    assert(all[all.len() - 1 - i] == cx);
                }
                if all.contains(cx) {
                    let i = choose|i: int| 0 <= i < all.len() && all[i] == cx;
                    assert(reversed@[all.len() - 1 - i] == cx);
                }
            }
        }
        reversed
    }

    /// Give the cells of the row `y` their turns. What waits there lies in
    /// one of the given chunks.
    fn sweep_row(&mut self, run: &mut Run<'_>, columns: &Vec<i64>, cy: i64, y: i64, rng: &mut StdRng)
        requires
            old(self).wf(),
            chunk::chunk_of(y as int) == cy,
            are_in_turn(old(run).rightward, columns@),
            forall|i: int| 0 <= i < columns@.len() ==> is_chunk_coord(#[trigger] columns@[i] as int),
            old(run).has_reached(old(self)@, y as int, rank_low()),
            old(run).is_fed(chance::words_of(*old(rng))),
            forall|u: int, v: int| #[trigger]
                old(run).now(old(self)@).waits(u, v) && v == y ==> columns@.contains(
                    chunk::chunk_of(u) as i64,
                ),
        ensures
            final(self).wf(),
            final(self).generation() == old(self).generation(),
            final(run).continues(*old(run)),
            final(run).has_reached(final(self)@, y - 1, rank_low()),
            final(run).is_fed(chance::words_of(*final(rng))),
            forall|u: int, v: int| #[trigger]
                final(run).now(final(self)@).waits(u, v) ==> old(run).now(old(self)@).waits(u, v),
    {
        let ghost mut rank: int = rank_low();
        let ghost (py, pcy) = (y as int, cy as int);
        let mut c: usize = 0;
        while c < columns.len()
            invariant
                self.wf(),
                self.generation() == old(self).generation(),
                (py, pcy) == (y as int, cy as int),
                chunk::chunk_of(py) == pcy,
                are_in_turn(run.rightward, columns@),
                forall|i: int|
                    0 <= i < columns@.len() ==> is_chunk_coord(#[trigger] columns@[i] as int),
                run.continues(*old(run)),
                run.has_reached(self@, py, rank),
                run.is_fed(chance::words_of(*rng)),
                c <= columns@.len(),
                forall|i: int|
                    0 <= i < c ==> span_start(run.rightward, #[trigger] columns@[i] as int) + 64
                        <= rank,
                forall|i: int|
                    c <= i < columns@.len() ==> rank <= span_start(
                        run.rightward,
                        #[trigger] columns@[i] as int,
                    ),
                forall|u: int, v: int| #[trigger]
                    run.now(self@).waits(u, v) ==> old(run).now(old(self)@).waits(u, v),
                forall|u: int, v: int| #[trigger]
                    run.now(self@).waits(u, v) && v == y ==> columns@.contains(
                        chunk::chunk_of(u) as i64,
                    ),
            decreases columns@.len() - c,
        {
            let cx: i64 = columns[c];
            let ghost begin = span_start(run.rightward, cx as int);
            let ghost between = run.now(self@);
            proof {
                run.lemma_reached(self@, py, rank);
                assert forall|u: int, v: int| #[trigger]
                    run.now(self@).waits(u, v) && tick::is_past(
                        run.rightward,
                        (u, v),
                        py,
                        begin,
                    ) implies tick::is_past(run.rightward, (u, v), py, rank) by {
                    if v == py {
                        let i = choose|i: int|
                            0 <= i < columns@.len() && columns@[i] == chunk::chunk_of(u) as i64;
                        assert(columns@[i] == chunk::chunk_of(u));
                        if i > c {
                            assert(are_in_turn(run.rightward, columns@));
                        }
                    }
                }
            }
            run.skip(Ghost(self@), Ghost((py, rank)), Ghost((py, begin)));
            if self.cells.chunk(ChunkPos { x: cx, y: cy }).is_some() {
                self.sweep_span(run, cx, y, rng);
            } else {
                // Emptied out during the tick.
                proof {
                    assert forall|u: int, v: int| #[trigger]
                        run.now(self@).waits(u, v) && tick::is_past(
                            run.rightward,
                            (u, v),
                            py,
                            begin + 64,
                        ) implies tick::is_past(run.rightward, (u, v), py, begin) by {
                        if v == py && chunk::chunk_of(u) == cx {
                            assert(self.cells.at(u, v) == 0);
                        }
                    }
                }
                run.skip(Ghost(self@), Ghost((py, begin)), Ghost((py, begin + 64)));
            }
            proof {
                rank = begin + 64;
                assert forall|u: int, v: int| #[trigger] run.now(self@).waits(u, v) implies {
                    &&& old(run).now(old(self)@).waits(u, v)
                    &&& v == y ==> columns@.contains(chunk::chunk_of(u) as i64)
                } by {
                    assert(between.waits(u, v));
                }
            }
            c = c + 1;
        }
        proof {
            run.lemma_reached(self@, py, rank);
            assert forall|u: int, v: int| #[trigger]
                run.now(self@).waits(u, v) && tick::is_past(
                    run.rightward,
                    (u, v),
                    py - 1,
                    rank_low(),
                ) implies tick::is_past(run.rightward, (u, v), py, rank) by {
                if v == py {
                    let i = choose|i: int|
                        0 <= i < columns@.len() && columns@[i] == chunk::chunk_of(u) as i64;
                    assert(columns@[i] == chunk::chunk_of(u));
                }
            }
        }
        run.skip(Ghost(self@), Ghost((py, rank)), Ghost((py - 1, rank_low())));
    }
}

/// The chunks come in the order of a tick.
spec fn are_in_turn(rightward: bool, columns: Seq<i64>) -> bool {
    forall|i: int, j: int|
        0 <= i < j < columns.len() ==> if rightward {
            #[trigger] columns[i] < #[trigger] columns[j]
        } else {
            columns[i] > columns[j]
        }
}

impl PhysicsWorld {
    /// A stored chunk lies where it can be addressed.
    proof fn lemma_chunk_coords(self, cx: int, cy: int)
        requires
            self.wf(),
            chunk::occupied_chunks(self@.dom()).contains((cx, cy)),
        ensures
            is_chunk_coord(cx),
            is_chunk_coord(cy),
    {
        let p = choose|p: (int, int)|
            self@.dom().contains(p) && (cx, cy) == (chunk::chunk_of(p.0), chunk::chunk_of(p.1));
        assert(on_grid(p.0, p.1));
    }

    /// What the place holds lies in a stored chunk.
    proof fn lemma_in_chunk(self, x: int, y: int)
        requires
            self.wf(),
            self@.dom().contains((x, y)),
        ensures
            on_grid(x, y),
            chunk::occupied_chunks(self@.dom()).contains((chunk::chunk_of(x), chunk::chunk_of(y))),
    {
        let f = |p: (int, int)| (chunk::chunk_of(p.0), chunk::chunk_of(p.1));
        assert(self@.dom().contains((x, y)) && f((x, y)) == (chunk::chunk_of(x), chunk::chunk_of(y)));
    }

    /// Give the cells of a chunk row their turns.
    fn sweep_chunk_row(&mut self, run: &mut Run<'_>, cy: i64, rng: &mut StdRng)
        requires
            old(self).wf(),
            is_chunk_coord(cy as int),
            old(run).has_reached(old(self)@, cy * 64 + 63, rank_low()),
            old(run).is_fed(chance::words_of(*old(rng))),
        ensures
            final(self).wf(),
            final(self).generation() == old(self).generation(),
            final(run).continues(*old(run)),
            final(run).has_reached(final(self)@, cy * 64 - 1, rank_low()),
            final(run).is_fed(chance::words_of(*final(rng))),
            forall|u: int, v: int| #[trigger]
                final(run).now(final(self)@).waits(u, v) ==> old(run).now(old(self)@).waits(u, v),
    {
        let columns = self.chunks_in_turn(cy, run.rightward);
        proof {
            assert forall|i: int| 0 <= i < columns@.len() implies is_chunk_coord(
                #[trigger] columns@[i] as int,
            ) by {
                assert(columns@.contains(columns@[i]));
                self.lemma_chunk_coords(columns@[i] as int, cy as int);
            }
            assert forall|u: int, v: int| #[trigger]
                run.now(self@).waits(u, v) && chunk::chunk_of(v) == cy implies columns@.contains(
                chunk::chunk_of(u) as i64,
            ) by {
                self.lemma_in_chunk(u, v);
                assert(chunk::chunk_of(u) as i64 == chunk::chunk_of(u));
            }
        }
        let mut ly: i64 = CHUNK_SIZE;
        while ly > 0
            invariant
                self.wf(),
                self.generation() == old(self).generation(),
                is_chunk_coord(cy as int),
                run.continues(*old(run)),
                0 <= ly <= 64,
                are_in_turn(run.rightward, columns@),
                forall|i: int|
                    0 <= i < columns@.len() ==> is_chunk_coord(#[trigger] columns@[i] as int),
                run.has_reached(self@, cy * 64 + ly - 1, rank_low()),
                run.is_fed(chance::words_of(*rng)),
                forall|u: int, v: int| #[trigger]
                    run.now(self@).waits(u, v) ==> old(run).now(old(self)@).waits(u, v),
                forall|u: int, v: int| #[trigger]
                    run.now(self@).waits(u, v) && chunk::chunk_of(v) == cy ==> columns@.contains(
                        chunk::chunk_of(u) as i64,
                    ),
            decreases ly,
        {
            ly = ly - 1;
            let ghost between = run.now(self@);
            self.sweep_row(run, &columns, cy, cy * CHUNK_SIZE + ly, rng);
            assert forall|u: int, v: int| #[trigger] run.now(self@).waits(u, v) implies {
                &&& old(run).now(old(self)@).waits(u, v)
                &&& chunk::chunk_of(v) == cy ==> columns@.contains(chunk::chunk_of(u) as i64)
            } by {
                assert(between.waits(u, v));
            }
        }
    }

    /// Advance one tick: gravity for powders and liquids, buoyancy for gases,
    /// density displacement between fluids.
    ///
    /// Sequential ordered scan: rows bottom to top so falling resolves in a
    /// single pass, horizontal direction alternating per generation so piles
    /// and spreads don't develop a directional bias. Cells that already moved
    /// this tick are skipped so nothing moves twice.
    pub fn step(&mut self, materials: &[Material], rng: &mut StdRng)
        requires
            old(self).wf(),
            old(self).generation() < u64::MAX,
            can_tick(materials@, old(self)@),
        ensures
            final(self).wf(),
            final(self).generation() == old(self).generation() + 1,
            is_tick(
                old(self)@,
                materials@,
                goes_right(old(self).generation()),
                Seq::empty(),
                chance::words_of(*old(rng)),
                final(self)@,
                chance::words_of(*final(rng)),
            ),
    {
        let none: Vec<bool> = Vec::new();
        self.step_with(materials, none.as_slice(), rng);
    }

    /// Advance one tick with the given coins, in the order in which they are
    /// flipped. Where they run out, random ones follow.
    pub fn step_with(&mut self, materials: &[Material], coins: &[bool], rng: &mut StdRng)
        requires
            old(self).wf(),
            old(self).generation() < u64::MAX,
            can_tick(materials@, old(self)@),
        ensures
            final(self).wf(),
            final(self).generation() == old(self).generation() + 1,
            is_tick(
                old(self)@,
                materials@,
                goes_right(old(self).generation()),
                coins@,
                chance::words_of(*old(rng)),
                final(self)@,
                chance::words_of(*final(rng)),
            ),
            ({
                let tick = tick::ticked(
                    old(self)@,
                    materials@,
                    goes_right(old(self).generation()),
                    coins@,
                );
                tick.flipped <= coins@.len() ==> final(self)@ == tick.cells
            }),
    {
        let rightward = self.generation.is_multiple_of(2);
        let rows = self.chunk_rows();
        let mut run = Run {
            materials,
            rightward,
            moved: CellSet::new(),
            coins: Coins { given: coins, next: 0 },
            flips: Ghost(Seq::empty()),
            words: Ghost(chance::words_of(*rng)),
            start: Ghost(self@),
            passed: Ghost(0),
        };
        let ghost mut bottom: int = i64::MAX as int;
        proof {
            self.lemma_cells();
            tick::lemma_turn_order(self@.dom(), rightward);
            let order = run.order();
            assert forall|i: int| 0 <= i < order.len() implies on_grid(
                (#[trigger] order[i]).0,
                order[i].1,
            ) by {
                assert(order.contains(order[i]));
                assert(order.to_set().contains(order[i]));
                assert(self@.dom().contains((order[i].0, order[i].1)));
            }
            assert(order.take(0).len() == 0);
            assert forall|i: int| 0 <= i < rows@.len() implies is_chunk_coord(
                #[trigger] rows@[i] as int,
            ) by {
                assert(rows@.contains(rows@[i]));
                let cx = choose|cx: int| #[trigger]
                    chunk::occupied_chunks(self@.dom()).contains((cx, rows@[i] as int));
                self.lemma_chunk_coords(cx, rows@[i] as int);
            }
            assert forall|u: int, v: int| #[trigger] run.now(self@).waits(u, v) implies rows@.contains(
                chunk::chunk_of(v) as i64,
            ) by {
                self.lemma_in_chunk(u, v);
                assert(chunk::occupied_chunks(self@.dom()).contains(
                    (chunk::chunk_of(u), (chunk::chunk_of(v) as i64) as int),
                ));
            }
            assert(run.has_reached(self@, bottom, rank_low()));
            assert(run.flips@ =~= coins_of(coins@, run.words@, 0));
        }
        let mut r: usize = rows.len();
        while r > 0
            invariant
                self.wf(),
                self.generation() == old(self).generation(),
                run.materials@ == materials@,
                run.rightward == rightward,
                rightward == goes_right(old(self).generation()),
                run.coins.given@ == coins@,
                run.start@ == old(self)@,
                run.words@ == chance::words_of(*old(rng)),
                0 <= r <= rows@.len(),
                is_ascending(rows@),
                forall|i: int| 0 <= i < rows@.len() ==> is_chunk_coord(#[trigger] rows@[i] as int),
                forall|i: int| 0 <= i < r ==> #[trigger] rows@[i] * 64 + 63 <= bottom,
                forall|i: int| r <= i < rows@.len() ==> bottom < #[trigger] rows@[i] * 64,
                run.has_reached(self@, bottom, rank_low()),
                run.is_fed(chance::words_of(*rng)),
                forall|u: int, v: int| #[trigger]
                    run.now(self@).waits(u, v) ==> rows@.contains(chunk::chunk_of(v) as i64),
            decreases r,
        {
            r = r - 1;
            let cy: i64 = rows[r];
            let ghost between = run.now(self@);
            proof {
                run.lemma_reached(self@, bottom, rank_low());
                assert forall|u: int, v: int| #[trigger]
                    run.now(self@).waits(u, v) && tick::is_past(
                        run.rightward,
                        (u, v),
                        cy * 64 + 63,
                        rank_low(),
                    ) implies tick::is_past(run.rightward, (u, v), bottom, rank_low()) by {
                    let i = choose|i: int|
                        0 <= i < rows@.len() && rows@[i] == chunk::chunk_of(v) as i64;
                    assert(rows@[i] == chunk::chunk_of(v));
                    if i < r {
                        assert(rows@[i] < rows@[r as int]);
                    }
                }
            }
            run.skip(Ghost(self@), Ghost((bottom, rank_low())), Ghost((cy * 64 + 63, rank_low())));
            self.sweep_chunk_row(&mut run, cy, rng);
            proof {
                bottom = cy * 64 - 1;
                assert forall|u: int, v: int| #[trigger]
                    run.now(self@).waits(u, v) implies rows@.contains(chunk::chunk_of(v) as i64) by {
                    assert(between.waits(u, v));
                }
            }
        }
        proof {
            let top = i64::MIN - 1;
            run.lemma_reached(self@, bottom, rank_low());
            assert forall|u: int, v: int| #[trigger]
                run.now(self@).waits(u, v) && tick::is_past(
                    run.rightward,
                    (u, v),
                    top,
                    rank_low(),
                ) implies tick::is_past(run.rightward, (u, v), bottom, rank_low()) by {
                let i = choose|i: int| 0 <= i < rows@.len() && rows@[i] == chunk::chunk_of(v) as i64;
                assert(rows@[i] == chunk::chunk_of(v));
            }
            let n = Tick::start(run.start@).lemma_advance(
                materials@,
                run.order(),
                run.flips@,
                run.passed@,
                rightward,
                (bottom, rank_low()),
                (top, rank_low()),
            );
            let order = run.order();
            if n < order.len() {
                assert(order.contains(order[n]));
                assert(order.to_set().contains(order[n]));
                assert(run.start@.dom().contains((order[n].0, order[n].1)));
                assert(tick::is_past(rightward, order[n], top, rank_low()));
            }
            assert(order.take(n) =~= order);
            assert(tick::ticked(old(self)@, materials@, rightward, run.flips@) == run.now(self@));
            let start = Tick::start(run.start@);
            let flips = run.flips@;
            let words = chance::words_of(*old(rng));
            assert(flips == coins_of(coins@, words, flips.len() as int));
            assert(is_tick(
                old(self)@,
                materials@,
                rightward,
                coins@,
                words,
                self@,
                chance::words_of(*rng),
            ));
            if flips.len() <= coins@.len() {
                let rest = coins@.skip(flips.len() as int);
                assert(coins@ =~= flips + rest);
                start.lemma_more_flips(materials@, order, flips, rest);
            } else if start.swept(materials@, order, coins@).flipped <= coins@.len() {
                let rest = flips.skip(coins@.len() as int);
                assert(flips =~= coins@ + rest);
                start.lemma_more_flips(materials@, order, coins@, rest);
            }
        }
        self.generation = self.generation + 1;
    }
}

/// Emptying a cell allocates no chunk.
pub proof fn law_emptying_allocates_nothing(cells: Map<(int, int), u8>, x: int, y: int)
    ensures
        chunk::occupied_chunks(tick::placed(cells, x, y, EMPTY).dom()).subset_of(
            chunk::occupied_chunks(cells.dom()),
        ),
{
}

/// Emptying the last cell of a chunk frees the chunk.
pub proof fn law_last_cell_frees_the_chunk(cells: Map<(int, int), u8>, x: int, y: int)
    requires
        forall|u: int, v: int| #[trigger]
            cells.dom().contains((u, v)) && chunk::chunk_of(u) == chunk::chunk_of(x)
                && chunk::chunk_of(v) == chunk::chunk_of(y) ==> (u, v) == (x, y),
    ensures
        !chunk::occupied_chunks(tick::placed(cells, x, y, EMPTY).dom()).contains(
            (chunk::chunk_of(x), chunk::chunk_of(y)),
        ),
{
    let left = tick::placed(cells, x, y, EMPTY).dom();
    if chunk::occupied_chunks(left).contains((chunk::chunk_of(x), chunk::chunk_of(y))) {
        let p = choose|p: (int, int)|
            left.contains(p) && (chunk::chunk_of(x), chunk::chunk_of(y)) == (
                chunk::chunk_of(p.0),
                chunk::chunk_of(p.1),
            );
        assert(cells.dom().contains((p.0, p.1)));
    }
}

/// There is a place to go to in each of the headings.
fn room_for(phase: Phase, x: i64, y: i64) -> (r: bool)
    ensures
        r == has_room(phase, x as int, y as int),
{
    match phase {
        Phase::Powder | Phase::Liquid => i64::MIN < x && x < i64::MAX && y < i64::MAX,
        Phase::Gas => i64::MIN < x && x < i64::MAX && i64::MIN < y,
        Phase::Empty | Phase::Solid => true,
    }
}

/// The lowest chunk coordinate that has cells.
const LOWEST_CHUNK: i64 = -0x200_0000_0000_0000;

/// The highest chunk coordinate that has cells.
const HIGHEST_CHUNK: i64 = 0x1ff_ffff_ffff_ffff;

impl PhysicsWorld {
    /// Each cell of the chunk has room to move.
    spec fn is_roomy(self, materials: Seq<Material>, cx: int, cy: int) -> bool {
        forall|x: int, y: int| #[trigger]
            self@.dom().contains((x, y)) && chunk::chunk_of(x) == cx && chunk::chunk_of(y) == cy
                ==> has_room(materials[self@[(x, y)] as int].phase, x, y)
    }

    /// Whether each cell of the chunk has room to move. Only cells at the ends
    /// of the grid can be short of it.
    fn chunk_is_roomy(&self, materials: &[Material], pos: ChunkPos) -> (r: bool)
        requires
            self.wf(),
            tick::covers(materials@, self@),
            is_chunk_coord(pos.x as int),
            is_chunk_coord(pos.y as int),
        ensures
            r == self.is_roomy(materials@, pos.x as int, pos.y as int),
    {
        if LOWEST_CHUNK < pos.x && pos.x < HIGHEST_CHUNK && LOWEST_CHUNK < pos.y && pos.y
            < HIGHEST_CHUNK {
            return true;
        }
        let (left, top) = (pos.x * CHUNK_SIZE, pos.y * CHUNK_SIZE);
        let cells = self.cells_in(left, top, left + 63, top + 63);
        let mut i: usize = 0;
        while i < cells.len()
            invariant
                self.wf(),
                tick::covers(materials@, self@),
                left == pos.x * 64,
                top == pos.y * 64,
                chunk::lists_rect(cells@, self@, left as int, top as int, left + 63, top + 63),
                i <= cells@.len(),
                forall|j: int|
                    0 <= j < i ==> has_room(
                        materials@[(#[trigger] cells@[j]).2 as int].phase,
                        cells@[j].0 as int,
                        cells@[j].1 as int,
                    ),
            decreases cells@.len() - i,
        {
            let (x, y, id) = cells[i];
            assert(self@.dom().contains((x as int, y as int)));
            if !room_for(materials[id as usize].phase, x, y) {
                return false;
            }
            i = i + 1;
        }
        assert forall|x: int, y: int| #[trigger]
            self@.dom().contains((x, y)) && chunk::chunk_of(x) == pos.x && chunk::chunk_of(y)
                == pos.y implies has_room(materials@[self@[(x, y)] as int].phase, x, y) by {
            let j = choose|j: int|
                0 <= j < cells@.len() && (#[trigger] cells@[j]).0 == x && cells@[j].1 == y;
            assert(has_room(materials@[cells@[j].2 as int].phase, x, y));
        }
        true
    }

    /// Whether each cell that can move has room to: whether the world can be
    /// stepped.
    pub fn is_tickable(&self, materials: &[Material]) -> (r: bool)
        requires
            self.wf(),
            tick::covers(materials@, self@),
        ensures
            r == can_tick(materials@, self@),
    {
        let positions = self.cells.positions();
        let mut i: usize = 0;
        while i < positions.len()
            invariant
                self.wf(),
                tick::covers(materials@, self@),
                forall|j: int|
                    0 <= j < positions@.len() ==> chunk::occupied_chunks(self@.dom()).contains(
                        ((#[trigger] positions@[j]).x as int, positions@[j].y as int),
                    ),
                i <= positions@.len(),
                forall|j: int|
                    0 <= j < i ==> self.is_roomy(
                        materials@,
                        (#[trigger] positions@[j]).x as int,
                        positions@[j].y as int,
                    ),
            decreases positions@.len() - i,
        {
            proof {
                self.lemma_chunk_coords(positions@[i as int].x as int, positions@[i as int].y as int);
            }
            if !self.chunk_is_roomy(materials, positions[i]) {
                return false;
            }
            i = i + 1;
        }
        assert forall|x: int, y: int| #[trigger] self@.dom().contains((x, y)) implies has_room(
            materials@[self@[(x, y)] as int].phase,
            x,
            y,
        ) by {
            self.lemma_in_chunk(x, y);
            let j = choose|j: int|
                0 <= j < positions@.len() && (#[trigger] positions@[j]).x == chunk::chunk_of(x)
                    && positions@[j].y == chunk::chunk_of(y);
            assert(self.is_roomy(materials@, positions@[j].x as int, positions@[j].y as int));
        }
        true
    }
}

/// The horizontal direction alternates from one generation to the next, and
/// the first goes from left to right.
pub proof fn law_direction_alternates(generation: u64)
    ensures
        goes_right(0),
        generation < u64::MAX ==> goes_right((generation + 1) as u64) != goes_right(generation),
{
}

/// A world can be stepped if every material is known and every place that a
/// cell may go to can be addressed: for a powder or a liquid its neighbors to
/// the sides and below, and for a gas those to the sides and above.
pub proof fn law_worlds_with_room_can_tick(materials: Seq<Material>, cells: Map<(int, int), u8>)
    requires
        forall|x: int, y: int| #[trigger] cells.dom().contains((x, y)) ==> i64::MIN <= x <= i64::MAX
            && i64::MIN <= y <= i64::MAX,
    ensures
        can_tick(materials, cells) <==> forall|x: int, y: int| #[trigger]
            cells.dom().contains((x, y)) ==> {
                let phase = materials[cells[(x, y)] as int].phase;
                &&& 0 < cells[(x, y)] < materials.len()
                &&& phase is Powder || phase is Liquid ==> i64::MIN <= x - 1 && x + 1 <= i64::MAX && y
                    + 1 <= i64::MAX
                &&& phase is Gas ==> i64::MIN <= x - 1 && x + 1 <= i64::MAX && i64::MIN <= y - 1
            },
{
}

/// A tick takes the given coins first and then draws even ones, each from the
/// next word of the generator, as many as it flips and no more. The words that
/// follow those are left.
pub proof fn law_tick_draws_even_coins(
    cells: Map<(int, int), u8>,
    materials: Seq<Material>,
    rightward: bool,
    given: Seq<bool>,
    words: Map<int, u64>,
    after: Map<(int, int), u8>,
    rest: Map<int, u64>,
) -> (flips: Seq<bool>)
    requires
        is_tick(cells, materials, rightward, given, words, after, rest),
    ensures
        forall|i: int|
            0 <= i < flips.len() ==> #[trigger] flips[i] == (if i < given.len() {
                given[i]
            } else {
                chance::is_hit(words[i - given.len()], 1, 2)
            }),
        tick::ticked(cells, materials, rightward, flips).cells == after,
        tick::ticked(cells, materials, rightward, flips).flipped == flips.len(),
        forall|i: int|
            0 <= i ==> #[trigger] rest[i] == (if flips.len() <= given.len() {
                words[i]
            } else {
                words[i + (flips.len() - given.len())]
            }),
{
    let n = choose|n: int|
        {
            let tick = tick::ticked(cells, materials, rightward, #[trigger] coins_of(given, words, n));
            &&& 0 <= n
            &&& tick.flipped == n
            &&& tick.cells == after
            &&& chance::is_rest(rest, words, coins_drawn(given.len(), n))
        };
    coins_of(given, words, n)
}

/// Whatever the generator gives out, each material is there as often after a
/// tick as before, solids are where they were, and every cell has stayed or gone
/// to a place next to its own.
pub proof fn law_ticks_keep_what_there_is(
    cells: Map<(int, int), u8>,
    materials: Seq<Material>,
    rightward: bool,
    given: Seq<bool>,
    words: Map<int, u64>,
    after: Map<(int, int), u8>,
    rest: Map<int, u64>,
    id: u8,
    x: int,
    y: int,
)
    requires
        is_tick(cells, materials, rightward, given, words, after, rest),
        cells.dom().finite(),
        tick::covers(materials, cells),
        0 < id < materials.len(),
    ensures
        Set::new(|p: (int, int)| after.dom().contains(p) && after[p] == id).len() == Set::new(
            |p: (int, int)| cells.dom().contains(p) && cells[p] == id,
        ).len(),
        after.dom().len() == cells.dom().len(),
        materials[id as int].phase is Solid ==> (after.dom().contains((x, y)) && after[(x, y)] == id
            <==> cells.dom().contains((x, y)) && cells[(x, y)] == id),
        after.dom().contains((x, y)) ==> exists|u: int, v: int|
            -1 <= u - x <= 1 && -1 <= v - y <= 1 && #[trigger] cells.dom().contains((u, v))
                && cells[(u, v)] == after[(x, y)],
{
    let flips = law_tick_draws_even_coins(cells, materials, rightward, given, words, after, rest);
    tick::law_tick_conserves(cells, materials, rightward, flips, id);
    tick::law_nothing_moves_twice(cells, materials, rightward, flips);
    assert(Set::new(|p: (int, int)| after.dom().contains(p) && after[p] == id) =~= tick::places_of(
        after,
        id,
    ));
    assert(Set::new(|p: (int, int)| cells.dom().contains(p) && cells[p] == id) =~= tick::places_of(
        cells,
        id,
    ));
    if materials[id as int].phase is Solid {
        tick::law_immobile_stay(cells, materials, rightward, flips, id, x, y);
    }
    if after.dom().contains((x, y)) {
        let origin = choose|origin: Map<(int, int), (int, int)>|
            tick::is_origin(origin, cells, after);
        let (u, v) = origin[(x, y)];
        assert(origin.dom().contains((x, y)));
        assert(origin.values().contains((u, v)));
        assert(cells.dom().contains((u, v)));
    }
}

} // verus!
