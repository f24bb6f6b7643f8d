//! An unbounded two-state cellular automaton.
use vstd::prelude::*;

use rand::rngs::StdRng;

use crate::chance::Chance;
use crate::chunk::{Chunk, ChunkPos, SparseGrid, CHUNK_SIZE};
use crate::rule::BsRule;
#[allow(unused_imports)]
use crate::{chance, scatter};

verus! {

/// 1 for a live cell, 0 for a dead one.
pub open spec fn alive_at(live: Set<(int, int)>, x: int, y: int) -> int {
    if live.contains((x, y)) {
        1
    } else {
        0
    }
}

/// How many of the eight cells around `(x, y)` are alive.
pub open spec fn live_around(live: Set<(int, int)>, x: int, y: int) -> int {
    alive_at(live, x - 1, y - 1) + alive_at(live, x, y - 1) + alive_at(live, x + 1, y - 1)
        + alive_at(live, x - 1, y) + alive_at(live, x + 1, y) + alive_at(live, x - 1, y + 1)
        + alive_at(live, x, y + 1) + alive_at(live, x + 1, y + 1)
}

/// Whether the rule makes `(x, y)` a live cell of the next generation.
pub open spec fn lives_next(
    live: Set<(int, int)>,
    rule: crate::rule::RuleView,
    x: int,
    y: int,
) -> bool {
    rule.next(live.contains((x, y)), live_around(live, x, y))
}

/// The next generation: the rule is applied to every cell of the chunks that
/// have a live cell and of their eight neighbors; elsewhere nothing lives.
pub open spec fn next_generation(live: Set<(int, int)>, rule: crate::rule::RuleView) -> Set<
    (int, int),
> {
    Set::new(
        |p: (int, int)|
            crate::chunk::near_occupied(
                live,
                crate::chunk::chunk_of(p.0),
                crate::chunk::chunk_of(p.1),
            ) && lives_next(live, rule, p.0, p.1),
    )
}

/// The rule applied to every cell of the plane.
pub open spec fn plane_generation(live: Set<(int, int)>, rule: crate::rule::RuleView) -> Set<
    (int, int),
> {
    Set::new(|p: (int, int)| lives_next(live, rule, p.0, p.1))
}

/// The live cells lie where the chunks two further out still have
/// coordinates.
pub open spec fn steppable(live: Set<(int, int)>) -> bool {
    crate::chunk::lie_within(crate::chunk::occupied_chunks(live), i64::MIN + 2, i64::MAX - 2)
}

/// Effectively infinite, sparse world. Empty space is not stored: chunks are
/// allocated when cells are born and dropped when they empty out.
///
/// Stepping is double-buffered: each generation is computed from an immutable
/// read of the previous one. Neighbor counts at chunk edges read halo (ghost)
/// cells from the eight adjacent chunks.
pub struct World {
    /// 1 for each live cell.
    pub cells: SparseGrid,
    pub generation: u64,
}

impl View for World {
    type V = Set<(int, int)>;

    /// The live cells.
    open spec fn view(&self) -> Set<(int, int)> {
        self.cells@.dom()
    }
}

impl Clone for World {
    fn clone(&self) -> (r: Self)
        ensures
            r@ == self@,
            r.generation() == self.generation(),
            r.wf() == self.wf(),
    {
        let r = World { cells: self.cells.clone(), generation: self.generation };
        assert(self.wf() ==> r.wf());
        assert forall|x: int, y: int| r.wf() implies #[trigger] self.cells.at(x, y) <= 1 by {
            assert(r.cells.at(x, y) <= 1);
        }
        r
    }
}

impl World {
    pub open spec fn wf(self) -> bool {
        &&& self.cells.wf()
        &&& forall|x: int, y: int| #[trigger] self.cells.at(x, y) <= 1
    }

    pub open spec fn spec_generation(&self) -> u64 {
        self.generation
    }

    /// How many steps the world has taken.
    #[verifier::when_used_as_spec(spec_generation)]
    pub fn generation(&self) -> (r: u64)
        ensures
            r == self.generation(),
    {
        self.generation
    }

    /// A world has finitely many live cells.
    pub proof fn lemma_finite(self)
        requires
            self.wf(),
        ensures
            self@.finite(),
    {
        self.cells.lemma_finite();
    }

    pub fn new() -> (r: Self)
        ensures
            r.wf(),
            r@ == Set::<(int, int)>::empty(),
            r.generation() == 0,
    {
        let r = World { cells: SparseGrid::new(), generation: 0 };
        proof {
            assert forall|x: int, y: int| #[trigger] r.cells.at(x, y) <= 1 by {
                assert(!r.cells@.dom().contains((x, y)));
            }
        }
        r
    }

    pub fn get(&self, x: i64, y: i64) -> (r: bool)
        requires
            self.wf(),
        ensures
            r == self@.contains((x as int, y as int)),
    {
        self.cells.get(x, y) != 0
    }

    pub fn set(&mut self, x: i64, y: i64, value: bool)
        requires
            old(self).wf(),
        ensures
            final(self).wf(),
            final(self)@ == written(old(self)@, x as int, y as int, value),
            final(self).generation() == old(self).generation(),
    {
        self.cells.set(
            x,
            y,
            if value {
                1
            } else {
                0
            },
        );
        assert(self@ =~= written(old(self)@, x as int, y as int, value));
    }

    pub fn clear(&mut self)
        ensures
            final(self).wf(),
            final(self)@ == Set::<(int, int)>::empty(),
            final(self).generation() == 0,
    {
        self.cells.clear();
        self.generation = 0;
        proof {
            assert forall|x: int, y: int| #[trigger] self.cells.at(x, y) <= 1 by {
                assert(!self.cells@.dom().contains((x, y)));
            }
        }
    }

    /// How many cells are alive.
    pub fn population(&self) -> (r: u64)
        requires
            self.wf(),
            self@.len() <= u64::MAX,
        ensures
            r == self@.len(),
    {
        self.cells.population()
    }

    /// How many cells are alive, if they can be counted.
    pub fn count(&self) -> (r: Option<u64>)
        requires
            self.wf(),
        ensures
            match r {
                Some(total) => total == self@.len(),
                None => self@.len() > u64::MAX,
            },
    {
        self.cells.count()
    }

    /// How many chunks are stored: those with a live cell.
    pub fn chunk_count(&self) -> (r: usize)
        requires
            self.wf(),
        ensures
            r == crate::chunk::occupied_chunks(self@).len(),
    {
        self.cells.chunk_count()
    }
}

impl World {
    /// Whether the next step stays where chunks have coordinates.
    pub fn is_steppable(&self) -> (r: bool)
        requires
            self.wf(),
        ensures
            r == steppable(self@),
    {
        self.cells.is_within(i64::MIN + 2, i64::MAX - 2)
    }
}

/// The chunks of a 3x3 neighborhood, row by row; they supply the halo cells
/// at the edges of the one in the middle.
struct Halo<'a> {
    slots: Vec<Option<&'a Chunk>>,
}

fn one_if(b: bool) -> (r: u8)
    ensures
        r == (if b {
            1int
        } else {
            0
        }),
{
    if b {
        1
    } else {
        0
    }
}

impl World {
    /// `slot` is what the world stores at the chunk `(cx, cy)`.
    spec fn shows(self, slot: Option<&Chunk>, cx: int, cy: int) -> bool {
        match slot {
            Some(chunk) => chunk.wf() && forall|lx: int, ly: int|
                0 <= lx < 64 && 0 <= ly < 64 ==> #[trigger] chunk.cell(lx, ly) == self.cells.at(
                    cx * 64 + lx,
                    cy * 64 + ly,
                ),
            None => forall|x: int, y: int|
                crate::chunk::chunk_of(x) == cx && crate::chunk::chunk_of(y) == cy
                    ==> #[trigger] self.cells.at(x, y) == 0,
        }
    }

    /// `halo` is the neighborhood of the chunk at `pos`.
    spec fn surrounds(self, halo: Halo<'_>, pos: ChunkPos) -> bool {
        &&& halo.slots@.len() == 9
        &&& forall|i: int|
            0 <= i < 9 ==> self.shows(
                #[trigger] halo.slots@[i],
                pos.x + i % 3 - 1,
                pos.y + i / 3 - 1,
            )
    }

    fn halo(&self, pos: ChunkPos) -> (r: Halo<'_>)
        requires
            self.wf(),
            i64::MIN < pos.x < i64::MAX,
            i64::MIN < pos.y < i64::MAX,
        ensures
            self.surrounds(r, pos),
    {
        let mut slots: Vec<Option<&Chunk>> = Vec::new();
        let mut i: i64 = 0;
        while i < 9
            invariant
                self.wf(),
                i64::MIN < pos.x < i64::MAX,
                i64::MIN < pos.y < i64::MAX,
                0 <= i <= 9,
                slots@.len() == i,
                forall|j: int|
                    0 <= j < i ==> self.shows(
                        #[trigger] slots@[j],
                        pos.x + j % 3 - 1,
                        pos.y + j / 3 - 1,
                    ),
            decreases 9 - i,
        {
            let (dx, dy) = (i % 3 - 1, i / 3 - 1);
            slots.push(self.cells.chunk(ChunkPos { x: pos.x + dx, y: pos.y + dy }));
            i = i + 1;
        }
        Halo { slots }
    }

    /// Local read covering `-1..=CHUNK_SIZE` on both axes.
    fn read(&self, halo: &Halo<'_>, pos: ChunkPos, lx: i64, ly: i64) -> (r: bool)
        requires
            self.wf(),
            self.surrounds(*halo, pos),
            -1 <= lx <= CHUNK_SIZE,
            -1 <= ly <= CHUNK_SIZE,
        ensures
            r == self@.contains((pos.x * 64 + lx, pos.y * 64 + ly)),
    {
        let (dx, ux): (i64, i64) = if lx < 0 {
            (-1, lx + CHUNK_SIZE)
        } else if lx >= CHUNK_SIZE {
            (1, lx - CHUNK_SIZE)
        } else {
            (0, lx)
        };
        let (dy, uy): (i64, i64) = if ly < 0 {
            (-1, ly + CHUNK_SIZE)
        } else if ly >= CHUNK_SIZE {
            (1, ly - CHUNK_SIZE)
        } else {
            (0, ly)
        };
        let i: usize = ((dy + 1) * 3 + dx + 1) as usize;
        let slot = halo.slots[i];
        proof {
            assert(self.shows(halo.slots@[i as int], pos.x + dx, pos.y + dy));
            let (x, y) = (pos.x * 64 + lx, pos.y * 64 + ly);
            assert(x == (pos.x + dx) * 64 + ux && y == (pos.y + dy) * 64 + uy);
            assert(self@.contains((x, y)) <==> self.cells.at(x, y) != 0);
        }
        match slot {
            Some(chunk) => chunk.get(ux, uy) != 0,
            None => false,
        }
    }

    fn count_around(&self, halo: &Halo<'_>, pos: ChunkPos, lx: i64, ly: i64) -> (r: u8)
        requires
            self.wf(),
            self.surrounds(*halo, pos),
            0 <= lx < CHUNK_SIZE,
            0 <= ly < CHUNK_SIZE,
        ensures
            r == live_around(self@, pos.x * 64 + lx, pos.y * 64 + ly),
            r <= 8,
    {
        one_if(self.read(halo, pos, lx - 1, ly - 1)) + one_if(self.read(halo, pos, lx, ly - 1))
            + one_if(self.read(halo, pos, lx + 1, ly - 1)) + one_if(
            self.read(halo, pos, lx - 1, ly),
        ) + one_if(self.read(halo, pos, lx + 1, ly)) + one_if(self.read(halo, pos, lx - 1, ly + 1))
            + one_if(self.read(halo, pos, lx, ly + 1)) + one_if(self.read(halo, pos, lx + 1, ly + 1))
    }

    /// What the chunk at `pos` holds in the next generation.
    fn next_chunk(&self, pos: ChunkPos, rule: BsRule) -> (r: Chunk)
        requires
            self.wf(),
            i64::MIN < pos.x < i64::MAX,
            i64::MIN < pos.y < i64::MAX,
        ensures
            r.wf(),
            forall|lx: int, ly: int|
                0 <= lx < 64 && 0 <= ly < 64 ==> #[trigger] r.cell(lx, ly) == (if lives_next(
                    self@,
                    rule@,
                    pos.x * 64 + lx,
                    pos.y * 64 + ly,
                ) {
                    1int
                } else {
                    0
                }),
    {
        let halo = self.halo(pos);
        let mut chunk = Chunk::new();
        let mut ly: i64 = 0;
        while ly < CHUNK_SIZE
            invariant
                self.wf(),
                self.surrounds(halo, pos),
                0 <= ly <= 64,
                chunk.wf(),
                forall|a: int, b: int|
                    0 <= a < 64 && 0 <= b < 64 ==> #[trigger] chunk.cell(a, b) == (if b < ly
                        && lives_next(self@, rule@, pos.x * 64 + a, pos.y * 64 + b) {
                        1int
                    } else {
                        0
                    }),
            decreases 64 - ly,
        {
            let mut lx: i64 = 0;
            while lx < CHUNK_SIZE
                invariant
                    self.wf(),
                    self.surrounds(halo, pos),
                    0 <= ly < 64,
                    0 <= lx <= 64,
                    chunk.wf(),
                    forall|a: int, b: int|
                        0 <= a < 64 && 0 <= b < 64 ==> #[trigger] chunk.cell(a, b) == (if (b < ly
                            || (b == ly && a < lx)) && lives_next(
                            self@,
                            rule@,
                            pos.x * 64 + a,
                            pos.y * 64 + b,
                        ) {
                            1int
                        } else {
                            0
                        }),
                decreases 64 - lx,
            {
                let count = self.count_around(&halo, pos, lx, ly);
                if rule.next_state(self.read(&halo, pos, lx, ly), count) {
                    chunk.set(lx, ly, 1);
                }
                lx = lx + 1;
            }
            ly = ly + 1;
        }
        chunk
    }

    /// Advance one generation under the given rule.
    pub fn step(&mut self, rule: BsRule)
        requires
            old(self).wf(),
            steppable(old(self)@),
            old(self).generation() < u64::MAX,
        ensures
            final(self).wf(),
            final(self)@ == next_generation(old(self)@, rule@),
            final(self).generation() == old(self).generation() + 1,
    {
        *self = self.stepped(rule);
    }

    /// The world one generation on.
    pub fn stepped(&self, rule: BsRule) -> (r: World)
        requires
            self.wf(),
            steppable(self@),
            self.generation() < u64::MAX,
        ensures
            r.wf(),
            r@ == next_generation(self@, rule@),
            r.generation() == self.generation() + 1,
    {
        // Any birth must be adjacent to a live cell, so only chunks with live
        // cells and their eight neighbors can change.
        let candidates = self.cells.around();
        let ghost live = self@;
        let mut next = SparseGrid::new();
        proof {
            assert forall|x: int, y: int| #[trigger] next.at(x, y) == 0 by {
                assert(!next@.dom().contains((x, y)));
            }
        }
        let mut n: usize = 0;
        while n < candidates.len()
            invariant
                self.wf(),
                steppable(live),
                live == self@,
                live == self.cells@.dom(),
                next.wf(),
                n <= candidates@.len(),
                forall|i: int|
                    0 <= i < candidates@.len() ==> crate::chunk::near_occupied(
                        live,
                        (#[trigger] candidates@[i]).x as int,
                        candidates@[i].y as int,
                    ),
                forall|i: int, j: int|
                    0 <= i < j < candidates@.len() ==> #[trigger] candidates@[i]
                        != #[trigger] candidates@[j],
                forall|x: int, y: int| #[trigger]
                    next.at(x, y) == (if listed(candidates@, n as int, x, y) && lives_next(
                        live,
                        rule@,
                        x,
                        y,
                    ) {
                        1int
                    } else {
                        0
                    }),
            decreases candidates@.len() - n,
        {
            let pos = candidates[n];
            let ghost c = choose|c: (int, int)| #[trigger]
                crate::chunk::occupied_chunks(live).contains(c) && -1 <= c.0 - pos.x <= 1 && -1
                    <= c.1 - pos.y <= 1;
            assert(crate::chunk::occupied_chunks(live).contains(c));
            let chunk = self.next_chunk(pos, rule);
            let ghost before = next;
            proof {
                chunk.lemma_blank();
                lemma_listed_next(candidates@, n as int);
            }
            if !chunk.blank() {
                next.put_chunk(pos, chunk);
            }
            proof {
                assert forall|x: int, y: int| #[trigger]
                    next.at(x, y) == (if listed(candidates@, n + 1, x, y) && lives_next(
                        live,
                        rule@,
                        x,
                        y,
                    ) {
                        1int
                    } else {
                        0
                    }) by {
                    let (lx, ly) = (crate::chunk::local_of(x), crate::chunk::local_of(y));
                    let now = chunk.cell(lx, ly);
                    let old_value = before.at(x, y);
                }
            }
            n = n + 1;
        }
        let r = World { cells: next, generation: self.generation + 1 };
        proof {
            assert forall|p: (int, int)| r@.contains(p) <==> next_generation(
                live,
                rule@,
            ).contains(p) by {
                let (cx, cy) = (crate::chunk::chunk_of(p.0), crate::chunk::chunk_of(p.1));
                assert(r@.contains(p) <==> r.cells.at(p.0, p.1) != 0);
                if crate::chunk::near_occupied(live, cx, cy) {
                    let i = choose|i: int|
                        0 <= i < candidates@.len() && (#[trigger] candidates@[i]).x == cx
                            && candidates@[i].y == cy;
                    assert(listed(candidates@, candidates@.len() as int, p.0, p.1));
                }
            }
            assert(r@ =~= next_generation(live, rule@));
        }
        r
    }
}

/// `(x, y)` lies in one of the first `n` chunks of the list.
spec fn listed(chunks: Seq<ChunkPos>, n: int, x: int, y: int) -> bool {
    exists|i: int|
        0 <= i < n && (#[trigger] chunks[i]).x == crate::chunk::chunk_of(x) && chunks[i].y
            == crate::chunk::chunk_of(y)
}

proof fn lemma_listed_next(chunks: Seq<ChunkPos>, n: int)
    requires
        0 <= n < chunks.len(),
        forall|i: int, j: int|
            0 <= i < j < chunks.len() ==> #[trigger] chunks[i] != #[trigger] chunks[j],
    ensures
        forall|x: int, y: int| #[trigger]
            listed(chunks, n + 1, x, y) <==> listed(chunks, n, x, y) || (chunks[n].x
                == crate::chunk::chunk_of(x) && chunks[n].y == crate::chunk::chunk_of(y)),
        forall|x: int, y: int|
            chunks[n].x == crate::chunk::chunk_of(x) && chunks[n].y == crate::chunk::chunk_of(y)
                ==> !#[trigger] listed(chunks, n, x, y),
{
}

/// `out` lists in scan order the live cells in the rectangle.
pub open spec fn lists_live(
    out: Seq<(i64, i64)>,
    live: Set<(int, int)>,
    min_x: int,
    min_y: int,
    max_x: int,
    max_y: int,
) -> bool {
    &&& forall|i: int|
        #![trigger out[i]]
        0 <= i < out.len() ==> crate::chunk::in_rect(
            out[i].0 as int,
            out[i].1 as int,
            min_x,
            min_y,
            max_x,
            max_y,
        ) && live.contains((out[i].0 as int, out[i].1 as int))
    &&& forall|x: int, y: int| #[trigger]
        live.contains((x, y)) && crate::chunk::in_rect(x, y, min_x, min_y, max_x, max_y)
            ==> exists|i: int| 0 <= i < out.len() && (#[trigger] out[i]).0 == x && out[i].1 == y
    &&& forall|i: int, j: int|
        0 <= i < j < out.len() ==> crate::chunk::scan_before(
            (#[trigger] out[i]).0 as int,
            out[i].1 as int,
            (#[trigger] out[j]).0 as int,
            out[j].1 as int,
        )
}

impl World {
    /// All live cells inside the (inclusive) world-coordinate rectangle: chunk
    /// by chunk, and row by row in a chunk.
    pub fn live_cells_in(&self, min_x: i64, min_y: i64, max_x: i64, max_y: i64) -> (r: Vec<
        (i64, i64),
    >)
        requires
            self.wf(),
        ensures
            lists_live(r@, self@, min_x as int, min_y as int, max_x as int, max_y as int),
    {
        let cells = self.cells.cells_in(min_x, min_y, max_x, max_y);
        let mut out: Vec<(i64, i64)> = Vec::new();
        let mut i: usize = 0;
        while i < cells.len()
            invariant
                i <= cells@.len(),
                out@.len() == i,
                forall|j: int|
                    0 <= j < i ==> (#[trigger] out@[j]).0 == cells@[j].0 && out@[j].1
                        == cells@[j].1,
            decreases cells@.len() - i,
        {
            out.push((cells[i].0, cells[i].1));
            i = i + 1;
        }
        proof {
            assert forall|x: int, y: int| #[trigger]
                self@.contains((x, y)) && crate::chunk::in_rect(
                    x,
                    y,
                    min_x as int,
                    min_y as int,
                    max_x as int,
                    max_y as int,
                ) implies exists|i: int|
                0 <= i < out@.len() && (#[trigger] out@[i]).0 == x && out@[i].1 == y by {
                assert(self.cells@.dom().contains((x, y)));
                let i = choose|i: int|
                    0 <= i < cells@.len() && (#[trigger] cells@[i]).0 == x && cells@[i].1 == y;
                assert(out@[i].0 == x);
            }
        }
        out
    }

    /// Decide each cell of the inclusive rectangle anew, alive where its roll
    /// came true. There is one roll for each cell, row by row. The cells
    /// outside it stay as they are.
    pub fn randomize_region_with(&mut self, rect: (i64, i64, i64, i64), rolls: &[bool])
        requires
            old(self).wf(),
            rolls@.len() == scatter::area_of(rect),
        ensures
            final(self).wf(),
            final(self).generation() == old(self).generation(),
            forall|x: int, y: int| #[trigger]
                final(self)@.contains((x, y)) == (if scatter::in_quad(x, y, rect) {
                    rolls@[scatter::index_in(rect, x, y)]
                } else {
                    old(self)@.contains((x, y))
                }),
    {
        self.cells.scatter_with(rect, 1, Some(0), rolls);
        assert forall|x: int, y: int| #[trigger]
            self@.contains((x, y)) <==> self.cells.at(x, y) != 0 by {}
    }

    /// Decide each cell of the inclusive rectangle anew, alive with the given
    /// chance. Each cell takes one roll, row by row. The cells outside it stay
    /// as they are.
    pub fn randomize_region(
        &mut self,
        min_x: i64,
        min_y: i64,
        max_x: i64,
        max_y: i64,
        density: Chance,
        rng: &mut StdRng,
    )
        requires
            old(self).wf(),
            density.valid(),
        ensures
            final(self).wf(),
            final(self).generation() == old(self).generation(),
            ({
                let rect = (min_x, min_y, max_x, max_y);
                let words = chance::words_of(*old(rng));
                &&& forall|x: int, y: int| #[trigger]
                    final(self)@.contains((x, y)) == (if scatter::in_quad(x, y, rect) {
                        chance::roll_at(words, scatter::index_in(rect, x, y), density)
                    } else {
                        old(self)@.contains((x, y))
                    })
                &&& chance::is_rest(
                    chance::words_of(*final(rng)),
                    words,
                    chance::words_used(scatter::area_of(rect), density),
                )
            }),
    {
        self.cells.scatter((min_x, min_y, max_x, max_y), 1, Some(0), density, rng);
        assert forall|x: int, y: int| #[trigger]
            self@.contains((x, y)) <==> self.cells.at(x, y) != 0 by {}
    }
}

/// The live cells after `(x, y)` has been made alive or dead.
pub open spec fn written(live: Set<(int, int)>, x: int, y: int, value: bool) -> Set<(int, int)> {
    if value {
        live.insert((x, y))
    } else {
        live.remove((x, y))
    }
}

/// Reading a cell gives back what was last written to it, and writing to one
/// cell changes no other.
pub proof fn law_read_after_write(
    live: Set<(int, int)>,
    x: int,
    y: int,
    value: bool,
    u: int,
    v: int,
)
    ensures
        written(live, x, y, value).contains((u, v)) == (if u == x && v == y {
            value
        } else {
            live.contains((u, v))
        }),
{
}

/// Under a rule without birth on zero neighbors a step is the rule applied to
/// every cell of the infinite plane: no cell outside the candidate chunks can
/// come alive.
pub proof fn law_step_covers_the_plane(live: Set<(int, int)>, rule: crate::rule::RuleView)
    requires
        !rule.birth.contains(0),
    ensures
        next_generation(live, rule) == plane_generation(live, rule),
{
    let occupied = crate::chunk::occupied_chunks(live);
    let f = |p: (int, int)| (crate::chunk::chunk_of(p.0), crate::chunk::chunk_of(p.1));
    assert forall|p: (int, int)| plane_generation(live, rule).contains(p) implies next_generation(
        live,
        rule,
    ).contains(p) by {
        let (x, y) = p;
        if !live.contains(p) {
            assert(live_around(live, x, y) != 0);
        }
        let q: (int, int) = if live.contains(p) {
            p
        } else if live.contains((x - 1, y - 1)) {
            (x - 1, y - 1)
        } else if live.contains((x, y - 1)) {
            (x, y - 1)
        } else if live.contains((x + 1, y - 1)) {
            (x + 1, y - 1)
        } else if live.contains((x - 1, y)) {
            (x - 1, y)
        } else if live.contains((x + 1, y)) {
            (x + 1, y)
        } else if live.contains((x - 1, y + 1)) {
            (x - 1, y + 1)
        } else if live.contains((x, y + 1)) {
            (x, y + 1)
        } else {
            (x + 1, y + 1)
        };
        assert(live.contains(q));
        assert(occupied.contains(f(q)));
        assert(crate::chunk::near_occupied(live, f(p).0, f(p).1));
    }
    assert(next_generation(live, rule) =~= plane_generation(live, rule));
}

/// The cells moved by `(dx, dy)`.
pub open spec fn shifted(live: Set<(int, int)>, dx: int, dy: int) -> Set<(int, int)> {
    Set::new(|p: (int, int)| live.contains((p.0 - dx, p.1 - dy)))
}

/// Under a rule without birth on zero neighbors a pattern evolves alike
/// wherever it lies, across chunk boundaries too: moving it and stepping is
/// stepping it and moving.
pub proof fn law_step_is_translation_invariant(
    live: Set<(int, int)>,
    rule: crate::rule::RuleView,
    dx: int,
    dy: int,
)
    requires
        !rule.birth.contains(0),
    ensures
        next_generation(shifted(live, dx, dy), rule) == shifted(next_generation(live, rule), dx, dy),
{
    law_step_covers_the_plane(live, rule);
    law_step_covers_the_plane(shifted(live, dx, dy), rule);
    assert forall|p: (int, int)| plane_generation(shifted(live, dx, dy), rule).contains(p)
        <==> shifted(plane_generation(live, rule), dx, dy).contains(p) by {
        let (x, y) = (p.0 - dx, p.1 - dy);
        let there = shifted(live, dx, dy);
        assert forall|a: int, b: int| #[trigger] alive_at(there, a, b) == alive_at(
            live,
            a - dx,
            b - dy,
        ) by {}
        assert(live_around(there, p.0, p.1) == live_around(live, x, y)) by {
            assert(p.0 - 1 - dx == x - 1 && p.0 + 1 - dx == x + 1);
            assert(p.1 - 1 - dy == y - 1 && p.1 + 1 - dy == y + 1);
        }
    }
    assert(plane_generation(shifted(live, dx, dy), rule) =~= shifted(
        plane_generation(live, rule),
        dx,
        dy,
    ));
}

/// Nothing comes of nothing, under any rule.
pub proof fn law_empty_world_stays_empty(rule: crate::rule::RuleView)
    ensures
        next_generation(Set::empty(), rule) == Set::<(int, int)>::empty(),
{
    assert(next_generation(Set::empty(), rule) =~= Set::<(int, int)>::empty());
}

/// A world without live cells stores no chunk.
pub proof fn law_empty_world_stores_nothing()
    ensures
        crate::chunk::occupied_chunks(Set::empty()).len() == 0,
{
    assert(crate::chunk::occupied_chunks(Set::empty()) =~= Set::<(int, int)>::empty());
}

/// Killing a cell allocates no chunk.
pub proof fn law_killing_allocates_nothing(live: Set<(int, int)>, x: int, y: int)
    ensures
        crate::chunk::occupied_chunks(written(live, x, y, false)).subset_of(
            crate::chunk::occupied_chunks(live),
        ),
{
}

/// A step brings nothing to life further than two chunks' width from a cell
/// that was alive.
pub proof fn law_step_reach(live: Set<(int, int)>, rule: crate::rule::RuleView, p: (int, int))
    requires
        next_generation(live, rule).contains(p),
    ensures
        exists|q: (int, int)| #[trigger]
            live.contains(q) && -128 < p.0 - q.0 < 128 && -128 < p.1 - q.1 < 128,
{
    let (cx, cy) = (crate::chunk::chunk_of(p.0), crate::chunk::chunk_of(p.1));
    let c = choose|c: (int, int)| #[trigger]
        crate::chunk::occupied_chunks(live).contains(c) && -1 <= c.0 - cx <= 1 && -1 <= c.1 - cy
            <= 1;
    let q = choose|q: (int, int)| #[trigger]
        live.contains(q) && c == (crate::chunk::chunk_of(q.0), crate::chunk::chunk_of(q.1));
    assert(live.contains(q) && -128 < p.0 - q.0 < 128 && -128 < p.1 - q.1 < 128);
}

/// The chunks themselves and the first `n` of those around them.
spec fn chunks_near(chunks: Set<(int, int)>, n: int) -> Set<(int, int)>
    decreases n,
{
    if n <= 0 {
        Set::empty()
    } else {
        chunks_near(chunks, n - 1).union(
            chunks.map(|c: (int, int)| (c.0 + (n - 1) % 3 - 1, c.1 + (n - 1) / 3 - 1)),
        )
    }
}

proof fn lemma_chunks_near(chunks: Set<(int, int)>, n: int)
    requires
        chunks.finite(),
        0 <= n,
    ensures
        chunks_near(chunks, n).finite(),
        chunks_near(chunks, n).len() <= n * chunks.len(),
        forall|c: (int, int), i: int|
            chunks.contains(c) && 0 <= i < n ==> #[trigger] chunks_near(chunks, n).contains(
                (c.0 + i % 3 - 1, c.1 + i / 3 - 1),
            ),
    decreases n,
{
    if n > 0 {
        lemma_chunks_near(chunks, n - 1);
        let f = |c: (int, int)| (c.0 + (n - 1) % 3 - 1, c.1 + (n - 1) / 3 - 1);
        let fewer = chunks_near(chunks, n - 1);
        vstd::set_lib::lemma_map_size_bound(chunks, chunks.map(f), f);
        vstd::set_lib::lemma_len_union(fewer, chunks.map(f));
        assert((n - 1) * chunks.len() + chunks.len() == n * chunks.len()) by (nonlinear_arith);
        assert forall|c: (int, int), i: int|
            chunks.contains(c) && 0 <= i < n implies #[trigger] chunks_near(chunks, n).contains(
            (c.0 + i % 3 - 1, c.1 + i / 3 - 1),
        ) by {
            if i == n - 1 {
                assert(chunks.map(f).contains(f(c)));
            } else {
                assert(fewer.contains((c.0 + i % 3 - 1, c.1 + i / 3 - 1)));
            }
        }
    }
}

/// A step fills no more than the chunks with live cells and their eight
/// neighbors, which is nine times the room of a chunk for each.
pub proof fn law_step_growth(live: Set<(int, int)>, rule: crate::rule::RuleView)
    requires
        crate::chunk::occupied_chunks(live).finite(),
    ensures
        next_generation(live, rule).finite(),
        next_generation(live, rule).len() <= 36864 * crate::chunk::occupied_chunks(live).len(),
{
    let chunks = crate::chunk::occupied_chunks(live);
    let next = next_generation(live, rule);
    lemma_chunks_near(chunks, 9);
    assert forall|x: int, y: int| #[trigger] next.contains((x, y)) implies chunks_near(
        chunks,
        9,
    ).contains((crate::chunk::chunk_of(x), crate::chunk::chunk_of(y))) by {
        let (cx, cy) = (crate::chunk::chunk_of(x), crate::chunk::chunk_of(y));
        let c = choose|c: (int, int)| #[trigger]
            chunks.contains(c) && -1 <= c.0 - cx <= 1 && -1 <= c.1 - cy <= 1;
        let i = (cy - c.1 + 1) * 3 + (cx - c.0 + 1);
        assert(i % 3 == cx - c.0 + 1 && i / 3 == cy - c.1 + 1);
        assert(chunks_near(chunks, 9).contains((c.0 + i % 3 - 1, c.1 + i / 3 - 1)));
    }
    crate::chunk::law_chunk_capacity(next, chunks_near(chunks, 9));
    assert(chunks_near(chunks, 9).len() <= 9 * chunks.len());
}

/// Killing the last live cell of a chunk frees the chunk.
pub proof fn law_last_cell_frees_the_chunk(live: Set<(int, int)>, x: int, y: int)
    requires
        forall|u: int, v: int| #[trigger]
            live.contains((u, v)) && crate::chunk::chunk_of(u) == crate::chunk::chunk_of(x)
                && crate::chunk::chunk_of(v) == crate::chunk::chunk_of(y) ==> (u, v) == (x, y),
    ensures
        !crate::chunk::occupied_chunks(written(live, x, y, false)).contains(
            (crate::chunk::chunk_of(x), crate::chunk::chunk_of(y)),
        ),
{
    let left = written(live, x, y, false);
    let c = (crate::chunk::chunk_of(x), crate::chunk::chunk_of(y));
    if crate::chunk::occupied_chunks(left).contains(c) {
        let p = choose|p: (int, int)|
            left.contains(p) && c == (crate::chunk::chunk_of(p.0), crate::chunk::chunk_of(p.1));
        assert(live.contains((p.0, p.1)));
    }
}

/// The places around `(x, y)` that are marked.
pub open spec fn marked_around(x: int, y: int, marked: spec_fn((int, int)) -> bool) -> Set<
    (int, int),
> {
    Set::new(
        |q: (int, int)|
            q != (x, y) && -1 <= q.0 - x <= 1 && -1 <= q.1 - y <= 1 && marked(q),
    )
}

/// The place is added to the set if it is marked.
spec fn joined(
    set: Set<(int, int)>,
    p: (int, int),
    marked: spec_fn((int, int)) -> bool,
) -> Set<(int, int)> {
    if marked(p) {
        set.insert(p)
    } else {
        set
    }
}

proof fn lemma_joined(set: Set<(int, int)>, p: (int, int), marked: spec_fn((int, int)) -> bool)
    requires
        set.finite(),
        !set.contains(p),
    ensures
        joined(set, p, marked).finite(),
        joined(set, p, marked).len() == set.len() + (if marked(p) {
            1int
        } else {
            0
        }),
{
}

/// How many of the eight places around `(x, y)` are marked.
pub proof fn lemma_marked_around(x: int, y: int, marked: spec_fn((int, int)) -> bool)
    ensures
        marked_around(x, y, marked).finite(),
        ({
            let one = |p: (int, int)|
                if marked(p) {
                    1int
                } else {
                    0int
                };
            marked_around(x, y, marked).len() == one((x - 1, y - 1)) + one((x, y - 1)) + one(
                (x + 1, y - 1),
            ) + one((x - 1, y)) + one((x + 1, y)) + one((x - 1, y + 1)) + one((x, y + 1)) + one(
                (x + 1, y + 1),
            )
        }),
{
    let none = Set::<(int, int)>::empty();
    let a = joined(none, (x - 1, y - 1), marked);
    lemma_joined(none, (x - 1, y - 1), marked);
    let b = joined(a, (x, y - 1), marked);
    lemma_joined(a, (x, y - 1), marked);
    let c = joined(b, (x + 1, y - 1), marked);
    lemma_joined(b, (x + 1, y - 1), marked);
    let d = joined(c, (x - 1, y), marked);
    lemma_joined(c, (x - 1, y), marked);
    let e = joined(d, (x + 1, y), marked);
    lemma_joined(d, (x + 1, y), marked);
    let f = joined(e, (x - 1, y + 1), marked);
    lemma_joined(e, (x - 1, y + 1), marked);
    let g = joined(f, (x, y + 1), marked);
    lemma_joined(f, (x, y + 1), marked);
    let h = joined(g, (x + 1, y + 1), marked);
    lemma_joined(g, (x + 1, y + 1), marked);
    assert forall|q: (int, int)| h.contains(q) <==> marked_around(x, y, marked).contains(q) by {
        if marked_around(x, y, marked).contains(q) {
            assert(q == (q.0, q.1));
            assert(q.0 == x - 1 || q.0 == x || q.0 == x + 1);
            assert(q.1 == y - 1 || q.1 == y || q.1 == y + 1);
        }
    }
    assert(h =~= marked_around(x, y, marked));
}

/// A step applies the rule to the number of live cells among the eight around
/// each cell, whatever that number is: a live cell lives on if the number is
/// one of the survival counts, and a dead cell is born if it is one of the
/// birth counts.
pub proof fn law_step_counts_neighbors(
    live: Set<(int, int)>,
    rule: crate::rule::RuleView,
    x: int,
    y: int,
)
    requires
        !rule.birth.contains(0),
    ensures
        ({
            let around = Set::new(
                |q: (int, int)|
                    live.contains(q) && q != (x, y) && -1 <= q.0 - x <= 1 && -1 <= q.1 - y <= 1,
            );
            let n = around.len() as int;
            &&& around.finite()
            &&& live.contains((x, y)) ==> (next_generation(live, rule).contains((x, y))
                <==> rule.survival.contains(n))
            &&& !live.contains((x, y)) ==> (next_generation(live, rule).contains((x, y))
                <==> rule.birth.contains(n))
        }),
{
    let marked = |q: (int, int)| live.contains(q);
    let around = Set::new(
        |q: (int, int)|
            live.contains(q) && q != (x, y) && -1 <= q.0 - x <= 1 && -1 <= q.1 - y <= 1,
    );
    assert(around =~= marked_around(x, y, marked));
    lemma_marked_around(x, y, marked);
    law_step_covers_the_plane(live, rule);
}

/// Under a rule with birth on zero neighbors too, a step applies the rule to
/// every cell whose chunk has a live cell or lies next to one that has, and
/// leaves the rest of the plane dead. Chunks are squares of 64 by 64 cells.
pub proof fn law_step_applies_near_live_cells(
    live: Set<(int, int)>,
    rule: crate::rule::RuleView,
    x: int,
    y: int,
)
    ensures
        ({
            let around = Set::new(
                |q: (int, int)|
                    live.contains(q) && q != (x, y) && -1 <= q.0 - x <= 1 && -1 <= q.1 - y <= 1,
            );
            let n = around.len() as int;
            let near = exists|q: (int, int)| #[trigger]
                live.contains(q) && -1 <= q.0 / 64 - x / 64 <= 1 && -1 <= q.1 / 64 - y / 64 <= 1;
            next_generation(live, rule).contains((x, y)) <==> near && (if live.contains((x, y)) {
                rule.survival.contains(n)
            } else {
                rule.birth.contains(n)
            })
        }),
{
    let marked = |q: (int, int)| live.contains(q);
    let around = Set::new(
        |q: (int, int)|
            live.contains(q) && q != (x, y) && -1 <= q.0 - x <= 1 && -1 <= q.1 - y <= 1,
    );
    assert(around =~= marked_around(x, y, marked));
    lemma_marked_around(x, y, marked);
    let (cx, cy) = (crate::chunk::chunk_of(x), crate::chunk::chunk_of(y));
    let chunks = crate::chunk::occupied_chunks(live);
    let f = |p: (int, int)| (crate::chunk::chunk_of(p.0), crate::chunk::chunk_of(p.1));
    if crate::chunk::near_occupied(live, cx, cy) {
        let c = choose|c: (int, int)| #[trigger]
            chunks.contains(c) && -1 <= c.0 - cx <= 1 && -1 <= c.1 - cy <= 1;
        let q = choose|q: (int, int)| live.contains(q) && c == f(q);
        assert(live.contains(q) && -1 <= q.0 / 64 - x / 64 <= 1 && -1 <= q.1 / 64 - y / 64 <= 1);
    }
    if exists|q: (int, int)| #[trigger]
        live.contains(q) && -1 <= q.0 / 64 - x / 64 <= 1 && -1 <= q.1 / 64 - y / 64 <= 1 {
        let q = choose|q: (int, int)| #[trigger]
            live.contains(q) && -1 <= q.0 / 64 - x / 64 <= 1 && -1 <= q.1 / 64 - y / 64 <= 1;
        assert(chunks.contains(f(q)));
    }
}

/// A world whose cells can be addressed can be stepped.
pub proof fn law_addressable_worlds_can_step(live: Set<(int, int)>)
    requires
        forall|x: int, y: int| #[trigger]
            live.contains((x, y)) ==> i64::MIN <= x <= i64::MAX && i64::MIN <= y <= i64::MAX,
    ensures
        steppable(live),
{
    let chunks = crate::chunk::occupied_chunks(live);
    assert forall|c: (int, int)| #[trigger] chunks.contains(c) implies i64::MIN + 2 <= c.0
        <= i64::MAX - 2 && i64::MIN + 2 <= c.1 <= i64::MAX - 2 by {
        let p = choose|p: (int, int)|
            live.contains(p) && c == (crate::chunk::chunk_of(p.0), crate::chunk::chunk_of(p.1));
        assert(live.contains((p.0, p.1)));
    }
}

/// The list holds each live cell of the rectangle once and nothing else, chunk
/// by chunk and row by row.
pub proof fn law_live_cells_are_listed(
    out: Seq<(i64, i64)>,
    live: Set<(int, int)>,
    rect: (int, int, int, int),
)
    requires
        lists_live(out, live, rect.0, rect.1, rect.2, rect.3),
    ensures
        forall|i: int|
            0 <= i < out.len() ==> {
                let (x, y) = #[trigger] out[i];
                live.contains((x as int, y as int)) && rect.0 <= x <= rect.2 && rect.1 <= y
                    <= rect.3
            },
        forall|x: int, y: int| #[trigger]
            live.contains((x, y)) && rect.0 <= x <= rect.2 && rect.1 <= y <= rect.3 ==> exists|
                i: int,
            | 0 <= i < out.len() && (#[trigger] out[i]).0 == x && out[i].1 == y,
        forall|i: int, j: int|
            0 <= i < j < out.len() ==> {
                let (a, b) = (#[trigger] out[i], #[trigger] out[j]);
                ||| a.1 as int / 64 < b.1 as int / 64
                ||| a.1 as int / 64 == b.1 as int / 64 && a.0 as int / 64 < b.0 as int / 64
                ||| a.1 as int / 64 == b.1 as int / 64 && a.0 as int / 64 == b.0 as int / 64 && (a.1
                    < b.1 || (a.1 == b.1 && a.0 < b.0))
            },
{
}

} // verus!
