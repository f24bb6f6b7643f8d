//! A bounded two-state cellular automaton whose edges wrap.
use rand::rngs::StdRng;
use vstd::prelude::*;

#[allow(unused_imports)]
use crate::chance;
use crate::chance::{draw, Chance};
use crate::rule::BsRule;

verus! {

/// The three steps to a neighbor along an axis of length `n`: one back, none,
/// one on. Going back is going round to the last.
pub open spec fn torus_step(n: int, i: int) -> int {
    if i == 0 {
        n - 1
    } else if i == 1 {
        0
    } else {
        1
    }
}

/// 1 if the cell that lies the `i`-th step across and the `j`-th step down
/// from `(x, y)` is alive. The cell itself, which is none across and none
/// down, does not count; on a side of one cell the steps back and on lead to
/// the same column or row.
pub open spec fn torus_neighbor(
    live: Set<(int, int)>,
    w: int,
    h: int,
    x: int,
    y: int,
    i: int,
    j: int,
) -> int {
    let (dx, dy) = (torus_step(w, i), torus_step(h, j));
    if (i == 1 && j == 1) || !live.contains(((x + dx) % w, (y + dy) % h)) {
        0
    } else {
        1
    }
}

/// How many neighbors of `(x, y)` are alive on a grid of `w` by `h` cells
/// whose edges wrap.
pub open spec fn torus_around(live: Set<(int, int)>, w: int, h: int, x: int, y: int) -> int {
    torus_neighbor(live, w, h, x, y, 0, 0) + torus_neighbor(live, w, h, x, y, 1, 0)
        + torus_neighbor(live, w, h, x, y, 2, 0) + torus_neighbor(live, w, h, x, y, 0, 1)
        + torus_neighbor(live, w, h, x, y, 1, 1) + torus_neighbor(live, w, h, x, y, 2, 1)
        + torus_neighbor(live, w, h, x, y, 0, 2) + torus_neighbor(live, w, h, x, y, 1, 2)
        + torus_neighbor(live, w, h, x, y, 2, 2)
}

/// The rule applied to every cell of the grid.
pub open spec fn torus_generation(
    live: Set<(int, int)>,
    w: int,
    h: int,
    rule: crate::rule::RuleView,
) -> Set<(int, int)> {
    Set::new(
        |p: (int, int)|
            0 <= p.0 < w && 0 <= p.1 < h && rule.next(
                live.contains(p),
                torus_around(live, w, h, p.0, p.1),
            ),
    )
}

/// The cells whose rolls came true, where each cell has one, row by row.
pub open spec fn rolled_grid(rolls: Seq<bool>, w: int, h: int) -> Set<(int, int)> {
    Set::new(|p: (int, int)| 0 <= p.0 < w && 0 <= p.1 < h && rolls[p.1 * w + p.0])
}

/// Fixed-size grid of a two-state Life-like automaton.
///
/// Double-buffered: `step` reads the current generation and writes the next,
/// never mutating in place. Edges wrap (toroidal) so gliders keep flying.
/// The rule is passed per step, so it can change mid-simulation.
pub struct LifeGrid {
    pub width: usize,
    pub height: usize,
    /// The cells, row by row.
    pub cells: Vec<bool>,
    /// Room for the next generation.
    pub next: Vec<bool>,
    pub generation: u64,
}

proof fn lemma_index(x: int, y: int, w: int, h: int)
    requires
        0 <= x < w,
        0 <= y < h,
    ensures
        0 <= y * w + x < w * h,
        (y * w + x) / w == y,
        (y * w + x) % w == x,
{
    assert(0 <= y * w + x < w * h) by (nonlinear_arith)
        requires
            0 <= x < w,
            0 <= y < h,
    ;
    vstd::arithmetic::div_mod::lemma_fundamental_div_mod_converse(y * w + x, w, y, x);
}

proof fn lemma_cell_index_injective(x: int, y: int, u: int, v: int, w: int, h: int)
    requires
        0 <= x < w,
        0 <= y < h,
        0 <= u < w,
        0 <= v < h,
        y * w + x == v * w + u,
    ensures
        x == u,
        y == v,
{
    lemma_index(x, y, w, h);
    lemma_index(u, v, w, h);
}

impl View for LifeGrid {
    type V = Set<(int, int)>;

    /// The live cells, by column and row.
    open spec fn view(&self) -> Set<(int, int)> {
        Set::new(
            |p: (int, int)|
                0 <= p.0 < self.width && 0 <= p.1 < self.height && self.cells@[p.1 * self.width
                    + p.0],
        )
    }
}

impl LifeGrid {
    pub open spec fn wf(self) -> bool {
        &&& self.width * self.height <= isize::MAX
        &&& self.cells@.len() == self.width * self.height
        &&& self.next@.len() == self.width * self.height
    }

    pub open spec fn spec_width(&self) -> usize {
        self.width
    }

    pub open spec fn spec_height(&self) -> usize {
        self.height
    }

    pub open spec fn spec_generation(&self) -> u64 {
        self.generation
    }

    /// How many cells a row has.
    #[verifier::when_used_as_spec(spec_width)]
    pub fn width(&self) -> (r: usize)
        ensures
            r == self.width(),
    {
        self.width
    }

    /// How many rows there are.
    #[verifier::when_used_as_spec(spec_height)]
    pub fn height(&self) -> (r: usize)
        ensures
            r == self.height(),
    {
        self.height
    }

    /// How many steps the grid has taken.
    #[verifier::when_used_as_spec(spec_generation)]
    pub fn generation(&self) -> (r: u64)
        ensures
            r == self.generation(),
    {
        self.generation
    }

    /// A grid of dead cells.
    pub fn new(width: usize, height: usize) -> (r: Self)
        requires
            width * height <= isize::MAX,
        ensures
            r.wf(),
            r.width() == width,
            r.height() == height,
            r@ == Set::<(int, int)>::empty(),
            r.generation() == 0,
    {
        let r = LifeGrid {
            width,
            height,
            cells: vec![false; width * height],
            next: vec![false; width * height],
            generation: 0,
        };
        proof {
            assert forall|p: (int, int)| !r@.contains(p) by {
                if 0 <= p.0 < width && 0 <= p.1 < height {
                    lemma_index(p.0, p.1, width as int, height as int);
                }
            }
            assert(r@ =~= Set::<(int, int)>::empty());
        }
        r
    }

    pub fn get(&self, x: usize, y: usize) -> (r: bool)
        requires
            self.wf(),
            x < self.width(),
            y < self.height(),
        ensures
            r == self@.contains((x as int, y as int)),
    {
        proof {
            lemma_index(x as int, y as int, self.width as int, self.height as int);
        }
        assert(y * self.width <= y * self.width + x);
        self.cells[y * self.width + x]
    }

    pub fn set(&mut self, x: usize, y: usize, alive: bool)
        requires
            old(self).wf(),
            x < old(self).width(),
            y < old(self).height(),
        ensures
            final(self).wf(),
            final(self).width() == old(self).width(),
            final(self).height() == old(self).height(),
            final(self).generation() == old(self).generation(),
            final(self)@ == crate::world::written(old(self)@, x as int, y as int, alive),
    {
        let ghost (w, h) = (self.width as int, self.height as int);
        proof {
            lemma_index(x as int, y as int, w, h);
        }
        let i: usize = y * self.width + x;
        self.cells.set(i, alive);
        proof {
            assert forall|p: (int, int)| self@.contains(p) <==> crate::world::written(
                old(self)@,
                x as int,
                y as int,
                alive,
            ).contains(p) by {
                if 0 <= p.0 < w && 0 <= p.1 < h {
                    lemma_index(p.0, p.1, w, h);
                    if p.1 * w + p.0 == i {
                        lemma_cell_index_injective(p.0, p.1, x as int, y as int, w, h);
                    }
                }
            }
            assert(self@ =~= crate::world::written(old(self)@, x as int, y as int, alive));
        }
    }

    /// Kill every cell and start counting anew.
    pub fn clear(&mut self)
        requires
            old(self).wf(),
        ensures
            final(self).wf(),
            final(self).width() == old(self).width(),
            final(self).height() == old(self).height(),
            final(self)@ == Set::<(int, int)>::empty(),
            final(self).generation() == 0,
    {
        let mut i: usize = 0;
        while i < self.cells.len()
            invariant
                self.wf(),
                self.width == old(self).width,
                self.height == old(self).height,
                i <= self.cells@.len(),
                forall|j: int| 0 <= j < i ==> !#[trigger] self.cells@[j],
            decreases self.cells@.len() - i,
        {
            self.cells.set(i, false);
            i = i + 1;
        }
        self.generation = 0;
        proof {
            assert forall|p: (int, int)| !self@.contains(p) by {
                if 0 <= p.0 < self.width && 0 <= p.1 < self.height {
                    lemma_index(p.0, p.1, self.width as int, self.height as int);
                }
            }
            assert(self@ =~= Set::<(int, int)>::empty());
        }
    }

    /// Decide every cell anew, alive with the given chance, and start counting
    /// anew. The cells are decided one after the other, row by row.
    pub fn randomize(&mut self, density: Chance, rng: &mut StdRng)
        requires
            old(self).wf(),
            density.valid(),
        ensures
            final(self).wf(),
            final(self).width() == old(self).width(),
            final(self).height() == old(self).height(),
            final(self).generation() == 0,
            ({
                let (w, h) = (old(self).width() as int, old(self).height() as int);
                let words = chance::words_of(*old(rng));
                &&& final(self)@ == rolled_grid(chance::rolls_of(words, 0, w * h, density), w, h)
                &&& chance::is_rest(
                    chance::words_of(*final(rng)),
                    words,
                    chance::words_used(w * h, density),
                )
            }),
    {
        let rolls = draw(rng, density, self.cells.len());
        self.randomize_with(rolls.as_slice());
    }

    /// Decide every cell anew, alive where its roll says so, and start counting
    /// anew. There is one roll for each cell, row by row.
    pub fn randomize_with(&mut self, rolls: &[bool])
        requires
            old(self).wf(),
            rolls@.len() == old(self).width() * old(self).height(),
        ensures
            final(self).wf(),
            final(self).width() == old(self).width(),
            final(self).height() == old(self).height(),
            final(self).generation() == 0,
            final(self)@ == rolled_grid(
                rolls@,
                old(self).width() as int,
                old(self).height() as int,
            ),
    {
        let mut i: usize = 0;
        while i < self.cells.len()
            invariant
                self.wf(),
                self.width == old(self).width,
                self.height == old(self).height,
                rolls@.len() == self.cells@.len(),
                i <= self.cells@.len(),
                forall|j: int| 0 <= j < i ==> #[trigger] self.cells@[j] == rolls@[j],
            decreases self.cells@.len() - i,
        {
            self.cells.set(i, rolls[i]);
            i = i + 1;
        }
        self.generation = 0;
        proof {
            let (w, h) = (self.width as int, self.height as int);
            assert forall|p: (int, int)| self@.contains(p) <==> rolled_grid(rolls@, w, h).contains(
                p,
            ) by {
                if 0 <= p.0 < w && 0 <= p.1 < h {
                    lemma_index(p.0, p.1, w, h);
                }
            }
            assert(self@ =~= rolled_grid(rolls@, w, h));
        }
    }

    /// How many neighbors of a cell are alive.
    pub fn live_neighbors(&self, x: usize, y: usize) -> (r: u8)
        requires
            self.wf(),
            x < self.width(),
            y < self.height(),
        ensures
            r == torus_around(self@, self.width() as int, self.height() as int, x as int, y as int),
            r <= 8,
    {
        self.neighbor(x, y, 0, 0) + self.neighbor(x, y, 1, 0) + self.neighbor(x, y, 2, 0)
            + self.neighbor(x, y, 0, 1) + self.neighbor(x, y, 1, 1) + self.neighbor(x, y, 2, 1)
            + self.neighbor(x, y, 0, 2) + self.neighbor(x, y, 1, 2) + self.neighbor(x, y, 2, 2)
    }

    /// Whether the cell that lies the `i`-th step across and the `j`-th step
    /// down counts as a live neighbor.
    fn neighbor(&self, x: usize, y: usize, i: usize, j: usize) -> (r: u8)
        requires
            self.wf(),
            x < self.width(),
            y < self.height(),
            i <= 2,
            j <= 2,
        ensures
            r == torus_neighbor(
                self@,
                self.width() as int,
                self.height() as int,
                x as int,
                y as int,
                i as int,
                j as int,
            ),
            i == 1 && j == 1 ==> r == 0,
            r <= 1,
    {
        let (w, h) = (self.width, self.height);
        assert(w <= w * h && h <= w * h) by (nonlinear_arith)
            requires
                w >= 1,
                h >= 1,
        ;
        let dx: usize = if i == 0 {
            w - 1
        } else if i == 1 {
            0
        } else {
            1
        };
        let dy: usize = if j == 0 {
            h - 1
        } else if j == 1 {
            0
        } else {
            1
        };
        if i == 1 && j == 1 {
            return 0;
        }
        if self.get((x + dx) % w, (y + dy) % h) {
            1
        } else {
            0
        }
    }

    /// Advance one generation under the given rule.
    pub fn step(&mut self, rule: BsRule)
        requires
            old(self).wf(),
            old(self).generation() < u64::MAX,
        ensures
            final(self).wf(),
            final(self).width() == old(self).width(),
            final(self).height() == old(self).height(),
            final(self)@ == torus_generation(
                old(self)@,
                old(self).width() as int,
                old(self).height() as int,
                rule@,
            ),
            final(self).generation() == old(self).generation() + 1,
    {
        let ghost (w, h) = (self.width as int, self.height as int);
        let ghost target = torus_generation(self@, w, h, rule@);
        let mut y: usize = 0;
        while y < self.height
            invariant
                self.wf(),
                self.width == w,
                self.height == h,
                self.cells == old(self).cells,
                self@ == old(self)@,
                self.generation == old(self).generation,
                target == torus_generation(old(self)@, w, h, rule@),
                y <= h,
                forall|u: int, v: int|
                    0 <= u < w && 0 <= v < y ==> (#[trigger] self.next@[v * w + u]
                        <==> target.contains((u, v))),
            decreases h - y,
        {
            let mut x: usize = 0;
            while x < self.width
                invariant
                    self.wf(),
                    self.width == w,
                    self.height == h,
                    self.cells == old(self).cells,
                    self@ == old(self)@,
                    self.generation == old(self).generation,
                    target == torus_generation(old(self)@, w, h, rule@),
                    y < h,
                    x <= w,
                    forall|u: int, v: int|
                        0 <= u < w && 0 <= v < h && (v < y || (v == y && u < x)) ==> (
                        #[trigger] self.next@[v * w + u] <==> target.contains((u, v))),
                decreases w - x,
            {
                let n = self.live_neighbors(x, y);
                let alive = self.get(x, y);
                proof {
                    lemma_index(x as int, y as int, w, h);
                    assert forall|u: int, v: int| 0 <= u < w && 0 <= v < h && #[trigger] (v * w + u)
                        == y * w + x implies u == x && v == y by {
                        lemma_cell_index_injective(u, v, x as int, y as int, w, h);
                    }
                    assert forall|u: int, v: int| 0 <= u < w && 0 <= v < h implies 0
                        <= #[trigger] (v * w + u) < w * h by {
                        lemma_index(u, v, w, h);
                    }
                }
                let i: usize = y * self.width + x;
                self.next.set(i, rule.next_state(alive, n));
                x = x + 1;
            }
            y = y + 1;
        }
        std::mem::swap(&mut self.cells, &mut self.next);
        self.generation = self.generation + 1;
        assert(self@ =~= target);
    }
}

/// The neighbors of a cell are the eight cells around it, going round at the
/// edges.
pub proof fn law_neighbors_wrap(live: Set<(int, int)>, w: int, h: int, x: int, y: int)
    requires
        w > 0,
        h > 0,
        0 <= x < w,
        0 <= y < h,
    ensures
        torus_around(live, w, h, x, y) == ({
            let (left, right) = ((x - 1) % w, (x + 1) % w);
            let (up, down) = ((y - 1) % h, (y + 1) % h);
            crate::world::alive_at(live, left, up) + crate::world::alive_at(live, x, up)
                + crate::world::alive_at(live, right, up) + crate::world::alive_at(live, left, y)
                + crate::world::alive_at(live, right, y) + crate::world::alive_at(live, left, down)
                + crate::world::alive_at(live, x, down) + crate::world::alive_at(live, right, down)
        }),
{
    vstd::arithmetic::div_mod::lemma_mod_add_multiples_vanish(x - 1, w);
    vstd::arithmetic::div_mod::lemma_mod_add_multiples_vanish(y - 1, h);
    assert(w + (x - 1) == x + (w - 1) && h + (y - 1) == y + (h - 1));
    vstd::arithmetic::div_mod::lemma_small_mod(x as nat, w as nat);
    vstd::arithmetic::div_mod::lemma_small_mod(y as nat, h as nat);
}

/// The cells moved by `(dx, dy)` on a grid whose edges wrap.
pub open spec fn rolled(live: Set<(int, int)>, w: int, h: int, dx: int, dy: int) -> Set<
    (int, int),
> {
    Set::new(
        |p: (int, int)|
            0 <= p.0 < w && 0 <= p.1 < h && live.contains(((p.0 - dx) % w, (p.1 - dy) % h)),
    )
}

proof fn lemma_mod_shift(a: int, s: int, d: int, n: int)
    requires
        n > 0,
    ensures
        ((a + s) % n - d) % n == ((a - d) % n + s) % n,
{
    vstd::arithmetic::div_mod::lemma_add_mod_noop_right(-d, a + s, n);
    vstd::arithmetic::div_mod::lemma_add_mod_noop_right(s, a - d, n);
    assert(-d + (a + s) % n == (a + s) % n - d);
    assert(s + (a - d) % n == (a - d) % n + s);
    assert(-d + (a + s) == s + (a - d));
}

/// A pattern evolves alike wherever it lies on the grid, across its edges
/// too: moving it and stepping is stepping it and moving.
pub proof fn law_step_is_roll_invariant(
    live: Set<(int, int)>,
    w: int,
    h: int,
    rule: crate::rule::RuleView,
    dx: int,
    dy: int,
)
    requires
        w > 0,
        h > 0,
    ensures
        torus_generation(rolled(live, w, h, dx, dy), w, h, rule) == rolled(
            torus_generation(live, w, h, rule),
            w,
            h,
            dx,
            dy,
        ),
{
    let there = rolled(live, w, h, dx, dy);
    assert forall|p: (int, int)| torus_generation(there, w, h, rule).contains(p) <==> rolled(
        torus_generation(live, w, h, rule),
        w,
        h,
        dx,
        dy,
    ).contains(p) by {
        if 0 <= p.0 < w && 0 <= p.1 < h {
            let q = ((p.0 - dx) % w, (p.1 - dy) % h);
            vstd::arithmetic::div_mod::lemma_mod_bound(p.0 - dx, w);
            vstd::arithmetic::div_mod::lemma_mod_bound(p.1 - dy, h);
            assert forall|i: int, j: int| #[trigger]
                torus_neighbor(there, w, h, p.0, p.1, i, j) == torus_neighbor(
                    live,
                    w,
                    h,
                    q.0,
                    q.1,
                    i,
                    j,
                ) by {
                let (sx, sy) = (torus_step(w, i), torus_step(h, j));
                lemma_mod_shift(p.0, sx, dx, w);
                lemma_mod_shift(p.1, sy, dy, h);
                vstd::arithmetic::div_mod::lemma_mod_bound(p.0 + sx, w);
                vstd::arithmetic::div_mod::lemma_mod_bound(p.1 + sy, h);
            }
        }
    }
    assert(torus_generation(there, w, h, rule) =~= rolled(
        torus_generation(live, w, h, rule),
        w,
        h,
        dx,
        dy,
    ));
}

/// A step applies the rule to the number of directions, of the eight around a
/// cell, in which a live cell lies, going round at the edges: a live cell lives
/// on if the number is one of the survival counts, and a dead cell is born if it
/// is one of the birth counts. Nothing lives outside of the grid.
pub proof fn law_torus_step_counts_neighbors(
    live: Set<(int, int)>,
    w: int,
    h: int,
    rule: crate::rule::RuleView,
    x: int,
    y: int,
)
    requires
        w > 0,
        h > 0,
    ensures
        ({
            let around = Set::new(
                |d: (int, int)|
                    d != (0int, 0int) && -1 <= d.0 <= 1 && -1 <= d.1 <= 1 && live.contains(
                        ((x + d.0) % w, (y + d.1) % h),
                    ),
            );
            let n = around.len() as int;
            &&& around.finite()
            &&& torus_generation(live, w, h, rule).contains((x, y)) <==> 0 <= x < w && 0 <= y < h
                && (if live.contains((x, y)) {
                rule.survival.contains(n)
            } else {
                rule.birth.contains(n)
            })
            &&& 0 <= x < w && 0 <= y < h ==> torus_around(live, w, h, x, y) == n
        }),
{
    let marked = |d: (int, int)| live.contains(((x + d.0) % w, (y + d.1) % h));
    let around = Set::new(
        |d: (int, int)|
            d != (0int, 0int) && -1 <= d.0 <= 1 && -1 <= d.1 <= 1 && live.contains(
                ((x + d.0) % w, (y + d.1) % h),
            ),
    );
    assert(around =~= crate::world::marked_around(0, 0, marked));
    crate::world::lemma_marked_around(0, 0, marked);
    if 0 <= x < w && 0 <= y < h {
        law_neighbors_wrap(live, w, h, x, y);
        vstd::arithmetic::div_mod::lemma_small_mod(x as nat, w as nat);
        vstd::arithmetic::div_mod::lemma_small_mod(y as nat, h as nat);
        assert(x + -1 == x - 1 && y + -1 == y - 1);
        let one = |p: (int, int)|
            if marked(p) {
                1int
            } else {
                0int
            };
        assert(one((-1int, -1int)) == crate::world::alive_at(live, (x - 1) % w, (y - 1) % h));
        assert(one((0int, -1int)) == crate::world::alive_at(live, x, (y - 1) % h));
        assert(one((1int, -1int)) == crate::world::alive_at(live, (x + 1) % w, (y - 1) % h));
        assert(one((-1int, 0int)) == crate::world::alive_at(live, (x - 1) % w, y));
        assert(one((1int, 0int)) == crate::world::alive_at(live, (x + 1) % w, y));
        assert(one((-1int, 1int)) == crate::world::alive_at(live, (x - 1) % w, (y + 1) % h));
        assert(one((0int, 1int)) == crate::world::alive_at(live, x, (y + 1) % h));
        assert(one((1int, 1int)) == crate::world::alive_at(live, (x + 1) % w, (y + 1) % h));
    }
}

/// Away from its edges a grid steps as the unbounded plane does: a pattern that
/// keeps clear of them evolves alike on both.
pub proof fn law_torus_steps_like_the_plane(
    live: Set<(int, int)>,
    w: int,
    h: int,
    rule: crate::rule::RuleView,
    x: int,
    y: int,
)
    requires
        !rule.birth.contains(0),
        0 < x < w - 1,
        0 < y < h - 1,
    ensures
        torus_generation(live, w, h, rule).contains((x, y)) <==> crate::world::next_generation(
            live,
            rule,
        ).contains((x, y)),
{
    crate::world::law_step_covers_the_plane(live, rule);
    law_neighbors_wrap(live, w, h, x, y);
    vstd::arithmetic::div_mod::lemma_small_mod((x - 1) as nat, w as nat);
    vstd::arithmetic::div_mod::lemma_small_mod((x + 1) as nat, w as nat);
    vstd::arithmetic::div_mod::lemma_small_mod((y - 1) as nat, h as nat);
    vstd::arithmetic::div_mod::lemma_small_mod((y + 1) as nat, h as nat);
}

/// The rolls fill a grid row by row: the first decides the first cell, and each
/// later one the cell to the right of the one before, or the first of the next
/// row.
pub proof fn law_rolls_fill_the_grid(rolls: Seq<bool>, w: int, h: int, i: int)
    requires
        w > 0,
        h > 0,
        0 <= i < rolls.len(),
        rolls.len() == w * h,
    ensures
        rolled_grid(rolls, w, h).contains((i % w, i / w)) == rolls[i],
        forall|x: int, y: int| #[trigger]
            rolled_grid(rolls, w, h).contains((x, y)) ==> 0 <= x < w && 0 <= y < h,
{
    vstd::arithmetic::div_mod::lemma_fundamental_div_mod(i, w);
    vstd::arithmetic::div_mod::lemma_mod_bound(i, w);
    assert(0 <= i / w < h) by (nonlinear_arith)
        requires
            0 <= i < w * h,
            i == w * (i / w) + i % w,
            0 <= i % w < w,
            w > 0,
    ;
    assert((i / w) * w == w * (i / w)) by (nonlinear_arith);
}

} // verus!
