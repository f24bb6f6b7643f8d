//! Random fillings of a rectangle.
use rand::rngs::StdRng;
use vstd::prelude::*;

use crate::chance::{draw, Chance};
use crate::chunk::SparseGrid;
#[allow(unused_imports)]
use crate::{chance, chunk};

verus! {

/// How many rolls are drawn at a time.
const BATCH: i128 = 1024;

/// `(x, y)` lies in the rectangle, given by x and y of its inclusive corners.
pub open spec fn in_quad(x: int, y: int, rect: (i64, i64, i64, i64)) -> bool {
    chunk::in_rect(x, y, rect.0 as int, rect.1 as int, rect.2 as int, rect.3 as int)
}

/// How many cells the rectangle has.
pub open spec fn area_of(rect: (i64, i64, i64, i64)) -> int {
    if rect.0 <= rect.2 && rect.1 <= rect.3 {
        (rect.3 - rect.1 + 1) * (rect.2 - rect.0 + 1)
    } else {
        0
    }
}

/// The place of a cell in the rectangle, counted row by row.
pub open spec fn index_in(rect: (i64, i64, i64, i64), x: int, y: int) -> int {
    (y - rect.1) * (rect.2 - rect.0 + 1) + (x - rect.0)
}

/// What a cell holds after its roll: `hit` where it came true, and otherwise
/// `miss`, or what was there where there is none.
pub open spec fn outcome(before: u8, hit: u8, miss: Option<u8>, roll: bool) -> u8 {
    if roll {
        hit
    } else {
        match miss {
            Some(value) => value,
            None => before,
        }
    }
}

/// Each cell has its place.
pub proof fn lemma_index(rect: (i64, i64, i64, i64), x: int, y: int)
    requires
        in_quad(x, y, rect),
    ensures
        0 <= index_in(rect, x, y) < area_of(rect),
{
    let (w, h) = (rect.2 - rect.0 + 1, rect.3 - rect.1 + 1);
    let (i, j) = (x - rect.0, y - rect.1);
    assert(0 <= j * w + i < h * w) by (nonlinear_arith)
        requires
            0 <= i < w,
            0 <= j < h,
    ;
}

proof fn lemma_next_row(rect: (i64, i64, i64, i64), y: int)
    ensures
        index_in(rect, rect.0 as int, y + 1) == index_in(rect, rect.2 + 1, y),
        index_in(rect, rect.0 as int, rect.1 as int) == 0,
        rect.0 <= rect.2 && rect.1 <= rect.3 ==> index_in(rect, rect.0 as int, rect.3 + 1)
            == area_of(rect),
{
    let w = rect.2 - rect.0 + 1;
    let j = y - rect.1;
    assert((y + 1 - rect.1) * w == j * w + w) by (nonlinear_arith)
        requires
            j == y - rect.1,
    ;
}

impl SparseGrid {
    /// The cells of the rectangle before `(x, y)`, row by row, have had their
    /// rolls, and no others.
    spec fn is_scattered_to(
        self,
        before: SparseGrid,
        rect: (i64, i64, i64, i64),
        hit: u8,
        miss: Option<u8>,
        rolls: spec_fn(int) -> bool,
        x: int,
        y: int,
    ) -> bool {
        forall|u: int, v: int| #[trigger]
            self.at(u, v) == (if in_quad(u, v, rect) && (v < y || (v == y && u < x)) {
                outcome(before.at(u, v), hit, miss, rolls(index_in(rect, u, v)))
            } else {
                before.at(u, v)
            })
    }

    /// Give each cell of the rectangle its roll, row by row.
    pub fn scatter_with(
        &mut self,
        rect: (i64, i64, i64, i64),
        hit: u8,
        miss: Option<u8>,
        rolls: &[bool],
    )
        requires
            old(self).wf(),
            rolls@.len() == area_of(rect),
        ensures
            final(self).wf(),
            forall|x: int, y: int| #[trigger]
                final(self).at(x, y) == (if in_quad(x, y, rect) {
                    outcome(old(self).at(x, y), hit, miss, rolls@[index_in(rect, x, y)])
                } else {
                    old(self).at(x, y)
                }),
    {
        let (min_x, min_y, max_x, max_y) = rect;
        let ghost by_index = |i: int| rolls@[i];
        let mut i: usize = 0;
        let mut y: i128 = min_y as i128;
        proof {
            lemma_next_row(rect, min_y as int);
        }
        while y <= max_y as i128
            invariant
                self.wf(),
                rect == (min_x, min_y, max_x, max_y),
                rolls@.len() == area_of(rect),
                by_index == (|i: int| rolls@[i]),
                min_y <= y,
                y <= max_y + 1 || y == min_y,
                min_x <= max_x ==> i == index_in(rect, min_x as int, y as int),
                self.is_scattered_to(*old(self), rect, hit, miss, by_index, min_x as int, y as int),
            decreases max_y + 1 - y,
        {
            let mut x: i128 = min_x as i128;
            while x <= max_x as i128
                invariant
                    self.wf(),
                    rect == (min_x, min_y, max_x, max_y),
                    rolls@.len() == area_of(rect),
                    by_index == (|i: int| rolls@[i]),
                    min_y <= y <= max_y,
                    min_x <= x,
                    x <= max_x + 1 || x == min_x,
                    min_x <= max_x ==> i == index_in(rect, x as int, y as int),
                    self.is_scattered_to(
                        *old(self),
                        rect,
                        hit,
                        miss,
                        by_index,
                        x as int,
                        y as int,
                    ),
                decreases max_x + 1 - x,
            {
                proof {
                    lemma_index(rect, x as int, y as int);
                }
                let ghost before = *self;
                if rolls[i] {
                    self.set(x as i64, y as i64, hit);
                } else if let Some(value) = miss {
                    self.set(x as i64, y as i64, value);
                }
                i = i + 1;
                proof {
                    assert forall|u: int, v: int| #[trigger]
                        self.at(u, v) == (if in_quad(u, v, rect) && (v < y || (v == y && u < x + 1)) {
                            outcome(old(self).at(u, v), hit, miss, by_index(index_in(rect, u, v)))
                        } else {
                            old(self).at(u, v)
                        }) by {
                        assert(before.at(u, v) == (if in_quad(u, v, rect) && (v < y || (v == y && u
                            < x)) {
                            outcome(old(self).at(u, v), hit, miss, by_index(index_in(rect, u, v)))
                        } else {
                            old(self).at(u, v)
                        }));
                    }
                }
                x = x + 1;
            }
            proof {
                lemma_next_row(rect, y as int);
                assert forall|u: int, v: int| #[trigger]
                    self.at(u, v) == (if in_quad(u, v, rect) && (v < y + 1 || (v == y + 1 && u
                        < min_x)) {
                        outcome(old(self).at(u, v), hit, miss, by_index(index_in(rect, u, v)))
                    } else {
                        old(self).at(u, v)
                    }) by {}
            }
            y = y + 1;
        }
    }

    /// Give each cell of the rectangle its roll, drawn with the given chance,
    /// row by row.
    pub fn scatter(
        &mut self,
        rect: (i64, i64, i64, i64),
        hit: u8,
        miss: Option<u8>,
        density: Chance,
        rng: &mut StdRng,
    )
        requires
            old(self).wf(),
            density.valid(),
        ensures
            final(self).wf(),
            forall|x: int, y: int| #[trigger]
                final(self).at(x, y) == (if in_quad(x, y, rect) {
                    outcome(
                        old(self).at(x, y),
                        hit,
                        miss,
                        chance::roll_at(
                            chance::words_of(*old(rng)),
                            index_in(rect, x, y),
                            density,
                        ),
                    )
                } else {
                    old(self).at(x, y)
                }),
            chance::is_rest(
                chance::words_of(*final(rng)),
                chance::words_of(*old(rng)),
                chance::words_used(area_of(rect), density),
            ),
    {
        let (min_x, min_y, max_x, max_y) = rect;
        let ghost words = chance::words_of(*rng);
        let ghost by_index = |i: int| chance::roll_at(words, i, density);
        let ghost mut k: int = 0;
        let mut y: i128 = min_y as i128;
        proof {
            lemma_next_row(rect, min_y as int);
        }
        while y <= max_y as i128
            invariant
                self.wf(),
                density.valid(),
                rect == (min_x, min_y, max_x, max_y),
                words == chance::words_of(*old(rng)),
                by_index == (|i: int| chance::roll_at(words, i, density)),
                min_y <= y,
                y <= max_y + 1 || y == min_y,
                0 <= k,
                k == (if min_x <= max_x {
                    index_in(rect, min_x as int, y as int)
                } else {
                    0
                }),
                chance::is_rest(chance::words_of(*rng), words, chance::words_used(k, density)),
                self.is_scattered_to(*old(self), rect, hit, miss, by_index, min_x as int, y as int),
            decreases max_y + 1 - y,
        {
            let mut x: i128 = min_x as i128;
            while x <= max_x as i128
                invariant
                    self.wf(),
                    density.valid(),
                    rect == (min_x, min_y, max_x, max_y),
                    words == chance::words_of(*old(rng)),
                    by_index == (|i: int| chance::roll_at(words, i, density)),
                    min_y <= y <= max_y,
                    min_x <= x,
                    x <= max_x + 1 || x == min_x,
                    0 <= k,
                    k == (if min_x <= max_x {
                        index_in(rect, x as int, y as int)
                    } else {
                        0
                    }),
                    chance::is_rest(chance::words_of(*rng), words, chance::words_used(k, density)),
                    self.is_scattered_to(
                        *old(self),
                        rect,
                        hit,
                        miss,
                        by_index,
                        x as int,
                        y as int,
                    ),
                decreases max_x + 1 - x,
            {
                let left: i128 = max_x as i128 - x + 1;
                let n: i128 = if left < BATCH {
                    left
                } else {
                    BATCH
                };
                let ghost now = chance::words_of(*rng);
                let ghost before = *self;
                let rolls = draw(rng, density, n as usize);
                let part = (x as i64, y as i64, (x + n - 1) as i64, y as i64);
                assert((part.3 - part.1 + 1) * (part.2 - part.0 + 1) == n) by (nonlinear_arith)
                    requires
                        part.1 == part.3,
                        part.2 - part.0 + 1 == n,
                ;
                self.scatter_with(part, hit, miss, rolls.as_slice());
                proof {
                    assert forall|u: int, v: int| #[trigger]
                        self.at(u, v) == (if in_quad(u, v, rect) && (v < y || (v == y && u < x + n)) {
                            outcome(old(self).at(u, v), hit, miss, by_index(index_in(rect, u, v)))
                        } else {
                            old(self).at(u, v)
                        }) by {
                        assert(before.at(u, v) == (if in_quad(u, v, rect) && (v < y || (v == y && u
                            < x)) {
                            outcome(old(self).at(u, v), hit, miss, by_index(index_in(rect, u, v)))
                        } else {
                            old(self).at(u, v)
                        }));
                        if in_quad(u, v, part) {
                            let j = u - x;
                            assert(index_in(part, u, v) == j);
                            assert(index_in(rect, u, v) == k + j);
                            assert(now[j] == words[j + chance::words_used(k, density)]);
                            assert(rolls@[j] == by_index(k + j));
                        }
                    }
                    assert forall|j: int| 0 <= j implies #[trigger] chance::words_of(*rng)[j]
                        == words[j + chance::words_used(k + n, density)] by {
                        assert(chance::words_of(*rng)[j] == now[j + chance::words_used(
                            n as int,
                            density,
                        )]);
                    }
                    k = k + n;
                }
                x = x + n;
            }
            proof {
                lemma_next_row(rect, y as int);
                assert forall|u: int, v: int| #[trigger]
                    self.at(u, v) == (if in_quad(u, v, rect) && (v < y + 1 || (v == y + 1 && u
                        < min_x)) {
                        outcome(old(self).at(u, v), hit, miss, by_index(index_in(rect, u, v)))
                    } else {
                        old(self).at(u, v)
                    }) by {}
            }
            y = y + 1;
        }
        proof {
            lemma_next_row(rect, max_y as int);
            assert(y == max_y + 1 || max_y < min_y);
        }
    }
}

/// The cells of a rectangle are counted row by row from its first corner: each
/// follows the one to its left, and the first of a row the last of the row
/// before. The count ends with the number of cells.
pub proof fn law_cells_are_counted_row_by_row(rect: (i64, i64, i64, i64), x: int, y: int)
    ensures
        in_quad(x, y, rect) <==> rect.0 <= x <= rect.2 && rect.1 <= y <= rect.3,
        index_in(rect, rect.0 as int, rect.1 as int) == 0,
        index_in(rect, x + 1, y) == index_in(rect, x, y) + 1,
        index_in(rect, rect.0 as int, y + 1) == index_in(rect, rect.2 as int, y) + 1,
        rect.0 <= rect.2 && rect.1 <= rect.3 ==> index_in(rect, rect.2 as int, rect.3 as int) + 1
            == area_of(rect),
        rect.0 > rect.2 || rect.1 > rect.3 ==> area_of(rect) == 0,
{
    lemma_next_row(rect, y);
    lemma_next_row(rect, rect.3 as int);
}

/// A roll that comes true puts down what was asked for, and one that does not
/// puts down the other thing, or leaves what was there if there is none.
pub proof fn law_outcomes(before: u8, hit: u8, miss: u8)
    ensures
        outcome(before, hit, Some(miss), true) == hit,
        outcome(before, hit, None, true) == hit,
        outcome(before, hit, Some(miss), false) == miss,
        outcome(before, hit, None, false) == before,
{
}

} // verus!
