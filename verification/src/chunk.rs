//! Sparse storage for an unbounded grid: dense square chunks, kept only
//! where something is stored.
use std::collections::{HashMap, HashSet};

use vstd::prelude::*;

verus! {

pub const CHUNK_SIZE: i64 = 64;

const CHUNK_AREA: usize = 4096;

/// The chunk coordinate that a world coordinate falls into.
pub open spec fn chunk_of(coord: int) -> int {
    coord / 64
}

/// Where in its chunk a world coordinate falls.
pub open spec fn local_of(coord: int) -> int {
    coord % 64
}

/// Split a world coordinate into (chunk coordinate, local coordinate).
pub fn split(coord: i64) -> (r: (i64, i64))
    ensures
        r.0 == chunk_of(coord as int),
        r.1 == local_of(coord as int),
        0 <= r.1 < CHUNK_SIZE,
        coord == r.0 * CHUNK_SIZE + r.1,
{
    let chunk = coord.checked_div_euclid(CHUNK_SIZE).unwrap();
    let local = coord.checked_rem_euclid(CHUNK_SIZE).unwrap();
    (chunk, local)
}

/// Where a chunk lies, counted in chunks.
#[derive(Clone, Copy, PartialEq, Eq, Hash, Debug, Structural)]
pub struct ChunkPos {
    pub x: i64,
    pub y: i64,
}

/// The map key of the chunk at `(x, y)`: both coordinates, moved up to be
/// non-negative, in one number.
spec fn key_of(x: int, y: int) -> int {
    (x + 0x8000_0000_0000_0000) * 0x1_0000_0000_0000_0000 + (y + 0x8000_0000_0000_0000)
}

spec fn is_i64(n: int) -> bool {
    i64::MIN <= n <= i64::MAX
}

proof fn lemma_key_injective(x: int, y: int, u: int, v: int)
    requires
        is_i64(x),
        is_i64(y),
        is_i64(u),
        is_i64(v),
        key_of(x, y) == key_of(u, v),
    ensures
        x == u,
        y == v,
{
}

impl ChunkPos {
    spec fn spec_key(self) -> u128 {
        key_of(self.x as int, self.y as int) as u128
    }

    fn key(self) -> (r: u128)
        ensures
            r == self.spec_key(),
            r == key_of(self.x as int, self.y as int),
    {
        let x: u128 = (self.x as i128 + 0x8000_0000_0000_0000) as u128;
        let y: u128 = (self.y as i128 + 0x8000_0000_0000_0000) as u128;
        x * 0x1_0000_0000_0000_0000 + y
    }

    fn from_key(key: u128) -> (r: Self)
        ensures
            key_of(r.x as int, r.y as int) == key,
    {
        let x: u128 = key / 0x1_0000_0000_0000_0000;
        let y: u128 = key % 0x1_0000_0000_0000_0000;
        ChunkPos {
            x: (x as i128 - 0x8000_0000_0000_0000) as i64,
            y: (y as i128 - 0x8000_0000_0000_0000) as i64,
        }
    }
}

/// The indices of the stored cells that are not blank.
spec fn filled(cells: Seq<u8>) -> Set<int> {
    Set::new(|i: int| 0 <= i < cells.len() && cells[i] != 0)
}

proof fn lemma_filled_finite(cells: Seq<u8>)
    ensures
        filled(cells).finite(),
        filled(cells).len() <= cells.len(),
{
    vstd::set_lib::lemma_int_range(0, cells.len() as int);
    vstd::set_lib::lemma_len_subset(filled(cells), vstd::set_lib::set_int_range(0, cells.len() as int));
}

/// A dense square of cells, where 0 is blank. Only chunks with cells that are
/// not blank are stored.
pub struct Chunk {
    cells: Vec<u8>,
    occupied: u32,
}

impl Chunk {
    pub closed spec fn wf(self) -> bool {
        &&& self.cells@.len() == CHUNK_AREA
        &&& self.occupied == filled(self.cells@).len()
    }

    /// The cell at a local position.
    pub closed spec fn cell(self, lx: int, ly: int) -> u8 {
        self.cells@[ly * 64 + lx]
    }

    pub fn new() -> (r: Self)
        ensures
            r.wf(),
            forall|lx: int, ly: int| 0 <= lx < 64 && 0 <= ly < 64 ==> #[trigger] r.cell(lx, ly) == 0,
            r.is_blank(),
    {
        let r = Chunk { cells: vec![0u8; CHUNK_AREA], occupied: 0 };
        assert(filled(r.cells@) =~= Set::empty());
        r
    }

    /// No cell of the chunk holds anything.
    pub closed spec fn is_blank(self) -> bool {
        self.occupied == 0
    }

    pub fn blank(&self) -> (r: bool)
        ensures
            r == self.is_blank(),
    {
        self.occupied == 0
    }

    pub fn get(&self, lx: i64, ly: i64) -> (r: u8)
        requires
            self.wf(),
            0 <= lx < CHUNK_SIZE,
            0 <= ly < CHUNK_SIZE,
        ensures
            r == self.cell(lx as int, ly as int),
    {
        self.cells[(ly * CHUNK_SIZE + lx) as usize]
    }

    pub fn set(&mut self, lx: i64, ly: i64, value: u8)
        requires
            old(self).wf(),
            0 <= lx < CHUNK_SIZE,
            0 <= ly < CHUNK_SIZE,
        ensures
            final(self).wf(),
            forall|x: int, y: int|
                0 <= x < 64 && 0 <= y < 64 ==> #[trigger] final(self).cell(x, y) == (if x == lx && y
                    == ly {
                    value
                } else {
                    old(self).cell(x, y)
                }),
    {
        let i: usize = (ly * CHUNK_SIZE + lx) as usize;
        let before = self.cells[i];
        proof {
            lemma_filled_finite(self.cells@);
            lemma_filled_finite(self.cells@.update(i as int, value));
            let now = filled(self.cells@.update(i as int, value));
            let then = filled(self.cells@);
            if before == 0 && value != 0 {
                assert(now =~= then.insert(i as int));
            } else if before != 0 && value == 0 {
                assert(now =~= then.remove(i as int));
            } else {
                assert(now =~= then);
            }
        }
        if before == 0 && value != 0 {
            self.occupied = self.occupied + 1;
        } else if before != 0 && value == 0 {
            self.occupied = self.occupied - 1;
        }
        self.cells.set(i, value);
    }
}

impl Chunk {
    /// A chunk is blank when each of its cells is.
    pub proof fn lemma_blank(self)
        requires
            self.wf(),
        ensures
            self.is_blank() <==> forall|lx: int, ly: int|
                0 <= lx < 64 && 0 <= ly < 64 ==> #[trigger] self.cell(lx, ly) == 0,
    {
        lemma_filled_finite(self.cells@);
        if self.is_blank() {
            assert forall|lx: int, ly: int| 0 <= lx < 64 && 0 <= ly < 64 implies #[trigger] self.cell(
                lx,
                ly,
            ) == 0 by {
                assert(!filled(self.cells@).contains(ly * 64 + lx));
            }
        } else {
            let i = filled(self.cells@).choose();
            assert(filled(self.cells@).contains(i));
            assert(self.cell(i % 64, i / 64) != 0);
        }
    }
}

/// An unbounded grid of cells, where 0 is blank. Blank space is not stored:
/// chunks are allocated when something is put in them and dropped when they
/// empty out.
pub struct SparseGrid {
    chunks: HashMap<u128, Chunk>,
}

impl View for SparseGrid {
    type V = Map<(int, int), u8>;

    open spec fn view(&self) -> Map<(int, int), u8> {
        Map::new(|p: (int, int)| self.at(p.0, p.1) != 0, |p: (int, int)| self.at(p.0, p.1))
    }
}

impl SparseGrid {
    spec fn stores(self, cx: int, cy: int) -> bool {
        is_i64(cx) && is_i64(cy) && self.chunks@.contains_key(key_of(cx, cy) as u128)
    }

    spec fn chunk_at(self, cx: int, cy: int) -> Chunk {
        self.chunks@[key_of(cx, cy) as u128]
    }

    /// What the cell at `(x, y)` holds.
    pub closed spec fn at(self, x: int, y: int) -> u8 {
        if self.stores(chunk_of(x), chunk_of(y)) {
            self.chunk_at(chunk_of(x), chunk_of(y)).cell(local_of(x), local_of(y))
        } else {
            0
        }
    }

    /// Only chunks that hold something are stored, and each counts what it
    /// holds.
    pub closed spec fn wf(self) -> bool {
        forall|key: u128| #[trigger]
            self.chunks@.contains_key(key) ==> self.chunks@[key].wf() && !self.chunks@[key].is_blank()
    }

    pub fn new() -> (r: Self)
        ensures
            r.wf(),
            r@ == Map::<(int, int), u8>::empty(),
    {
        let r = SparseGrid { chunks: HashMap::new() };
        assert(r@ =~= Map::<(int, int), u8>::empty());
        r
    }

    pub fn clear(&mut self)
        ensures
            final(self).wf(),
            final(self)@ == Map::<(int, int), u8>::empty(),
    {
        self.chunks.clear();
        assert(self@ =~= Map::<(int, int), u8>::empty());
    }

    pub fn get(&self, x: i64, y: i64) -> (r: u8)
        requires
            self.wf(),
        ensures
            r == self.at(x as int, y as int),
    {
        let (cx, lx) = split(x);
        let (cy, ly) = split(y);
        match self.chunks.get(&ChunkPos { x: cx, y: cy }.key()) {
            Some(chunk) => chunk.get(lx, ly),
            None => 0,
        }
    }

    pub fn set(&mut self, x: i64, y: i64, value: u8)
        requires
            old(self).wf(),
        ensures
            final(self).wf(),
            forall|u: int, v: int| #[trigger]
                final(self).at(u, v) == (if u == x && v == y {
                    value
                } else {
                    old(self).at(u, v)
                }),
            final(self)@ == (if value == 0 {
                old(self)@.remove((x as int, y as int))
            } else {
                old(self)@.insert((x as int, y as int), value)
            }),
    {
        let (cx, lx) = split(x);
        let (cy, ly) = split(y);
        let key = ChunkPos { x: cx, y: cy }.key();
        let mut chunk = match self.chunks.remove(&key) {
            Some(chunk) => chunk,
            None => {
                if value == 0 {
                    // Never allocate a chunk just to store a blank cell.
                    proof {
                        assert(self.chunks@ =~= old(self).chunks@);
                        assert(self@ =~= old(self)@.remove((x as int, y as int)));
                    }
                    return ;
                }
                Chunk::new()
            },
        };
        chunk.set(lx, ly, value);
        proof {
            chunk.lemma_blank();
        }
        let ghost updated = chunk;
        if !chunk.blank() {
            self.chunks.insert(key, chunk);
        }
        proof {
            assert forall|u: int, v: int| #[trigger]
                self.at(u, v) == (if u == x && v == y {
                    value
                } else {
                    old(self).at(u, v)
                }) by {
                let (du, dv) = (chunk_of(u), chunk_of(v));
                if is_i64(du) && is_i64(dv) {
                    if key_of(du, dv) as u128 == key {
                        lemma_key_injective(du, dv, cx as int, cy as int);
                        let now = updated.cell(local_of(u), local_of(v));
                        if self.stores(du, dv) {
                            assert(self.at(u, v) == now);
                        } else {
                            assert(now == 0);
                        }
                        if old(self).stores(du, dv) {
                            assert(old(self).chunk_at(du, dv).cell(local_of(u), local_of(v))
                                == old(self).at(u, v));
                        }
                    } else {
                        assert(self.stores(du, dv) == old(self).stores(du, dv));
                    }
                }
            }
            assert(self@ =~= (if value == 0 {
                old(self)@.remove((x as int, y as int))
            } else {
                old(self)@.insert((x as int, y as int), value)
            }));
        }
    }
}

impl Clone for Chunk {
    fn clone(&self) -> (r: Self)
        ensures
            r.wf() == self.wf(),
            r.is_blank() == self.is_blank(),
            forall|lx: int, ly: int| #[trigger] r.cell(lx, ly) == self.cell(lx, ly),
    {
        let r = Chunk { cells: self.cells.clone(), occupied: self.occupied };
        assert(r.cells@ =~= self.cells@);
        r
    }
}

impl Clone for SparseGrid {
    fn clone(&self) -> (r: Self)
        ensures
            r.wf() == self.wf(),
            r@ == self@,
            forall|x: int, y: int| #[trigger] r.at(x, y) == self.at(x, y),
    {
        let r = SparseGrid { chunks: self.chunks.clone() };
        assert(r@ =~= self@);
        assert forall|key: u128| r.wf() && #[trigger] self.chunks@.contains_key(key) implies
            self.chunks@[key].wf() && !self.chunks@[key].is_blank() by {
            assert(r.chunks@.contains_key(key));
        }
        r
    }
}

/// The positions of a chunk, by the chunk's coordinates and the cell's index.
spec fn place(cx: int, cy: int, i: int) -> (int, int) {
    (cx * 64 + i % 64, cy * 64 + i / 64)
}

impl SparseGrid {
    /// The positions that hold something and lie in chunks whose keys are in
    /// `keys`.
    spec fn held_in(self, keys: Set<u128>) -> Set<(int, int)> {
        Set::new(
            |p: (int, int)|
                self.at(p.0, p.1) != 0 && keys.contains(
                    key_of(chunk_of(p.0), chunk_of(p.1)) as u128,
                ),
        )
    }

    /// One more chunk adds as many positions as it counts.
    proof fn lemma_held_insert(self, keys: Set<u128>, pos: ChunkPos)
        requires
            self.wf(),
            self.chunks@.contains_key(pos.spec_key()),
            !keys.contains(pos.spec_key()),
            self.held_in(keys).finite(),
        ensures
            self.held_in(keys.insert(pos.spec_key())).finite(),
            self.held_in(keys.insert(pos.spec_key())).len() == self.held_in(keys).len()
                + self.chunks@[pos.spec_key()].occupied,
    {
        let key = pos.spec_key();
        let chunk = self.chunks@[key];
        let (cx, cy) = (pos.x as int, pos.y as int);
        let slots = filled(chunk.cells@);
        let f = |i: int| place(cx, cy, i);
        let here = slots.map(f);
        lemma_filled_finite(chunk.cells@);
        assert(vstd::relations::injective_on(f, slots));
        vstd::set_lib::lemma_map_size(slots, here, f);
        let rest = self.held_in(keys);
        assert forall|p: (int, int)| here.contains(p) <==> self.at(p.0, p.1) != 0 && chunk_of(p.0)
            == cx && chunk_of(p.1) == cy by {
            if here.contains(p) {
                let i = choose|i: int| slots.contains(i) && p == f(i);
                assert(chunk.cell(i % 64, i / 64) == chunk.cells@[i]);
            }
            if self.at(p.0, p.1) != 0 && chunk_of(p.0) == cx && chunk_of(p.1) == cy {
                let i = local_of(p.1) * 64 + local_of(p.0);
                assert(slots.contains(i));
                assert(f(i) == p);
            }
        }
        assert(self.held_in(keys.insert(key)) =~= rest + here) by {
            assert forall|p: (int, int)|
                self.held_in(keys.insert(key)).contains(p) <==> (rest + here).contains(p) by {
                let (dx, dy) = (chunk_of(p.0), chunk_of(p.1));
                if self.at(p.0, p.1) != 0 && key_of(dx, dy) as u128 == key {
                    lemma_key_injective(dx, dy, cx, cy);
                }
            }
        }
        assert(rest.disjoint(here));
        vstd::set_lib::lemma_set_disjoint_lens(rest, here);
    }

    proof fn lemma_held_finite(self, keys: Set<u128>)
        requires
            self.wf(),
            keys.finite(),
            keys.subset_of(self.chunks@.dom()),
        ensures
            self.held_in(keys).finite(),
        decreases keys.len(),
    {
        if keys.len() == 0 {
            assert(self.held_in(keys) =~= Set::empty());
        } else {
            let key = keys.choose();
            let rest = keys.remove(key);
            self.lemma_held_finite(rest);
            let pos = lemma_key_onto(key);
            self.lemma_held_insert(rest, pos);
            assert(rest.insert(key) =~= keys);
        }
    }

    /// A grid holds finitely many things.
    pub proof fn lemma_finite(self)
        requires
            self.wf(),
        ensures
            self@.dom().finite(),
    {
        self.lemma_held_finite(self.chunks@.dom());
        assert(self@.dom() =~= self.held_in(self.chunks@.dom()));
    }

    /// How many cells hold something.
    pub fn population(&self) -> (r: u64)
        requires
            self.wf(),
            self@.dom().len() <= u64::MAX,
        ensures
            r == self@.dom().len(),
    {
        match self.count() {
            Some(total) => total,
            None => 0,
        }
    }

    /// How many cells hold something, if they can be counted.
    pub fn count(&self) -> (r: Option<u64>)
        requires
            self.wf(),
        ensures
            match r {
                Some(total) => total == self@.dom().len(),
                None => self@.dom().len() > u64::MAX,
            },
    {
        let mut total: u64 = 0;
        assert(self.held_in(Set::empty()) =~= Set::empty());
        assert(self@.dom() =~= self.held_in(self.chunks@.dom()));
        proof {
            assert forall|s: Seq<u128>| #[trigger] s.take(0).to_set() == Set::<u128>::empty() by {
                assert(s.take(0).to_set() =~= Set::<u128>::empty());
            }
            assert forall|s: Seq<u128>, n: int| n == s.len() implies #[trigger] s.take(n) == s by {
                assert(s.take(n) =~= s);
            }
            self.lemma_finite();
        }
        for key in it: self.chunks.keys()
            invariant
                self.wf(),
                self@.dom() == self.held_in(self.chunks@.dom()),
                self@.dom().finite(),
                it.seq().unref().to_set() == self.chunks@.dom(),
                it.seq().no_duplicates(),
                self.held_in(it.seq().unref().take(it.index()).to_set()).finite(),
                total == self.held_in(it.seq().unref().take(it.index()).to_set()).len(),
        {
            let ghost keys = it.seq().unref();
            let ghost before = keys.take(it.index()).to_set();
            let ghost after = keys.take(it.index() + 1).to_set();
            assert(keys[it.index()] == *key);
            proof {
                let pos = lemma_key_onto(*key);
                lemma_take_to_set(keys, it.index());
                assert(self.chunks@.dom().contains(*key));
                self.lemma_held_insert(before, pos);
                assert(self.held_in(after).subset_of(self@.dom()));
                vstd::set_lib::lemma_len_subset(self.held_in(after), self@.dom());
            }
            match self.chunks.get(key) {
                Some(chunk) => match total.checked_add(chunk.occupied as u64) {
                    Some(sum) => {
                        total = sum;
                    },
                    None => {
                        return None;
                    },
                },
                None => {},
            }
        }
        Some(total)
    }
}

proof fn lemma_take_to_set<T>(s: Seq<T>, n: int)
    requires
        0 <= n < s.len(),
        s.no_duplicates(),
    ensures
        s.take(n + 1).to_set() == s.take(n).to_set().insert(s[n]),
        !s.take(n).to_set().contains(s[n]),
{
    assert forall|t: T| s.take(n + 1).to_set().contains(t) <==> s.take(n).to_set().insert(
        s[n],
    ).contains(t) by {
        let longer = s.take(n + 1);
        if longer.contains(t) {
            let i = choose|i: int| 0 <= i < longer.len() && longer[i] == t;
            if i < n {
                assert(s.take(n)[i] == t);
            }
        }
        if s.take(n).contains(t) {
            let i = choose|i: int| 0 <= i < n && s.take(n)[i] == t;
            assert(longer[i] == t);
        }
        assert(longer[n] == s[n]);
    }
    assert(s.take(n + 1).to_set() =~= s.take(n).to_set().insert(s[n]));
}

/// Every key is that of a chunk position.
proof fn lemma_key_onto(key: u128) -> (pos: ChunkPos)
    ensures
        pos.spec_key() == key,
        key_of(pos.x as int, pos.y as int) == key,
{
    let x: int = key as int / 0x1_0000_0000_0000_0000;
    let y: int = key as int % 0x1_0000_0000_0000_0000;
    ChunkPos { x: (x - 0x8000_0000_0000_0000) as i64, y: (y - 0x8000_0000_0000_0000) as i64 }
}

/// The chunks that hold something, by their coordinates.
pub open spec fn occupied_chunks(cells: Set<(int, int)>) -> Set<(int, int)> {
    cells.map(|p: (int, int)| (chunk_of(p.0), chunk_of(p.1)))
}

/// The coordinates of the chunk with the given key.
spec fn unkey(key: u128) -> (int, int) {
    (
        key as int / 0x1_0000_0000_0000_0000 - 0x8000_0000_0000_0000,
        key as int % 0x1_0000_0000_0000_0000 - 0x8000_0000_0000_0000,
    )
}

impl SparseGrid {
    /// The stored chunks are those that hold something.
    proof fn lemma_stored(self, cx: int, cy: int)
        requires
            self.wf(),
        ensures
            self.stores(cx, cy) <==> occupied_chunks(self@.dom()).contains((cx, cy)),
    {
        let f = |p: (int, int)| (chunk_of(p.0), chunk_of(p.1));
        if self.stores(cx, cy) {
            let chunk = self.chunk_at(cx, cy);
            chunk.lemma_blank();
            let (lx, ly) = choose|lx: int, ly: int|
                0 <= lx < 64 && 0 <= ly < 64 && #[trigger] chunk.cell(lx, ly) != 0;
            let p = (cx * 64 + lx, cy * 64 + ly);
            assert(local_of(p.0) == lx && local_of(p.1) == ly);
            assert(self.at(p.0, p.1) != 0);
            assert(self@.dom().contains(p) && f(p) == (cx, cy));
        }
        if occupied_chunks(self@.dom()).contains((cx, cy)) {
            let p = choose|p: (int, int)| self@.dom().contains(p) && (cx, cy) == f(p);
            assert(self.at(p.0, p.1) != 0);
        }
    }

    /// How many chunks are stored.
    pub fn chunk_count(&self) -> (r: usize)
        requires
            self.wf(),
        ensures
            r == occupied_chunks(self@.dom()).len(),
    {
        proof {
            let keys = self.chunks@.dom();
            let f = |key: u128| unkey(key);
            let places = occupied_chunks(self@.dom());
            assert forall|key: u128| #[trigger] keys.contains(key) implies self.stores(
                unkey(key).0,
                unkey(key).1,
            ) by {
                assert(key_of(unkey(key).0, unkey(key).1) == key);
            }
            assert(keys.map(f) =~= places) by {
                assert forall|c: (int, int)| keys.map(f).contains(c) <==> places.contains(c) by {
                    self.lemma_stored(c.0, c.1);
                    if keys.map(f).contains(c) {
                        let key = choose|key: u128| keys.contains(key) && c == f(key);
                        assert(self.stores(c.0, c.1));
                    }
                    if places.contains(c) {
                        let key = key_of(c.0, c.1) as u128;
                        assert(keys.contains(key) && f(key) == c);
                    }
                }
            }
            assert(vstd::relations::injective_on(f, keys));
            vstd::set_lib::lemma_map_size(keys, places, f);
        }
        self.chunks.len()
    }

    /// Where the stored chunks lie, in no particular order.
    pub fn positions(&self) -> (r: Vec<ChunkPos>)
        requires
            self.wf(),
        ensures
            forall|i: int| 0 <= i < r@.len() ==> occupied_chunks(self@.dom()).contains(
                (#[trigger] r@[i].x as int, r@[i].y as int),
            ),
            forall|cx: int, cy: int| #[trigger] occupied_chunks(self@.dom()).contains((cx, cy)) ==>
                exists|i: int| 0 <= i < r@.len() && #[trigger] r@[i].x == cx && r@[i].y == cy,
    {
        let mut out: Vec<ChunkPos> = Vec::new();
        proof {
            assert forall|s: Seq<u128>, key: u128| #[trigger] s.to_set().contains(key) implies exists|
                i: int,
            | 0 <= i < s.len() && #[trigger] s[i] == key by {
                assert(s.contains(key));
            }
        }
        for key in it: self.chunks.keys()
            invariant
                self.wf(),
                it.seq().unref().to_set() == self.chunks@.dom(),
                out@.len() == it.index(),
                forall|key: u128| #[trigger]
                    self.chunks@.dom().contains(key) ==> exists|i: int|
                        0 <= i < it.seq().len() && #[trigger] it.seq().unref()[i] == key,
                forall|i: int|
                    #![trigger out@[i]]
                    #![trigger it.seq().unref()[i]]
                    0 <= i < out@.len() ==> key_of(out@[i].x as int, out@[i].y as int)
                        == it.seq().unref()[i],
        {
            out.push(ChunkPos::from_key(*key));
        }
        proof {
            let keys = self.chunks@.dom();
            assert forall|i: int| 0 <= i < out@.len() implies occupied_chunks(self@.dom()).contains(
                (#[trigger] out@[i].x as int, out@[i].y as int),
            ) by {
                self.lemma_stored(out@[i].x as int, out@[i].y as int);
            }
            assert forall|cx: int, cy: int| #[trigger] occupied_chunks(self@.dom()).contains(
                (cx, cy),
            ) implies exists|i: int|
                0 <= i < out@.len() && #[trigger] out@[i].x == cx && out@[i].y == cy by {
                self.lemma_stored(cx, cy);
                let key = key_of(cx, cy) as u128;
                assert(keys.contains(key));
                let i = choose|i: int|
                    0 <= i < out@.len() && key_of(#[trigger] out@[i].x as int, out@[i].y as int)
                        == key;
                lemma_key_injective(cx, cy, out@[i].x as int, out@[i].y as int);
            }
        }
        out
    }
}

impl SparseGrid {
    /// The chunk at `pos`, where one is stored.
    pub fn chunk(&self, pos: ChunkPos) -> (r: Option<&Chunk>)
        requires
            self.wf(),
        ensures
            match r {
                Some(chunk) => chunk.wf() && forall|lx: int, ly: int|
                    0 <= lx < 64 && 0 <= ly < 64 ==> #[trigger] chunk.cell(lx, ly) == self.at(
                        pos.x * 64 + lx,
                        pos.y * 64 + ly,
                    ),
                None => forall|x: int, y: int|
                    chunk_of(x) == pos.x && chunk_of(y) == pos.y ==> #[trigger] self.at(x, y) == 0,
            },
    {
        let r = self.chunks.get(&pos.key());
        proof {
            if let Some(chunk) = r {
                assert forall|lx: int, ly: int| 0 <= lx < 64 && 0 <= ly < 64 implies
                    #[trigger] chunk.cell(lx, ly) == self.at(pos.x * 64 + lx, pos.y * 64 + ly) by {
                    assert(local_of(pos.x * 64 + lx) == lx && chunk_of(pos.x * 64 + lx) == pos.x);
                    assert(local_of(pos.y * 64 + ly) == ly && chunk_of(pos.y * 64 + ly) == pos.y);
                }
            }
        }
        r
    }

    /// Store a whole chunk at `pos`, in place of what was there.
    pub fn put_chunk(&mut self, pos: ChunkPos, chunk: Chunk)
        requires
            old(self).wf(),
            chunk.wf(),
            !chunk.is_blank(),
        ensures
            final(self).wf(),
            forall|x: int, y: int| #[trigger]
                final(self).at(x, y) == (if chunk_of(x) == pos.x && chunk_of(y) == pos.y {
                    chunk.cell(local_of(x), local_of(y))
                } else {
                    old(self).at(x, y)
                }),
    {
        let key = pos.key();
        self.chunks.insert(key, chunk);
        proof {
            assert forall|x: int, y: int| #[trigger]
                self.at(x, y) == (if chunk_of(x) == pos.x && chunk_of(y) == pos.y {
                    chunk.cell(local_of(x), local_of(y))
                } else {
                    old(self).at(x, y)
                }) by {
                let (cx, cy) = (chunk_of(x), chunk_of(y));
                if is_i64(cx) && is_i64(cy) && key_of(cx, cy) as u128 == key {
                    lemma_key_injective(cx, cy, pos.x as int, pos.y as int);
                }
            }
        }
    }
}

/// Comes before in a scan: chunk rows first, then chunks from left to right,
/// then the rows of a chunk, then its cells from left to right.
pub open spec fn scan_before(x: int, y: int, u: int, v: int) -> bool {
    ||| chunk_of(y) < chunk_of(v)
    ||| chunk_of(y) == chunk_of(v) && chunk_of(x) < chunk_of(u)
    ||| chunk_of(y) == chunk_of(v) && chunk_of(x) == chunk_of(u) && y < v
    ||| chunk_of(y) == chunk_of(v) && chunk_of(x) == chunk_of(u) && y == v && x < u
}

/// `(x, y)` lies in the rectangle with the given inclusive corners.
pub open spec fn in_rect(x: int, y: int, min_x: int, min_y: int, max_x: int, max_y: int) -> bool {
    min_x <= x <= max_x && min_y <= y <= max_y
}

/// `out` lists in scan order what `cells` holds at positions in the rectangle.
pub open spec fn lists_rect(
    out: Seq<(i64, i64, u8)>,
    cells: Map<(int, int), u8>,
    min_x: int,
    min_y: int,
    max_x: int,
    max_y: int,
) -> bool {
    &&& forall|i: int|
        #![trigger out[i]]
        0 <= i < out.len() ==> in_rect(out[i].0 as int, out[i].1 as int, min_x, min_y, max_x, max_y)
            && cells.contains_pair((out[i].0 as int, out[i].1 as int), out[i].2)
    &&& forall|x: int, y: int| #[trigger]
        cells.dom().contains((x, y)) && in_rect(x, y, min_x, min_y, max_x, max_y) ==> exists|i: int|
            0 <= i < out.len() && (#[trigger] out[i]).0 == x && out[i].1 == y
    &&& forall|i: int, j: int|
        0 <= i < j < out.len() ==> scan_before(
            (#[trigger] out[i]).0 as int,
            out[i].1 as int,
            (#[trigger] out[j]).0 as int,
            out[j].1 as int,
        )
}

impl SparseGrid {
    /// `out` lists in scan order what lies in the rectangle and before `(u, v)`.
    spec fn listed_before(
        self,
        out: Seq<(i64, i64, u8)>,
        rect: (int, int, int, int),
        u: int,
        v: int,
    ) -> bool {
        &&& forall|i: int|
            #![trigger out[i]]
            0 <= i < out.len() ==> {
                &&& in_rect(out[i].0 as int, out[i].1 as int, rect.0, rect.1, rect.2, rect.3)
                &&& self.at(out[i].0 as int, out[i].1 as int) == out[i].2
                &&& out[i].2 != 0
                &&& scan_before(out[i].0 as int, out[i].1 as int, u, v)
            }
        &&& forall|x: int, y: int|
            #![trigger self.at(x, y)]
            self.at(x, y) != 0 && in_rect(x, y, rect.0, rect.1, rect.2, rect.3) && scan_before(
                x,
                y,
                u,
                v,
            ) ==> exists|i: int| 0 <= i < out.len() && (#[trigger] out[i]).0 == x && out[i].1 == y
        &&& forall|i: int, j: int|
            0 <= i < j < out.len() ==> scan_before(
                (#[trigger] out[i]).0 as int,
                out[i].1 as int,
                (#[trigger] out[j]).0 as int,
                out[j].1 as int,
            )
    }

    /// Nothing of the rectangle lies from `(u, v)` up to `(x, y)`.
    proof fn lemma_skip(
        self,
        out: Seq<(i64, i64, u8)>,
        rect: (int, int, int, int),
        u: int,
        v: int,
        x: int,
        y: int,
    )
        requires
            self.listed_before(out, rect, u, v),
            !scan_before(x, y, u, v),
            forall|a: int, b: int|
                #![trigger self.at(a, b)]
                !scan_before(a, b, u, v) && scan_before(a, b, x, y) && in_rect(
                    a,
                    b,
                    rect.0,
                    rect.1,
                    rect.2,
                    rect.3,
                ) ==> self.at(a, b) == 0,
        ensures
            self.listed_before(out, rect, x, y),
    {
    }

    /// Add to `out` what the chunk at `pos` holds in the rectangle.
    fn list_chunk(
        &self,
        chunk: &Chunk,
        pos: ChunkPos,
        min_x: i64,
        min_y: i64,
        max_x: i64,
        max_y: i64,
        out: &mut Vec<(i64, i64, u8)>,
    )
        requires
            self.wf(),
            chunk.wf(),
            -0x200_0000_0000_0000 <= pos.x < 0x200_0000_0000_0000,
            -0x200_0000_0000_0000 <= pos.y < 0x200_0000_0000_0000,
            forall|lx: int, ly: int|
                0 <= lx < 64 && 0 <= ly < 64 ==> #[trigger] chunk.cell(lx, ly) == self.at(
                    pos.x * 64 + lx,
                    pos.y * 64 + ly,
                ),
            self.listed_before(
                old(out)@,
                (min_x as int, min_y as int, max_x as int, max_y as int),
                pos.x * 64,
                pos.y * 64,
            ),
        ensures
            self.listed_before(
                final(out)@,
                (min_x as int, min_y as int, max_x as int, max_y as int),
                (pos.x + 1) * 64,
                pos.y * 64,
            ),
    {
        let ghost rect = (min_x as int, min_y as int, max_x as int, max_y as int);
        let base_x: i64 = pos.x * CHUNK_SIZE;
        let base_y: i64 = pos.y * CHUNK_SIZE;
        let mut ly: i64 = 0;
        while ly < CHUNK_SIZE
            invariant
                self.wf(),
                chunk.wf(),
                -0x200_0000_0000_0000 <= pos.x < 0x200_0000_0000_0000,
                -0x200_0000_0000_0000 <= pos.y < 0x200_0000_0000_0000,
                base_x == pos.x * 64,
                base_y == pos.y * 64,
                rect == (min_x as int, min_y as int, max_x as int, max_y as int),
                forall|lx: int, ly: int|
                    0 <= lx < 64 && 0 <= ly < 64 ==> #[trigger] chunk.cell(lx, ly) == self.at(
                        pos.x * 64 + lx,
                        pos.y * 64 + ly,
                    ),
                0 <= ly <= 64,
                ly < 64 ==> self.listed_before(out@, rect, base_x as int, base_y + ly),
                ly == 64 ==> self.listed_before(out@, rect, base_x + 64, base_y as int),
            decreases 64 - ly,
        {
            let y: i64 = base_y + ly;
            if min_y <= y && y <= max_y {
                let mut lx: i64 = 0;
                while lx < CHUNK_SIZE
                    invariant
                        self.wf(),
                        chunk.wf(),
                        -0x200_0000_0000_0000 <= pos.x < 0x200_0000_0000_0000,
                        -0x200_0000_0000_0000 <= pos.y < 0x200_0000_0000_0000,
                        base_x == pos.x * 64,
                        base_y == pos.y * 64,
                        0 <= ly < 64,
                        y == base_y + ly,
                        min_y <= y <= max_y,
                        rect == (min_x as int, min_y as int, max_x as int, max_y as int),
                        forall|lx: int, ly: int|
                            0 <= lx < 64 && 0 <= ly < 64 ==> #[trigger] chunk.cell(lx, ly)
                                == self.at(pos.x * 64 + lx, pos.y * 64 + ly),
                        0 <= lx <= 64,
                        lx < 64 ==> self.listed_before(out@, rect, base_x + lx, y as int),
                        lx == 64 && ly < 63 ==> self.listed_before(out@, rect, base_x as int, y + 1),
                        lx == 64 && ly == 63 ==> self.listed_before(
                            out@,
                            rect,
                            base_x + 64,
                            base_y as int,
                        ),
                    decreases 64 - lx,
                {
                    let x: i64 = base_x + lx;
                    let value = chunk.get(lx, ly);
                    let ghost before = out@;
                    if min_x <= x && x <= max_x && value != 0 {
                        out.push((x, y, value));
                    }
                    lx = lx + 1;
                    proof {
                        let (u, v) = if lx < 64 {
                            (base_x + lx, y as int)
                        } else if ly < 63 {
                            (base_x as int, y + 1)
                        } else {
                            (base_x + 64, base_y as int)
                        };
                        self.lemma_list_one(before, rect, x, y, value, u, v);
                    }
                }
            } else {
                proof {
                    let (u, v) = if ly < 63 {
                        (base_x as int, y + 1)
                    } else {
                        (base_x + 64, base_y as int)
                    };
                    assert forall|a: int, b: int|
                        #![trigger self.at(a, b)]
                        !scan_before(a, b, base_x as int, y as int) && scan_before(a, b, u, v)
                            && in_rect(a, b, rect.0, rect.1, rect.2, rect.3) implies self.at(a, b)
                        == 0 by {}
                    self.lemma_skip(out@, rect, base_x as int, y as int, u, v);
                }
            }
            ly = ly + 1;
        }
    }

    /// Listing one cell: from a list of what comes before `(x, y)` to one of
    /// what comes before its successor `(u, v)`.
    proof fn lemma_list_one(
        self,
        out: Seq<(i64, i64, u8)>,
        rect: (int, int, int, int),
        x: i64,
        y: i64,
        value: u8,
        u: int,
        v: int,
    )
        requires
            self.listed_before(out, rect, x as int, y as int),
            value == self.at(x as int, y as int),
            scan_before(x as int, y as int, u, v),
            forall|a: int, b: int| #[trigger]
                scan_before(a, b, u, v) ==> scan_before(a, b, x as int, y as int) || (a == x && b
                    == y),
        ensures
            self.listed_before(
                if value != 0 && in_rect(x as int, y as int, rect.0, rect.1, rect.2, rect.3) {
                    out.push((x, y, value))
                } else {
                    out
                },
                rect,
                u,
                v,
            ),
    {
        let now = if value != 0 && in_rect(x as int, y as int, rect.0, rect.1, rect.2, rect.3) {
            out.push((x, y, value))
        } else {
            out
        };
        assert forall|a: int, b: int|
            #![trigger self.at(a, b)]
            self.at(a, b) != 0 && in_rect(a, b, rect.0, rect.1, rect.2, rect.3) && scan_before(
                a,
                b,
                u,
                v,
            ) implies exists|i: int| 0 <= i < now.len() && (#[trigger] now[i]).0 == a && now[i].1
            == b by {
            if a == x && b == y {
                assert(now[now.len() - 1].0 == a);
            } else {
                let i = choose|i: int|
                    0 <= i < out.len() && (#[trigger] out[i]).0 == a && out[i].1 == b;
                assert(now[i].0 == a);
            }
        }
    }
}

impl SparseGrid {
    /// All cells that hold something inside the (inclusive) rectangle, in
    /// scan order.
    pub fn cells_in(&self, min_x: i64, min_y: i64, max_x: i64, max_y: i64) -> (r: Vec<(i64, i64, u8)>)
        requires
            self.wf(),
        ensures
            lists_rect(r@, self@, min_x as int, min_y as int, max_x as int, max_y as int),
    {
        let ghost rect = (min_x as int, min_y as int, max_x as int, max_y as int);
        let mut out: Vec<(i64, i64, u8)> = Vec::new();
        let (cx0, _) = split(min_x);
        let (cx1, _) = split(max_x);
        let (cy0, _) = split(min_y);
        let (cy1, _) = split(max_y);
        let mut cy: i64 = cy0;
        while cy <= cy1
            invariant
                self.wf(),
                rect == (min_x as int, min_y as int, max_x as int, max_y as int),
                cx0 == chunk_of(min_x as int),
                cx1 == chunk_of(max_x as int),
                cy0 == chunk_of(min_y as int),
                cy1 == chunk_of(max_y as int),
                cy0 <= cy,
                cy <= cy1 + 1 || cy == cy0,
                self.listed_before(out@, rect, cx0 * 64, cy * 64),
            decreases cy1 + 1 - cy,
        {
            let mut cx: i64 = cx0;
            while cx <= cx1
                invariant
                    self.wf(),
                    rect == (min_x as int, min_y as int, max_x as int, max_y as int),
                    cx0 == chunk_of(min_x as int),
                    cx1 == chunk_of(max_x as int),
                    cy0 == chunk_of(min_y as int),
                    cy1 == chunk_of(max_y as int),
                    cx0 <= cx,
                    cx <= cx1 + 1 || cx == cx0,
                    cy0 <= cy <= cy1,
                    self.listed_before(out@, rect, cx * 64, cy * 64),
                decreases cx1 + 1 - cx,
            {
                let pos = ChunkPos { x: cx, y: cy };
                match self.chunk(pos) {
                    Some(chunk) => {
                        self.list_chunk(chunk, pos, min_x, min_y, max_x, max_y, &mut out);
                    },
                    None => {
                        proof {
                            self.lemma_skip(out@, rect, cx * 64, cy * 64, (cx + 1) * 64, cy * 64);
                        }
                    },
                }
                cx = cx + 1;
            }
            proof {
                self.lemma_skip(out@, rect, cx * 64, cy * 64, cx0 * 64, (cy + 1) * 64);
            }
            cy = cy + 1;
        }
        proof {
            assert forall|x: int, y: int| #[trigger]
                self@.dom().contains((x, y)) && in_rect(
                    x,
                    y,
                    rect.0,
                    rect.1,
                    rect.2,
                    rect.3,
                ) implies exists|i: int|
                0 <= i < out@.len() && (#[trigger] out@[i]).0 == x && out@[i].1 == y by {
                assert(self.at(x, y) != 0);
            }
        }
        out
    }
}

/// Within one chunk of a chunk that holds something.
pub open spec fn near_occupied(cells: Set<(int, int)>, cx: int, cy: int) -> bool {
    exists|c: (int, int)| #[trigger]
        occupied_chunks(cells).contains(c) && -1 <= c.0 - cx <= 1 && -1 <= c.1 - cy <= 1
}

impl SparseGrid {
    /// The stored chunks and their eight neighbors, each once.
    pub fn around(&self) -> (r: Vec<ChunkPos>)
        requires
            self.wf(),
            forall|c: (int, int)| #[trigger]
                occupied_chunks(self@.dom()).contains(c) ==> i64::MIN < c.0 < i64::MAX && i64::MIN
                    < c.1 < i64::MAX,
        ensures
            forall|i: int| 0 <= i < r@.len() ==> near_occupied(
                self@.dom(),
                (#[trigger] r@[i]).x as int,
                r@[i].y as int,
            ),
            forall|cx: int, cy: int| #[trigger] near_occupied(self@.dom(), cx, cy) ==> exists|i: int|
                0 <= i < r@.len() && (#[trigger] r@[i]).x == cx && r@[i].y == cy,
            forall|i: int, j: int| 0 <= i < j < r@.len() ==> #[trigger] r@[i] != #[trigger] r@[j],
    {
        let ghost cells = self@.dom();
        let positions = self.positions();
        let mut seen: HashSet<u128> = HashSet::new();
        let mut out: Vec<ChunkPos> = Vec::new();
        let mut n: usize = 0;
        while n < positions.len()
            invariant
                cells == self@.dom(),
                forall|c: (int, int)| #[trigger]
                    occupied_chunks(cells).contains(c) ==> i64::MIN < c.0 < i64::MAX && i64::MIN
                        < c.1 < i64::MAX,
                forall|i: int| 0 <= i < positions@.len() ==> occupied_chunks(cells).contains(
                    (#[trigger] positions@[i].x as int, positions@[i].y as int),
                ),
                n <= positions@.len(),
                Self::gathered(cells, out@, seen@),
                Self::surrounds(out@, positions@.take(n as int)),
            decreases positions@.len() - n,
        {
            let pos = positions[n];
            assert(occupied_chunks(cells).contains((pos.x as int, pos.y as int)));
            let mut dy: i64 = -1;
            while dy <= 1
                invariant
                    cells == self@.dom(),
                    occupied_chunks(cells).contains((pos.x as int, pos.y as int)),
                    i64::MIN < pos.x < i64::MAX,
                    i64::MIN < pos.y < i64::MAX,
                    n < positions@.len(),
                    pos == positions@[n as int],
                    -1 <= dy <= 2,
                    Self::gathered(cells, out@, seen@),
                    Self::surrounds(out@, positions@.take(n as int)),
                    forall|cx: int, cy: int|
                            -1 <= cx - pos.x <= 1 && -1 <= cy - pos.y < dy ==> #[trigger] Self::has(
                                out@,
                                cx,
                                cy,
                            ),
                decreases 2 - dy,
            {
                let mut dx: i64 = -1;
                while dx <= 1
                    invariant
                        cells == self@.dom(),
                        occupied_chunks(cells).contains((pos.x as int, pos.y as int)),
                        i64::MIN < pos.x < i64::MAX,
                        i64::MIN < pos.y < i64::MAX,
                        n < positions@.len(),
                        pos == positions@[n as int],
                        -1 <= dy <= 1,
                        -1 <= dx <= 2,
                        Self::gathered(cells, out@, seen@),
                        Self::surrounds(out@, positions@.take(n as int)),
                        forall|cx: int, cy: int|
                            -1 <= cx - pos.x <= 1 && -1 <= cy - pos.y < dy ==> #[trigger] Self::has(
                                out@,
                                cx,
                                cy,
                            ),
                        forall|cx: int, cy: int|
                            -1 <= cx - pos.x < dx && cy == pos.y + dy ==> #[trigger] Self::has(
                                out@,
                                cx,
                                cy,
                            ),
                    decreases 2 - dx,
                {
                    let next = ChunkPos { x: pos.x + dx, y: pos.y + dy };
                    let key = next.key();
                    let ghost before = out@;
                    let ghost seen_before = seen@;
                    if seen.insert(key) {
                        out.push(next);
                        proof {
                            assert(near_occupied(cells, next.x as int, next.y as int));
                            Self::lemma_gather(cells, before, seen_before, next);
                        }
                    } else {
                        proof {
                            assert(seen@ =~= seen_before);
                            let i = choose|i: int|
                                0 <= i < out@.len() && (#[trigger] out@[i]).spec_key() == key;
                            lemma_key_injective(
                                out@[i].x as int,
                                out@[i].y as int,
                                next.x as int,
                                next.y as int,
                            );
                        }
                    }
                    assert(Self::has(out@, pos.x + dx, pos.y + dy));
                    dx = dx + 1;
                }
                dy = dy + 1;
            }
            n = n + 1;
            assert(positions@.take(n as int) =~= positions@.take(n - 1).push(pos));
        }
        assert(positions@.take(n as int) =~= positions@);
        proof {
            assert forall|cx: int, cy: int| #[trigger] near_occupied(cells, cx, cy) implies exists|
                i: int,
            | 0 <= i < out@.len() && (#[trigger] out@[i]).x == cx && out@[i].y == cy by {
                let c = choose|c: (int, int)| #[trigger]
                    occupied_chunks(cells).contains(c) && -1 <= c.0 - cx <= 1 && -1 <= c.1 - cy <= 1;
                assert(occupied_chunks(cells).contains((c.0, c.1)));
                let i = choose|i: int|
                    0 <= i < positions@.len() && #[trigger] positions@[i].x == c.0 && positions@[i].y
                        == c.1;
                assert(Self::has(out@, cx, cy));
            }
        }
        out
    }

    /// `out` lists each of the chunks and all their neighbors.
    spec fn surrounds(out: Seq<ChunkPos>, chunks: Seq<ChunkPos>) -> bool {
        forall|i: int, cx: int, cy: int|
            #![trigger chunks[i], Self::has(out, cx, cy)]
            0 <= i < chunks.len() && -1 <= cx - chunks[i].x <= 1 && -1 <= cy - chunks[i].y <= 1
                ==> Self::has(out, cx, cy)
    }

    proof fn lemma_gather(
        cells: Set<(int, int)>,
        out: Seq<ChunkPos>,
        seen: Set<u128>,
        next: ChunkPos,
    )
        requires
            Self::gathered(cells, out, seen),
            near_occupied(cells, next.x as int, next.y as int),
            !seen.contains(next.spec_key()),
        ensures
            Self::gathered(cells, out.push(next), seen.insert(next.spec_key())),
            forall|x: int, y: int| #[trigger]
                Self::has(out.push(next), x, y) <==> Self::has(out, x, y) || (x == next.x && y
                    == next.y),
    {
        let now = out.push(next);
        assert(now[now.len() - 1] == next);
        assert forall|x: int, y: int| #[trigger] Self::has(now, x, y) <==> Self::has(out, x, y) || (x
            == next.x && y == next.y) by {
            if Self::has(out, x, y) {
                let i = choose|i: int|
                    0 <= i < out.len() && (#[trigger] out[i]).x == x && out[i].y == y;
                assert(now[i] == out[i]);
            }
            if Self::has(now, x, y) {
                let i = choose|i: int|
                    0 <= i < now.len() && (#[trigger] now[i]).x == x && now[i].y == y;
                if i < out.len() {
                    assert(now[i] == out[i]);
                }
            }
        }
        assert forall|key: u128| #[trigger]
            seen.insert(next.spec_key()).contains(key) implies exists|i: int|
            0 <= i < now.len() && (#[trigger] now[i]).spec_key() == key by {
            if key != next.spec_key() {
                let i = choose|i: int| 0 <= i < out.len() && (#[trigger] out[i]).spec_key() == key;
                assert(now[i] == out[i]);
            }
        }
    }

    spec fn has(out: Seq<ChunkPos>, x: int, y: int) -> bool {
        exists|i: int| 0 <= i < out.len() && (#[trigger] out[i]).x == x && out[i].y == y
    }

    /// `out` lists chunks near those that hold something, and `seen` holds
    /// the keys of what it lists, once each.
    spec fn gathered(cells: Set<(int, int)>, out: Seq<ChunkPos>, seen: Set<u128>) -> bool {
        &&& forall|i: int| 0 <= i < out.len() ==> near_occupied(
            cells,
            (#[trigger] out[i]).x as int,
            out[i].y as int,
        )
        &&& forall|i: int| 0 <= i < out.len() ==> seen.contains((#[trigger] out[i]).spec_key())
        &&& forall|key: u128| #[trigger]
            seen.contains(key) ==> exists|i: int|
                0 <= i < out.len() && (#[trigger] out[i]).spec_key() == key
        &&& forall|i: int, j: int|
            0 <= i < j < out.len() ==> #[trigger] out[i] != #[trigger] out[j]
    }
}

/// The coordinates of the chunks lie between the given ones.
pub open spec fn lie_within(chunks: Set<(int, int)>, low: int, high: int) -> bool {
    forall|c: (int, int)| #[trigger]
        chunks.contains(c) ==> low <= c.0 <= high && low <= c.1 <= high
}

impl SparseGrid {
    /// Whether the coordinates of the stored chunks lie between the given
    /// ones.
    pub fn is_within(&self, low: i64, high: i64) -> (r: bool)
        requires
            self.wf(),
        ensures
            r == lie_within(occupied_chunks(self@.dom()), low as int, high as int),
    {
        let ghost chunks = occupied_chunks(self@.dom());
        let positions = self.positions();
        let mut i: usize = 0;
        while i < positions.len()
            invariant
                chunks == occupied_chunks(self@.dom()),
                i <= positions@.len(),
                forall|j: int|
                    0 <= j < positions@.len() ==> chunks.contains(
                        (#[trigger] positions@[j].x as int, positions@[j].y as int),
                    ),
                forall|j: int|
                    0 <= j < i ==> low <= #[trigger] positions@[j].x <= high && low
                        <= positions@[j].y <= high,
            decreases positions@.len() - i,
        {
            let pos = positions[i];
            if !(low <= pos.x && pos.x <= high && low <= pos.y && pos.y <= high) {
                assert(chunks.contains((positions@[i as int].x as int, positions@[i as int].y as int)));
                return false;
            }
            i = i + 1;
        }
        assert forall|c: (int, int)| #[trigger] chunks.contains(c) implies low <= c.0 <= high && low
            <= c.1 <= high by {
            assert(chunks.contains((c.0, c.1)));
            let j = choose|j: int|
                0 <= j < positions@.len() && #[trigger] positions@[j].x == c.0 && positions@[j].y
                    == c.1;
            assert(low <= positions@[j].x <= high);
        }
        true
    }
}

/// A chunk has room for `CHUNK_SIZE` times `CHUNK_SIZE` cells: cells that lie
/// in some chunks are at most that many times as many.
pub proof fn law_chunk_capacity(cells: Set<(int, int)>, chunks: Set<(int, int)>)
    requires
        chunks.finite(),
        forall|x: int, y: int| #[trigger]
            cells.contains((x, y)) ==> chunks.contains((chunk_of(x), chunk_of(y))),
    ensures
        cells.finite(),
        cells.len() <= 4096 * chunks.len(),
    decreases chunks.len(),
{
    if chunks.len() == 0 {
        assert forall|p: (int, int)| !cells.contains(p) by {
            if cells.contains(p) {
                assert(cells.contains((p.0, p.1)));
            }
        }
        assert(cells =~= Set::empty());
    } else {
        let c = chunks.choose();
        let inside = cells.filter(|p: (int, int)| (chunk_of(p.0), chunk_of(p.1)) == c);
        let outside = cells.filter(|p: (int, int)| (chunk_of(p.0), chunk_of(p.1)) != c);
        law_chunk_capacity(outside, chunks.remove(c));
        let places = vstd::set_lib::set_int_range(0, 4096);
        let f = |n: int| (c.0 * 64 + n % 64, c.1 * 64 + n / 64);
        vstd::set_lib::lemma_int_range(0, 4096);
        vstd::set_lib::lemma_map_size_bound(places, places.map(f), f);
        assert forall|p: (int, int)| inside.contains(p) implies places.map(f).contains(p) by {
            let n = local_of(p.1) * 64 + local_of(p.0);
            assert(n % 64 == local_of(p.0) && n / 64 == local_of(p.1));
            assert(places.contains(n) && f(n) == p);
        }
        vstd::set_lib::lemma_len_subset(inside, places.map(f));
        vstd::set_lib::lemma_len_union(inside, outside);
        assert(inside.union(outside) =~= cells);
    }
}

/// A set of cells of the grid.
pub struct CellSet {
    keys: HashSet<u128>,
}

impl View for CellSet {
    type V = Set<(int, int)>;

    closed spec fn view(&self) -> Set<(int, int)> {
        Set::new(
            |p: (int, int)| is_i64(p.0) && is_i64(p.1) && self.keys@.contains(key_of(p.0, p.1) as u128),
        )
    }
}

impl CellSet {
    pub fn new() -> (r: Self)
        ensures
            r@ == Set::<(int, int)>::empty(),
    {
        let r = CellSet { keys: HashSet::new() };
        assert(r@ =~= Set::empty());
        r
    }

    pub fn contains(&self, x: i64, y: i64) -> (r: bool)
        ensures
            r == self@.contains((x as int, y as int)),
    {
        self.keys.contains(&ChunkPos { x, y }.key())
    }

    pub fn insert(&mut self, x: i64, y: i64)
        ensures
            final(self)@ == old(self)@.insert((x as int, y as int)),
    {
        self.keys.insert(ChunkPos { x, y }.key());
        proof {
            assert forall|p: (int, int)| self@.contains(p) <==> old(self)@.insert(
                (x as int, y as int),
            ).contains(p) by {
                if is_i64(p.0) && is_i64(p.1) && key_of(p.0, p.1) == key_of(x as int, y as int) {
                    lemma_key_injective(p.0, p.1, x as int, y as int);
                }
            }
            assert(self@ =~= old(self)@.insert((x as int, y as int)));
        }
    }
}

/// The list holds each cell of the rectangle that holds something once, with
/// what it holds, and nothing else: chunk by chunk, and row by row in a chunk.
pub proof fn law_cells_are_listed(
    out: Seq<(i64, i64, u8)>,
    cells: Map<(int, int), u8>,
    rect: (int, int, int, int),
)
    requires
        lists_rect(out, cells, rect.0, rect.1, rect.2, rect.3),
    ensures
        forall|i: int|
            0 <= i < out.len() ==> {
                let (x, y, value) = #[trigger] out[i];
                &&& cells.dom().contains((x as int, y as int))
                &&& cells[(x as int, y as int)] == value
                &&& rect.0 <= x <= rect.2
                &&& rect.1 <= y <= rect.3
            },
        forall|x: int, y: int| #[trigger]
            cells.dom().contains((x, y)) && rect.0 <= x <= rect.2 && rect.1 <= y <= rect.3
                ==> exists|i: int| 0 <= i < out.len() && (#[trigger] out[i]).0 == x && out[i].1 == y,
        forall|i: int, j: int|
            0 <= i < j < out.len() ==> {
                let (a, b) = (#[trigger] out[i], #[trigger] out[j]);
                ||| a.1 as int / 64 < b.1 as int / 64
                ||| a.1 as int / 64 == b.1 as int / 64 && a.0 as int / 64 < b.0 as int / 64
                ||| a.1 as int / 64 == b.1 as int / 64 && a.0 as int / 64 == b.0 as int / 64 && (a.1
                    < b.1 || (a.1 == b.1 && a.0 < b.0))
            },
{
}

/// A chunk is counted if and only if one of its 64 by 64 cells holds something.
pub proof fn law_chunks_are_counted(cells: Set<(int, int)>, cx: int, cy: int)
    ensures
        occupied_chunks(cells).contains((cx, cy)) <==> exists|x: int, y: int| #[trigger]
            cells.contains((x, y)) && cx * 64 <= x < cx * 64 + 64 && cy * 64 <= y < cy * 64 + 64,
{
    let f = |p: (int, int)| (chunk_of(p.0), chunk_of(p.1));
    if occupied_chunks(cells).contains((cx, cy)) {
        let p = choose|p: (int, int)| cells.contains(p) && (cx, cy) == f(p);
        assert(cells.contains((p.0, p.1)));
    }
    if exists|x: int, y: int| #[trigger]
        cells.contains((x, y)) && cx * 64 <= x < cx * 64 + 64 && cy * 64 <= y < cy * 64 + 64 {
        let (x, y) = choose|x: int, y: int| #[trigger]
            cells.contains((x, y)) && cx * 64 <= x < cx * 64 + 64 && cy * 64 <= y < cy * 64 + 64;
        assert(f((x, y)) == (cx, cy));
    }
}

} // verus!
