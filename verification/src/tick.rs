//! What one tick of the falling-sand physics does to the cells.
use vstd::prelude::*;

use crate::material::{Material, Phase};

verus! {

/// What a cell holds; 0 for an empty one.
pub open spec fn content(cells: Map<(int, int), u8>, x: int, y: int) -> u8 {
    if cells.dom().contains((x, y)) {
        cells[(x, y)]
    } else {
        0
    }
}

/// The cells with `value` put at a place; 0 empties it.
pub open spec fn placed(cells: Map<(int, int), u8>, x: int, y: int, value: u8) -> Map<
    (int, int),
    u8,
> {
    if value == 0 {
        cells.remove((x, y))
    } else {
        cells.insert((x, y), value)
    }
}

/// The cells with the contents of two places exchanged.
pub open spec fn exchanged(cells: Map<(int, int), u8>, x: int, y: int, u: int, v: int) -> Map<
    (int, int),
    u8,
> {
    placed(placed(cells, x, y, content(cells, u, v)), u, v, content(cells, x, y))
}

/// Materials of this phase move on their own.
pub open spec fn is_mobile(phase: Phase) -> bool {
    phase is Powder || phase is Liquid || phase is Gas
}

/// Materials of this phase are displaced by others.
pub open spec fn is_fluid(phase: Phase) -> bool {
    phase is Liquid || phase is Gas
}

/// A pair of headings, exchanged where `flip` says so.
pub open spec fn pair(a: (int, int), b: (int, int), flip: bool) -> Seq<(int, int)> {
    if flip {
        seq![b, a]
    } else {
        seq![a, b]
    }
}

/// Where a cell may go, by priority: straight ahead, then diagonally, then,
/// for a liquid, sideways. `first` says whether the diagonals, and `second`
/// whether the sideways headings, change places.
pub open spec fn headings(phase: Phase, first: bool, second: bool) -> Seq<(int, int)> {
    match phase {
        Phase::Powder => seq![(0int, 1int)] + pair((-1, 1), (1, 1), first),
        Phase::Liquid => seq![(0int, 1int)] + pair((-1, 1), (1, 1), first) + pair(
            (-1, 0),
            (1, 0),
            second,
        ),
        Phase::Gas => seq![(0int, -1int)] + pair((-1, -1), (1, -1), first),
        _ => Seq::empty(),
    }
}

/// How many coins are flipped for a cell.
pub open spec fn flips_for(phase: Phase) -> int {
    match phase {
        Phase::Powder | Phase::Gas => 1,
        Phase::Liquid => 2,
        _ => 0,
    }
}

/// Whether `mover` may enter a cell that holds `target` when moving with the
/// vertical direction `dy`. Empty cells are always enterable; fluids are
/// displaced by density (denser sinks, lighter rises); sideways movement
/// requires empty space.
pub open spec fn enters(materials: Seq<Material>, mover: Material, target: u8, dy: int) -> bool {
    target == 0 || {
        let displaced = materials[target as int];
        &&& dy != 0
        &&& is_fluid(displaced.phase)
        &&& if dy > 0 {
            mover.density.exceeds(displaced.density)
        } else {
            displaced.density.exceeds(mover.density)
        }
    }
}

/// Whether the cell can take the heading: it may enter the place, and what
/// lies there, if anything, has not moved this tick.
pub open spec fn is_open(
    cells: Map<(int, int), u8>,
    moved: Set<(int, int)>,
    materials: Seq<Material>,
    x: int,
    y: int,
    heading: (int, int),
) -> bool {
    let (u, v) = (x + heading.0, y + heading.1);
    &&& enters(materials, materials[content(cells, x, y) as int], content(cells, u, v), heading.1)
    &&& content(cells, u, v) == 0 || !moved.contains((u, v))
}

/// The first of the headings that the cell can take.
pub open spec fn first_open(
    cells: Map<(int, int), u8>,
    moved: Set<(int, int)>,
    materials: Seq<Material>,
    x: int,
    y: int,
    headings: Seq<(int, int)>,
) -> Option<(int, int)>
    decreases headings.len(),
{
    if headings.len() == 0 {
        None
    } else {
        if is_open(cells, moved, materials, x, y, headings[0]) {
            Some(headings[0])
        } else {
            first_open(cells, moved, materials, x, y, headings.drop_first())
        }
    }
}

/// A tick under way: the cells, those that were moved into this tick, and how
/// many coins have been flipped.
#[verifier::ext_equal]
pub struct Tick {
    pub cells: Map<(int, int), u8>,
    pub moved: Set<(int, int)>,
    pub flipped: int,
}

impl Tick {
    pub open spec fn start(cells: Map<(int, int), u8>) -> Tick {
        Tick { cells, moved: Set::empty(), flipped: 0 }
    }

    /// The place holds something that has not moved this tick.
    pub open spec fn waits(self, x: int, y: int) -> bool {
        self.cells.dom().contains((x, y)) && !self.moved.contains((x, y))
    }

    /// The phase of what the place holds.
    pub open spec fn phase_at(self, materials: Seq<Material>, x: int, y: int) -> Phase {
        materials[content(self.cells, x, y) as int].phase
    }

    /// Where the cell goes, given how the two coins fall.
    pub open spec fn heading(
        self,
        materials: Seq<Material>,
        x: int,
        y: int,
        first: bool,
        second: bool,
    ) -> Option<(int, int)> {
        first_open(
            self.cells,
            self.moved,
            materials,
            x,
            y,
            headings(self.phase_at(materials, x, y), first, second),
        )
    }

    /// The cell has taken the heading: what was there has taken its place.
    pub open spec fn shifted(self, x: int, y: int, heading: Option<(int, int)>) -> Tick {
        match heading {
            None => self,
            Some((dx, dy)) => Tick {
                cells: exchanged(self.cells, x, y, x + dx, y + dy),
                moved: if content(self.cells, x + dx, y + dy) == 0 {
                    self.moved.insert((x + dx, y + dy))
                } else {
                    self.moved.insert((x + dx, y + dy)).insert((x, y))
                },
                flipped: self.flipped,
            },
        }
    }

    /// The cell's turn has come, and the coins fall as given.
    pub open spec fn turn(
        self,
        materials: Seq<Material>,
        x: int,
        y: int,
        first: bool,
        second: bool,
    ) -> Tick {
        if self.waits(x, y) {
            let heading = self.heading(materials, x, y, first, second);
            Tick {
                flipped: self.flipped + flips_for(self.phase_at(materials, x, y)),
                ..self.shifted(x, y, heading)
            }
        } else {
            self
        }
    }

    /// The cell's turn has come; the next coins are taken from `flips`.
    pub open spec fn visited(
        self,
        materials: Seq<Material>,
        x: int,
        y: int,
        flips: Seq<bool>,
    ) -> Tick {
        self.turn(materials, x, y, flips[self.flipped], flips[self.flipped + 1])
    }

    /// Each place of `order` has had its turn, one after the other.
    pub open spec fn swept(
        self,
        materials: Seq<Material>,
        order: Seq<(int, int)>,
        flips: Seq<bool>,
    ) -> Tick
        decreases order.len(),
    {
        if order.len() == 0 {
            self
        } else {
            self.swept(materials, order.drop_last(), flips).visited(
                materials,
                order.last().0,
                order.last().1,
                flips,
            )
        }
    }
}

/// Comes before in the order of a tick: rows from the bottom to the top, and
/// in a row from left to right, or from right to left.
pub open spec fn turn_before(rightward: bool, p: (int, int), q: (int, int)) -> bool {
    p.1 > q.1 || (p.1 == q.1 && (if rightward {
        p.0 < q.0
    } else {
        p.0 > q.0
    }))
}

/// `order` lists the given places in the order of a tick.
pub open spec fn is_turn_order(
    order: Seq<(int, int)>,
    places: Set<(int, int)>,
    rightward: bool,
) -> bool {
    &&& order.to_set() == places
    &&& forall|i: int, j: int|
        0 <= i < j < order.len() ==> turn_before(rightward, #[trigger] order[i], #[trigger] order[j])
}

/// The given places in the order of a tick.
pub open spec fn turn_order(places: Set<(int, int)>, rightward: bool) -> Seq<(int, int)> {
    choose|order: Seq<(int, int)>| is_turn_order(order, places, rightward)
}

/// A whole tick: each cell that holds something at its start gets its turn.
pub open spec fn ticked(
    cells: Map<(int, int), u8>,
    materials: Seq<Material>,
    rightward: bool,
    flips: Seq<bool>,
) -> Tick {
    Tick::start(cells).swept(materials, turn_order(cells.dom(), rightward), flips)
}

proof fn lemma_turn_order_insert(
    order: Seq<(int, int)>,
    places: Set<(int, int)>,
    rightward: bool,
    p: (int, int),
    n: int,
)
    requires
        is_turn_order(order, places, rightward),
        !places.contains(p),
        0 <= n <= order.len(),
        forall|i: int| 0 <= i < n ==> turn_before(rightward, #[trigger] order[i], p),
        forall|i: int| n <= i < order.len() ==> turn_before(rightward, p, #[trigger] order[i]),
    ensures
        is_turn_order(order.insert(n, p), places.insert(p), rightward),
{
    let wider = order.insert(n, p);
    assert forall|q: (int, int)| wider.to_set().contains(q) <==> places.insert(p).contains(q) by {
        if order.contains(q) {
            let i = choose|i: int| 0 <= i < order.len() && order[i] == q;
            assert(wider[if i < n {
                i
            } else {
                i + 1
            }] == q);
        }
        assert(wider[n] == p);
        assert(order.to_set().contains(q) <==> order.contains(q));
        if wider.contains(q) && q != p {
            let i = choose|i: int| 0 <= i < wider.len() && wider[i] == q;
            assert(order[if i < n {
                i
            } else {
                i - 1
            }] == q);
        }
    }
    assert(wider.to_set() =~= places.insert(p));
}

/// Where in the order a place belongs.
proof fn lemma_slot(order: Seq<(int, int)>, rightward: bool, p: (int, int), k: int) -> (n: int)
    requires
        0 <= k <= order.len(),
        !order.contains(p),
        forall|i: int, j: int|
            0 <= i < j < order.len() ==> turn_before(rightward, #[trigger] order[i], #[trigger] order[j]),
        forall|i: int| 0 <= i < k ==> turn_before(rightward, #[trigger] order[i], p),
    ensures
        k <= n <= order.len(),
        forall|i: int| 0 <= i < n ==> turn_before(rightward, #[trigger] order[i], p),
        forall|i: int| n <= i < order.len() ==> turn_before(rightward, p, #[trigger] order[i]),
    decreases order.len() - k,
{
    if k < order.len() && turn_before(rightward, order[k], p) {
        lemma_slot(order, rightward, p, k + 1)
    } else {
        if k < order.len() {
            assert(order[k] != p);
        }
        k
    }
}

/// Finitely many places have an order.
pub proof fn lemma_turn_order(places: Set<(int, int)>, rightward: bool)
    requires
        places.finite(),
    ensures
        is_turn_order(turn_order(places, rightward), places, rightward),
    decreases places.len(),
{
    if places.len() == 0 {
        let none = Seq::<(int, int)>::empty();
        assert(places =~= Set::empty());
        assert(none.to_set() =~= places);
        assert(is_turn_order(none, places, rightward));
    } else {
        let p = places.choose();
        let rest = places.remove(p);
        lemma_turn_order(rest, rightward);
        let order = turn_order(rest, rightward);
        assert(!order.contains(p)) by {
            assert(order.to_set().contains(p) <==> order.contains(p));
        }
        let n = lemma_slot(order, rightward, p, 0);
        lemma_turn_order_insert(order, rest, rightward, p, n);
        assert(rest.insert(p) =~= places);
    }
}

/// The places have only one order: what a tick does depends on nothing but
/// the cells, the materials, its direction and the coins.
pub proof fn law_turn_order_is_unique(
    a: Seq<(int, int)>,
    b: Seq<(int, int)>,
    places: Set<(int, int)>,
    rightward: bool,
)
    requires
        is_turn_order(a, places, rightward),
        is_turn_order(b, places, rightward),
    ensures
        a == b,
    decreases a.len(),
{
    assert forall|p: (int, int)| a.contains(p) <==> b.contains(p) by {
        assert(a.to_set().contains(p) <==> b.to_set().contains(p));
    }
    if a.len() == 0 {
        if b.len() > 0 {
            assert(b.contains(b[0]));
        }
        assert(a =~= b);
    } else {
        assert(b.contains(a.last())) by {
            assert(a.contains(a.last()));
        }
        assert(a.contains(b.last())) by {
            assert(b.contains(b[b.len() - 1]));
        }
        let i = choose|i: int| 0 <= i < a.len() && a[i] == b.last();
        let j = choose|j: int| 0 <= j < b.len() && b[j] == a.last();
        assert(a.last() == b.last());
        let (c, d) = (a.drop_last(), b.drop_last());
        lemma_order_drop_last(a, places, rightward);
        lemma_order_drop_last(b, places, rightward);
        law_turn_order_is_unique(c, d, places.remove(a.last()), rightward);
        assert(a =~= c.push(a.last()));
        assert(b =~= d.push(b.last()));
    }
}

proof fn lemma_order_drop_last(order: Seq<(int, int)>, places: Set<(int, int)>, rightward: bool)
    requires
        is_turn_order(order, places, rightward),
        order.len() > 0,
    ensures
        is_turn_order(order.drop_last(), places.remove(order.last()), rightward),
{
    let shorter = order.drop_last();
    assert forall|p: (int, int)| shorter.to_set().contains(p) <==> places.remove(
        order.last(),
    ).contains(p) by {
        assert(order.to_set().contains(p) <==> order.contains(p));
        if shorter.contains(p) {
            let i = choose|i: int| 0 <= i < shorter.len() && shorter[i] == p;
            assert(order[i] == p);
            assert(turn_before(rightward, order[i], order[order.len() - 1]));
        }
        if order.contains(p) && p != order.last() {
            let i = choose|i: int| 0 <= i < order.len() && order[i] == p;
            assert(shorter[i] == p);
        }
    }
    assert(shorter.to_set() =~= places.remove(order.last()));
}

/// Every id is in the table.
pub open spec fn covers(materials: Seq<Material>, cells: Map<(int, int), u8>) -> bool {
    forall|x: int, y: int| #[trigger]
        cells.dom().contains((x, y)) ==> cells[(x, y)] != 0 && cells[(x, y)] < materials.len()
}

impl Tick {
    /// What has not moved by the end of a turn had not moved before it and is
    /// where it was; nothing new comes into being.
    pub proof fn lemma_turn(
        self,
        materials: Seq<Material>,
        x: int,
        y: int,
        first: bool,
        second: bool,
        u: int,
        v: int,
    )
        ensures
            self.turn(materials, x, y, first, second).waits(u, v) ==> self.waits(u, v) && content(
                self.turn(materials, x, y, first, second).cells,
                u,
                v,
            ) == content(self.cells, u, v),
            covers(materials, self.cells) ==> covers(
                materials,
                self.turn(materials, x, y, first, second).cells,
            ),
            self.flipped <= self.turn(materials, x, y, first, second).flipped,
    {
    }

    /// What has not moved by the end had not moved before and is where it was.
    pub proof fn lemma_swept(
        self,
        materials: Seq<Material>,
        order: Seq<(int, int)>,
        flips: Seq<bool>,
        u: int,
        v: int,
    )
        ensures
            self.swept(materials, order, flips).waits(u, v) ==> self.waits(u, v) && content(
                self.swept(materials, order, flips).cells,
                u,
                v,
            ) == content(self.cells, u, v),
            covers(materials, self.cells) ==> covers(
                materials,
                self.swept(materials, order, flips).cells,
            ),
            self.flipped <= self.swept(materials, order, flips).flipped,
        decreases order.len(),
    {
        if order.len() > 0 {
            let before = self.swept(materials, order.drop_last(), flips);
            self.lemma_swept(materials, order.drop_last(), flips, u, v);
            before.lemma_turn(
                materials,
                order.last().0,
                order.last().1,
                flips[before.flipped],
                flips[before.flipped + 1],
                u,
                v,
            );
        }
    }

    /// Coins that are not flipped make no difference.
    pub proof fn lemma_same_flips(
        self,
        materials: Seq<Material>,
        x: int,
        y: int,
        a: (bool, bool),
        b: (bool, bool),
    )
        requires
            self.waits(x, y) ==> {
                &&& flips_for(self.phase_at(materials, x, y)) >= 1 ==> a.0 == b.0
                &&& flips_for(self.phase_at(materials, x, y)) >= 2 ==> a.1 == b.1
            },
        ensures
            self.turn(materials, x, y, a.0, a.1) == self.turn(materials, x, y, b.0, b.1),
    {
    }

    /// Coins after the last one flipped make no difference.
    pub proof fn lemma_more_flips(
        self,
        materials: Seq<Material>,
        order: Seq<(int, int)>,
        flips: Seq<bool>,
        more: Seq<bool>,
    )
        requires
            0 <= self.flipped,
            self.swept(materials, order, flips).flipped <= flips.len(),
        ensures
            self.swept(materials, order, flips + more) == self.swept(materials, order, flips),
        decreases order.len(),
    {
        if order.len() > 0 {
            let before = self.swept(materials, order.drop_last(), flips);
            let (x, y) = order.last();
            let all = flips + more;
            self.lemma_swept(materials, order.drop_last(), flips, 0, 0);
            self.lemma_more_flips(materials, order.drop_last(), flips, more);
            before.lemma_same_flips(
                materials,
                x,
                y,
                (flips[before.flipped], flips[before.flipped + 1]),
                (all[before.flipped], all[before.flipped + 1]),
            );
        }
    }
}

/// The place comes before the point that the tick has reached.
pub open spec fn is_past(rightward: bool, p: (int, int), row: int, rank: int) -> bool {
    p.1 > row || (p.1 == row && (if rightward {
        p.0
    } else {
        -p.0
    }) < rank)
}

/// The tick has passed the first `k` places of the order and no others.
pub open spec fn has_passed(
    order: Seq<(int, int)>,
    k: int,
    rightward: bool,
    row: int,
    rank: int,
) -> bool {
    &&& 0 <= k <= order.len()
    &&& forall|i: int| 0 <= i < k ==> is_past(rightward, #[trigger] order[i], row, rank)
    &&& forall|i: int| k <= i < order.len() ==> !is_past(rightward, #[trigger] order[i], row, rank)
}

impl Tick {
    /// Nothing on the way waits for its turn, so nothing happens on it.
    pub proof fn lemma_advance(
        self,
        materials: Seq<Material>,
        order: Seq<(int, int)>,
        flips: Seq<bool>,
        k: int,
        rightward: bool,
        from: (int, int),
        to: (int, int),
    ) -> (n: int)
        requires
            forall|i: int, j: int|
                0 <= i < j < order.len() ==> turn_before(
                    rightward,
                    #[trigger] order[i],
                    #[trigger] order[j],
                ),
            0 <= k <= order.len(),
            forall|i: int| 0 <= i < k ==> is_past(rightward, #[trigger] order[i], to.0, to.1),
            forall|i: int|
                k <= i < order.len() ==> !is_past(rightward, #[trigger] order[i], from.0, from.1),
            forall|x: int, y: int|
                is_past(rightward, (x, y), to.0, to.1) && !is_past(
                    rightward,
                    (x, y),
                    from.0,
                    from.1,
                ) ==> !#[trigger] self.swept(materials, order.take(k), flips).waits(x, y),
        ensures
            has_passed(order, n, rightward, to.0, to.1),
            self.swept(materials, order.take(n), flips) == self.swept(
                materials,
                order.take(k),
                flips,
            ),
        decreases order.len() - k,
    {
        if k < order.len() && is_past(rightward, order[k], to.0, to.1) {
            let now = self.swept(materials, order.take(k), flips);
            assert(order.take(k + 1).drop_last() =~= order.take(k));
            assert(!now.waits(order[k].0, order[k].1));
            assert(self.swept(materials, order.take(k + 1), flips) == now);
            self.lemma_advance(materials, order, flips, k + 1, rightward, from, to)
        } else {
            k
        }
    }
}

/// The places that hold the given material.
pub open spec fn places_of(cells: Map<(int, int), u8>, id: u8) -> Set<(int, int)> {
    Set::new(|p: (int, int)| cells.dom().contains(p) && cells[p] == id)
}

/// Reading a place gives back what was last put there, and putting something
/// there changes no other place.
pub proof fn law_read_after_place(
    cells: Map<(int, int), u8>,
    x: int,
    y: int,
    value: u8,
    u: int,
    v: int,
)
    ensures
        content(placed(cells, x, y, value), u, v) == (if u == x && v == y {
            value
        } else {
            content(cells, u, v)
        }),
{
}

proof fn lemma_exchange_conserves(cells: Map<(int, int), u8>, p: (int, int), q: (int, int), id: u8)
    requires
        id != 0,
        cells.dom().finite(),
        forall|r: (int, int)| #[trigger] cells.dom().contains(r) ==> cells[r] != 0,
    ensures
        exchanged(cells, p.0, p.1, q.0, q.1).dom().finite(),
        forall|r: (int, int)| #[trigger]
            exchanged(cells, p.0, p.1, q.0, q.1).dom().contains(r) ==> exchanged(
                cells,
                p.0,
                p.1,
                q.0,
                q.1,
            )[r] != 0,
        places_of(exchanged(cells, p.0, p.1, q.0, q.1), id).len() == places_of(cells, id).len(),
        exchanged(cells, p.0, p.1, q.0, q.1).dom().len() == cells.dom().len(),
{
    let after = exchanged(cells, p.0, p.1, q.0, q.1);
    let (old_places, new_places) = (places_of(cells, id), places_of(after, id));
    vstd::set_lib::lemma_len_subset(old_places, cells.dom());
    if old_places.contains(p) == old_places.contains(q) {
        assert(new_places =~= old_places);
    } else if old_places.contains(p) {
        assert(new_places =~= old_places.remove(p).insert(q));
    } else {
        assert(new_places =~= old_places.remove(q).insert(p));
    }
    let (old_dom, new_dom) = (cells.dom(), after.dom());
    if old_dom.contains(p) == old_dom.contains(q) {
        assert(new_dom =~= old_dom);
    } else if old_dom.contains(p) {
        assert(new_dom =~= old_dom.remove(p).insert(q));
    } else {
        assert(new_dom =~= old_dom.remove(q).insert(p));
    }
}

impl Tick {
    proof fn lemma_swept_conserves(
        self,
        materials: Seq<Material>,
        order: Seq<(int, int)>,
        flips: Seq<bool>,
        id: u8,
    )
        requires
            id != 0,
            self.cells.dom().finite(),
            forall|r: (int, int)| #[trigger] self.cells.dom().contains(r) ==> self.cells[r] != 0,
        ensures
            ({
                let after = self.swept(materials, order, flips).cells;
                &&& after.dom().finite()
                &&& forall|r: (int, int)| #[trigger] after.dom().contains(r) ==> after[r] != 0
                &&& places_of(after, id).len() == places_of(self.cells, id).len()
                &&& after.dom().len() == self.cells.dom().len()
            }),
        decreases order.len(),
    {
        if order.len() > 0 {
            self.lemma_swept_conserves(materials, order.drop_last(), flips, id);
            let before = self.swept(materials, order.drop_last(), flips);
            let (x, y) = order.last();
            let heading = before.heading(
                materials,
                x,
                y,
                flips[before.flipped],
                flips[before.flipped + 1],
            );
            if let Some((dx, dy)) = heading {
                lemma_exchange_conserves(before.cells, (x, y), (x + dx, y + dy), id);
            }
        }
    }
}

/// A tick creates and destroys nothing: there is as much of each material
/// after it as before.
pub proof fn law_tick_conserves(
    cells: Map<(int, int), u8>,
    materials: Seq<Material>,
    rightward: bool,
    flips: Seq<bool>,
    id: u8,
)
    requires
        id != 0,
        cells.dom().finite(),
        covers(materials, cells),
    ensures
        places_of(ticked(cells, materials, rightward, flips).cells, id).len() == places_of(
            cells,
            id,
        ).len(),
        ticked(cells, materials, rightward, flips).cells.dom().len() == cells.dom().len(),
{
    assert forall|r: (int, int)| #[trigger] cells.dom().contains(r) implies cells[r] != 0 by {
        assert(cells.dom().contains((r.0, r.1)));
    }
    Tick::start(cells).lemma_swept_conserves(
        materials,
        turn_order(cells.dom(), rightward),
        flips,
        id,
    );
}

/// A tick brings in no material that was not there before.
pub proof fn law_tick_keeps_cover(
    cells: Map<(int, int), u8>,
    materials: Seq<Material>,
    rightward: bool,
    flips: Seq<bool>,
)
    requires
        covers(materials, cells),
    ensures
        covers(materials, ticked(cells, materials, rightward, flips).cells),
{
    Tick::start(cells).lemma_swept(
        materials,
        turn_order(cells.dom(), rightward),
        flips,
        0,
        0,
    );
}

/// The heading taken is one that the cell can take.
proof fn lemma_first_open(
    cells: Map<(int, int), u8>,
    moved: Set<(int, int)>,
    materials: Seq<Material>,
    x: int,
    y: int,
    headings: Seq<(int, int)>,
)
    ensures
        first_open(cells, moved, materials, x, y, headings) matches Some((dx, dy)) ==> {
            &&& headings.contains((dx, dy))
            &&& is_open(cells, moved, materials, x, y, (dx, dy))
        },
    decreases headings.len(),
{
    if headings.len() > 0 {
        lemma_first_open(cells, moved, materials, x, y, headings.drop_first());
        assert(headings.contains(headings[0]));
        if let Some(h) = first_open(cells, moved, materials, x, y, headings.drop_first()) {
            if headings.drop_first().contains(h) {
                let i = choose|i: int|
                    0 <= i < headings.drop_first().len() && headings.drop_first()[i] == h;
                assert(headings[i + 1] == h);
            }
        }
    }
}

impl Tick {
    /// What is known of the heading that a cell takes.
    proof fn lemma_heading(
        self,
        materials: Seq<Material>,
        x: int,
        y: int,
        first: bool,
        second: bool,
    )
        ensures
            self.heading(materials, x, y, first, second) matches Some((dx, dy)) ==> {
                let mover = materials[content(self.cells, x, y) as int];
                &&& is_mobile(mover.phase)
                &&& is_open(self.cells, self.moved, materials, x, y, (dx, dy))
                &&& -1 <= dx <= 1
                &&& -1 <= dy <= 1
                &&& (dx, dy) != (0int, 0int)
                &&& mover.phase is Powder ==> dy == 1
            },
    {
        let all = headings(self.phase_at(materials, x, y), first, second);
        lemma_first_open(self.cells, self.moved, materials, x, y, all);
        if let Some(h) = self.heading(materials, x, y, first, second) {
            let i = choose|i: int| 0 <= i < all.len() && all[i] == h;
            assert(all.len() <= 5);
            assert(all[i] == h);
        }
    }

    proof fn lemma_immobile_stay(
        self,
        materials: Seq<Material>,
        order: Seq<(int, int)>,
        flips: Seq<bool>,
        id: u8,
        u: int,
        v: int,
    )
        requires
            id != 0,
            !is_mobile(materials[id as int].phase),
        ensures
            content(self.swept(materials, order, flips).cells, u, v) == id <==> content(
                self.cells,
                u,
                v,
            ) == id,
        decreases order.len(),
    {
        if order.len() > 0 {
            self.lemma_immobile_stay(materials, order.drop_last(), flips, id, u, v);
            let before = self.swept(materials, order.drop_last(), flips);
            let (x, y) = order.last();
            before.lemma_heading(
                materials,
                x,
                y,
                flips[before.flipped],
                flips[before.flipped + 1],
            );
        }
    }
}

/// What does not move on its own stays where it is, and nothing takes its
/// place: a tick leaves solids alone.
pub proof fn law_immobile_stay(
    cells: Map<(int, int), u8>,
    materials: Seq<Material>,
    rightward: bool,
    flips: Seq<bool>,
    id: u8,
    x: int,
    y: int,
)
    requires
        id != 0,
        !is_mobile(materials[id as int].phase),
    ensures
        content(ticked(cells, materials, rightward, flips).cells, x, y) == id <==> content(
            cells,
            x,
            y,
        ) == id,
{
    Tick::start(cells).lemma_immobile_stay(
        materials,
        turn_order(cells.dom(), rightward),
        flips,
        id,
        x,
        y,
    );
}

/// What lies at `(x, y)` can have come from one row above.
pub open spec fn fell_from(cells: Map<(int, int), u8>, id: u8, x: int, y: int) -> bool {
    ||| content(cells, x, y - 1) == id
    ||| content(cells, x - 1, y - 1) == id
    ||| content(cells, x + 1, y - 1) == id
}

impl Tick {
    /// Powder that waits is where it was at the start; powder that does not
    /// has fallen one row.
    spec fn fallen_once(self, start: Map<(int, int), u8>, id: u8) -> bool {
        forall|u: int, v: int| #[trigger]
            content(self.cells, u, v) == id ==> if self.moved.contains((u, v)) {
                fell_from(start, id, u, v)
            } else {
                content(start, u, v) == id
            }
    }

    proof fn lemma_fallen_once(
        self,
        materials: Seq<Material>,
        order: Seq<(int, int)>,
        flips: Seq<bool>,
        id: u8,
    )
        requires
            id != 0,
            materials[id as int].phase is Powder,
            self.moved == Set::<(int, int)>::empty(),
        ensures
            self.swept(materials, order, flips).fallen_once(self.cells, id),
        decreases order.len(),
    {
        if order.len() > 0 {
            self.lemma_fallen_once(materials, order.drop_last(), flips, id);
            let before = self.swept(materials, order.drop_last(), flips);
            let after = self.swept(materials, order, flips);
            let (x, y) = order.last();
            let (first, second) = (flips[before.flipped], flips[before.flipped + 1]);
            before.lemma_heading(materials, x, y, first, second);
            assert forall|u: int, v: int| #[trigger] content(after.cells, u, v) == id implies (
            if after.moved.contains((u, v)) {
                fell_from(self.cells, id, u, v)
            } else {
                content(self.cells, u, v) == id
            }) by {
                if before.waits(x, y) {
                    if let Some((dx, dy)) = before.heading(materials, x, y, first, second) {
                        if (u, v) == (x + dx, y + dy) {
                            assert(content(before.cells, x, y) == id);
                            assert(content(self.cells, x, y) == id);
                            assert(x == u - dx && y == v - 1);
                        } else if (u, v) != (x, y) {
                            assert(content(before.cells, u, v) == id);
                        } else {
                            assert(content(before.cells, x + dx, y + dy) == id);
                        }
                    } else {
                        assert(content(before.cells, u, v) == id);
                    }
                } else {
                    assert(content(before.cells, u, v) == id);
                }
            }
        } else {
            assert(self.fallen_once(self.cells, id));
        }
    }
}

/// Powder moves at most once in a tick: where a cell of powder lies after it,
/// one of the same material lay there before, or one row above, straight or
/// diagonally.
pub proof fn law_powder_moves_at_most_once(
    cells: Map<(int, int), u8>,
    materials: Seq<Material>,
    rightward: bool,
    flips: Seq<bool>,
    id: u8,
    x: int,
    y: int,
)
    requires
        id != 0,
        materials[id as int].phase is Powder,
        content(ticked(cells, materials, rightward, flips).cells, x, y) == id,
    ensures
        content(cells, x, y) == id || fell_from(cells, id, x, y),
{
    Tick::start(cells).lemma_fallen_once(
        materials,
        turn_order(cells.dom(), rightward),
        flips,
        id,
    );
}

/// The two places are the same or next to each other.
pub open spec fn is_near(p: (int, int), q: (int, int)) -> bool {
    -1 <= p.0 - q.0 <= 1 && -1 <= p.1 - q.1 <= 1
}

/// `origin` tells of each cell of `after` which cell of `before` it was: none
/// was two of them, each has become one, and none has gone further than to a
/// place next to its own.
pub open spec fn is_origin(
    origin: Map<(int, int), (int, int)>,
    before: Map<(int, int), u8>,
    after: Map<(int, int), u8>,
) -> bool {
    &&& origin.dom() == after.dom()
    &&& origin.is_injective()
    &&& origin.values() == before.dom()
    &&& forall|p: (int, int)| #[trigger]
        origin.dom().contains(p) ==> before[origin[p]] == after[p] && is_near(p, origin[p])
}

impl Tick {
    /// As `is_origin`, and what has not moved is where it was.
    spec fn is_traced(
        self,
        origin: Map<(int, int), (int, int)>,
        start: Map<(int, int), u8>,
    ) -> bool {
        &&& is_origin(origin, start, self.cells)
        &&& forall|p: (int, int)| #[trigger]
            origin.dom().contains(p) && !self.moved.contains(p) ==> origin[p] == p
        &&& forall|p: (int, int)| #[trigger] self.cells.dom().contains(p) ==> self.cells[p] != 0
    }

    proof fn lemma_traced(
        self,
        materials: Seq<Material>,
        order: Seq<(int, int)>,
        flips: Seq<bool>,
    ) -> (origin: Map<(int, int), (int, int)>)
        requires
            self.moved == Set::<(int, int)>::empty(),
            forall|p: (int, int)| #[trigger] self.cells.dom().contains(p) ==> self.cells[p] != 0,
        ensures
            self.swept(materials, order, flips).is_traced(origin, self.cells),
        decreases order.len(),
    {
        if order.len() == 0 {
            let origin = Map::new(|p: (int, int)| self.cells.dom().contains(p), |p: (int, int)| p);
            assert(origin.dom() =~= self.cells.dom());
            assert(origin.values() =~= self.cells.dom()) by {
                assert forall|p: (int, int)| self.cells.dom().contains(p) implies
                    origin.values().contains(p) by {
                    assert(origin.dom().contains(p) && origin[p] == p);
                }
            }
            origin
        } else {
            let origin = self.lemma_traced(materials, order.drop_last(), flips);
            let before = self.swept(materials, order.drop_last(), flips);
            let (x, y) = order.last();
            let (first, second) = (flips[before.flipped], flips[before.flipped + 1]);
            before.lemma_heading(materials, x, y, first, second);
            match before.heading(materials, x, y, first, second) {
                Some((dx, dy)) if before.waits(x, y) => {
                    let (p, q) = ((x, y), (x + dx, y + dy));
                    before.lemma_trace_exchange(origin, self.cells, p, q)
                },
                _ => origin,
            }
        }
    }

    /// The cell at `p`, which waits, changes places with what lies at `q`,
    /// which waits too or is nothing.
    proof fn lemma_trace_exchange(
        self,
        origin: Map<(int, int), (int, int)>,
        start: Map<(int, int), u8>,
        p: (int, int),
        q: (int, int),
    ) -> (after: Map<(int, int), (int, int)>)
        requires
            self.is_traced(origin, start),
            self.waits(p.0, p.1),
            p != q,
            is_near(p, q),
            content(self.cells, q.0, q.1) == 0 || !self.moved.contains(q),
        ensures
            self.shifted(p.0, p.1, Some((q.0 - p.0, q.1 - p.1))).is_traced(after, start),
    {
        let next = self.shifted(p.0, p.1, Some((q.0 - p.0, q.1 - p.1)));
        let filled = self.cells.dom().contains(q);
        assert(q == (p.0 + (q.0 - p.0), p.1 + (q.1 - p.1)));
        assert(origin.dom().contains(p) && origin[p] == p);
        assert(filled ==> origin.dom().contains(q) && origin[q] == q);
        let after = if filled {
            origin.insert(q, p).insert(p, q)
        } else {
            origin.remove(p).insert(q, p)
        };
        assert(after.dom() =~= next.cells.dom());
        assert forall|a: (int, int), b: (int, int)|
            a != b && after.dom().contains(a) && after.dom().contains(b) implies #[trigger] after[a]
            != #[trigger] after[b] by {
            assert(a != p && a != q ==> origin.dom().contains(a) && after[a] == origin[a]);
            assert(b != p && b != q ==> origin.dom().contains(b) && after[b] == origin[b]);
        }
        assert forall|r: (int, int)| after.values().contains(r) <==> start.dom().contains(r) by {
            assert(origin.values().contains(r) <==> start.dom().contains(r));
            if after.values().contains(r) {
                let a = choose|a: (int, int)| #[trigger] after.dom().contains(a) && after[a] == r;
                if a == q {
                    assert(origin.dom().contains(p) && origin[p] == r);
                } else if a == p {
                    assert(origin.dom().contains(q) && origin[q] == r);
                } else {
                    assert(origin.dom().contains(a) && origin[a] == r);
                }
            }
            if origin.values().contains(r) {
                let a = choose|a: (int, int)| #[trigger] origin.dom().contains(a) && origin[a] == r;
                if a == p {
                    assert(after.dom().contains(q) && after[q] == r);
                } else if a == q {
                    assert(after.dom().contains(p) && after[p] == r);
                } else {
                    assert(after.dom().contains(a) && after[a] == r);
                }
            }
        }
        assert(after.values() =~= start.dom());
        after
    }
}

/// Nothing moves twice in a tick, whatever its phase and whether it moves on
/// its own or is displaced: the cells after a tick are those before it, each
/// in its own place or in one next to it.
pub proof fn law_nothing_moves_twice(
    cells: Map<(int, int), u8>,
    materials: Seq<Material>,
    rightward: bool,
    flips: Seq<bool>,
)
    requires
        covers(materials, cells),
    ensures
        exists|origin: Map<(int, int), (int, int)>|
            is_origin(origin, cells, ticked(cells, materials, rightward, flips).cells),
{
    assert forall|p: (int, int)| #[trigger] cells.dom().contains(p) implies cells[p] != 0 by {
        assert(cells.dom().contains((p.0, p.1)));
    }
    let origin = Tick::start(cells).lemma_traced(
        materials,
        turn_order(cells.dom(), rightward),
        flips,
    );
    assert(is_origin(origin, cells, ticked(cells, materials, rightward, flips).cells));
}

/// No cell is free to go anywhere, however the coins fall.
pub open spec fn is_settled(cells: Map<(int, int), u8>, materials: Seq<Material>) -> bool {
    forall|x: int, y: int, first: bool, second: bool|
        cells.dom().contains((x, y)) ==> #[trigger] Tick::start(cells).heading(
            materials,
            x,
            y,
            first,
            second,
        ) is None
}

impl Tick {
    proof fn lemma_settled(
        self,
        materials: Seq<Material>,
        order: Seq<(int, int)>,
        flips: Seq<bool>,
    )
        requires
            is_settled(self.cells, materials),
            self.moved == Set::<(int, int)>::empty(),
        ensures
            self.swept(materials, order, flips).cells == self.cells,
            self.swept(materials, order, flips).moved == self.moved,
        decreases order.len(),
    {
        if order.len() > 0 {
            self.lemma_settled(materials, order.drop_last(), flips);
            let before = self.swept(materials, order.drop_last(), flips);
            let (x, y) = order.last();
            let (first, second) = (flips[before.flipped], flips[before.flipped + 1]);
            assert(before.heading(materials, x, y, first, second) == Tick::start(
                self.cells,
            ).heading(materials, x, y, first, second));
        }
    }
}

/// Where no cell is free to go anywhere a tick changes nothing, and no later
/// one does.
pub proof fn law_settled_cells_rest(
    cells: Map<(int, int), u8>,
    materials: Seq<Material>,
    rightward: bool,
    flips: Seq<bool>,
)
    requires
        is_settled(cells, materials),
    ensures
        ticked(cells, materials, rightward, flips).cells == cells,
{
    Tick::start(cells).lemma_settled(materials, turn_order(cells.dom(), rightward), flips);
}

/// A lone cell falls, or rises, exactly one row in a tick.
pub proof fn law_lone_cell_falls(
    materials: Seq<Material>,
    rightward: bool,
    flips: Seq<bool>,
    id: u8,
    x: int,
    y: int,
)
    requires
        id != 0,
        is_mobile(materials[id as int].phase),
    ensures
        ticked(map![(x, y) => id], materials, rightward, flips).cells == map![(x, if materials[id as int].phase is Gas {
            y - 1
        } else {
            y + 1
        }) => id],
{
    let cells = map![(x, y) => id];
    let order = seq![(x, y)];
    let places = cells.dom();
    assert(places =~= set![(x, y)]);
    lemma_turn_order(places, rightward);
    assert(order.to_set() =~= places) by {
        assert(order[0] == (x, y));
    }
    law_turn_order_is_unique(order, turn_order(places, rightward), places, rightward);
    let start = Tick::start(cells);
    assert(order.drop_last() =~= Seq::empty());
    assert(start.swept(materials, order.drop_last(), flips) == start);
    let all = headings(materials[id as int].phase, flips[0], flips[1]);
    let dy = if materials[id as int].phase is Gas {
        -1int
    } else {
        1int
    };
    assert(all[0] == (0int, dy));
    assert(content(cells, x, y + dy) == 0);
    assert(ticked(cells, materials, rightward, flips).cells =~= map![(x, y + dy) => id]);
}

/// A column of one material, from one row down to another.
pub open spec fn column(id: u8, x: int, top: int, bottom: int) -> Map<(int, int), u8> {
    Map::new(|p: (int, int)| p.0 == x && top <= p.1 <= bottom, |p: (int, int)| id)
}

/// A column of which the lowest `k` cells have fallen one row.
spec fn column_under_way(id: u8, x: int, top: int, bottom: int, k: int) -> Tick {
    Tick {
        cells: Map::new(
            |p: (int, int)|
                p.0 == x && (top <= p.1 <= bottom - k || bottom - k + 2 <= p.1 <= bottom + 1),
            |p: (int, int)| id,
        ),
        moved: Set::new(|p: (int, int)| p.0 == x && bottom - k + 2 <= p.1 <= bottom + 1),
        flipped: 0,
    }
}

proof fn lemma_column(
    materials: Seq<Material>,
    flips: Seq<bool>,
    id: u8,
    x: int,
    top: int,
    bottom: int,
    order: Seq<(int, int)>,
)
    requires
        id != 0,
        materials[id as int].phase is Powder || materials[id as int].phase is Liquid,
        order.len() <= bottom - top + 1,
        forall|i: int| 0 <= i < order.len() ==> #[trigger] order[i] == (x, bottom - i),
    ensures
        ({
            let now = Tick::start(column(id, x, top, bottom)).swept(materials, order, flips);
            let expected = column_under_way(id, x, top, bottom, order.len() as int);
            now.cells == expected.cells && now.moved == expected.moved
        }),
    decreases order.len(),
{
    let start = Tick::start(column(id, x, top, bottom));
    let k = order.len() as int;
    let expected = column_under_way(id, x, top, bottom, k);
    if k == 0 {
        assert(start.cells =~= expected.cells);
        assert(start.moved =~= expected.moved);
    } else {
        lemma_column(materials, flips, id, x, top, bottom, order.drop_last());
        let before = start.swept(materials, order.drop_last(), flips);
        let y = bottom - k + 1;
        assert(order.last() == (x, y));
        let (first, second) = (flips[before.flipped], flips[before.flipped + 1]);
        let all = headings(materials[id as int].phase, first, second);
        assert(before.waits(x, y));
        assert(all[0] == (0int, 1int));
        assert(content(before.cells, x, y + 1) == 0);
        assert(before.heading(materials, x, y, first, second) == Some((0int, 1int)));
        let after = start.swept(materials, order, flips);
        assert(after.cells =~= expected.cells);
        assert(after.moved =~= expected.moved);
    }
}

/// Falling resolves in a single pass: all of a free column falls one row in a
/// tick.
pub proof fn law_column_falls_together(
    materials: Seq<Material>,
    rightward: bool,
    flips: Seq<bool>,
    id: u8,
    x: int,
    top: int,
    bottom: int,
)
    requires
        id != 0,
        materials[id as int].phase is Powder || materials[id as int].phase is Liquid,
        top <= bottom,
    ensures
        ticked(column(id, x, top, bottom), materials, rightward, flips).cells == column(
            id,
            x,
            top + 1,
            bottom + 1,
        ),
{
    let cells = column(id, x, top, bottom);
    let order = Seq::new((bottom - top + 1) as nat, |i: int| (x, bottom - i));
    let places = cells.dom();
    assert forall|p: (int, int)| order.to_set().contains(p) <==> places.contains(p) by {
        if places.contains(p) {
            assert(order[bottom - p.1] == p);
        }
    }
    assert(order.to_set() =~= places);
    assert(is_turn_order(order, places, rightward));
    assert(is_turn_order(turn_order(places, rightward), places, rightward));
    law_turn_order_is_unique(order, turn_order(places, rightward), places, rightward);
    lemma_column(materials, flips, id, x, top, bottom, order);
    assert(ticked(cells, materials, rightward, flips).cells =~= column(id, x, top + 1, bottom + 1));
}

/// A way to lay out the plane anew: mirrored from left to right or not, and
/// then moved.
pub struct Layout {
    pub mirror: bool,
    pub dx: int,
    pub dy: int,
}

impl Layout {
    /// A heading in the new layout.
    pub open spec fn turned(self, heading: (int, int)) -> (int, int) {
        if self.mirror {
            (-heading.0, heading.1)
        } else {
            heading
        }
    }

    /// Where a place comes to lie.
    pub open spec fn carried(self, p: (int, int)) -> (int, int) {
        (self.turned(p).0 + self.dx, self.turned(p).1 + self.dy)
    }

    /// The place that comes to lie at `q`.
    pub open spec fn source(self, q: (int, int)) -> (int, int) {
        self.turned((q.0 - self.dx, q.1 - self.dy))
    }

    pub open spec fn places(self, places: Set<(int, int)>) -> Set<(int, int)> {
        Set::new(|q: (int, int)| places.contains(self.source(q)))
    }

    pub open spec fn cells(self, cells: Map<(int, int), u8>) -> Map<(int, int), u8> {
        Map::new(
            |q: (int, int)| cells.dom().contains(self.source(q)),
            |q: (int, int)| cells[self.source(q)],
        )
    }

    /// Coins that tell left from right the other way round, in a mirrored
    /// layout.
    pub open spec fn flips(self, flips: Seq<bool>) -> Seq<bool> {
        flips.map_values(|flip: bool| flip != self.mirror)
    }

    spec fn tick(self, tick: Tick) -> Tick {
        Tick {
            cells: self.cells(tick.cells),
            moved: self.places(tick.moved),
            flipped: tick.flipped,
        }
    }

    spec fn turned_all(self, headings: Seq<(int, int)>) -> Seq<(int, int)> {
        headings.map_values(|h: (int, int)| self.turned(h))
    }

    spec fn carried_all(self, places: Seq<(int, int)>) -> Seq<(int, int)> {
        places.map_values(|p: (int, int)| self.carried(p))
    }

    proof fn lemma_source(self, p: (int, int))
        ensures
            self.source(self.carried(p)) == p,
            self.carried(self.source(p)) == p,
    {
    }

    proof fn lemma_content(self, cells: Map<(int, int), u8>, x: int, y: int)
        ensures
            content(self.cells(cells), self.carried((x, y)).0, self.carried((x, y)).1) == content(
                cells,
                x,
                y,
            ),
    {
        self.lemma_source((x, y));
    }

    proof fn lemma_placed(self, cells: Map<(int, int), u8>, x: int, y: int, value: u8)
        ensures
            self.cells(placed(cells, x, y, value)) == placed(
                self.cells(cells),
                self.carried((x, y)).0,
                self.carried((x, y)).1,
                value,
            ),
    {
        let q = self.carried((x, y));
        assert forall|p: (int, int)| p != q implies #[trigger] self.source(p) != (x, y) by {
            self.lemma_source(p);
        }
        self.lemma_source((x, y));
        assert(self.cells(placed(cells, x, y, value)) =~= placed(self.cells(cells), q.0, q.1, value));
    }

    proof fn lemma_insert(self, places: Set<(int, int)>, p: (int, int))
        ensures
            self.places(places.insert(p)) == self.places(places).insert(self.carried(p)),
    {
        assert forall|q: (int, int)| q != self.carried(p) implies #[trigger] self.source(q) != p by {
            self.lemma_source(q);
        }
        self.lemma_source(p);
        assert(self.places(places.insert(p)) =~= self.places(places).insert(self.carried(p)));
    }

    proof fn lemma_first_open(
        self,
        cells: Map<(int, int), u8>,
        moved: Set<(int, int)>,
        materials: Seq<Material>,
        x: int,
        y: int,
        headings: Seq<(int, int)>,
    )
        ensures
            first_open(
                self.cells(cells),
                self.places(moved),
                materials,
                self.carried((x, y)).0,
                self.carried((x, y)).1,
                self.turned_all(headings),
            ) == (match first_open(cells, moved, materials, x, y, headings) {
                Some(heading) => Some(self.turned(heading)),
                None => None,
            }),
        decreases headings.len(),
    {
        if headings.len() > 0 {
            let (dx, dy) = headings[0];
            self.lemma_content(cells, x, y);
            self.lemma_content(cells, x + dx, y + dy);
            self.lemma_source((x + dx, y + dy));
            self.lemma_first_open(cells, moved, materials, x, y, headings.drop_first());
            assert(self.turned_all(headings).drop_first() =~= self.turned_all(
                headings.drop_first(),
            ));
            let (q, r) = (self.carried((x, y)), self.carried((x + dx, y + dy)));
            let (ex, ey) = self.turned((dx, dy));
            assert(self.turned_all(headings)[0] == (ex, ey));
            assert(r == (q.0 + ex, q.1 + ey));
        }
    }

    proof fn lemma_turn(
        self,
        tick: Tick,
        materials: Seq<Material>,
        x: int,
        y: int,
        first: bool,
        second: bool,
    )
        ensures
            self.tick(tick).turn(
                materials,
                self.carried((x, y)).0,
                self.carried((x, y)).1,
                first != self.mirror,
                second != self.mirror,
            ) == self.tick(tick.turn(materials, x, y, first, second)),
    {
        let q = self.carried((x, y));
        let phase = tick.phase_at(materials, x, y);
        self.lemma_source((x, y));
        self.lemma_content(tick.cells, x, y);
        let all = headings(phase, first, second);
        assert(headings(phase, first != self.mirror, second != self.mirror) =~= self.turned_all(
            all,
        ));
        self.lemma_first_open(tick.cells, tick.moved, materials, x, y, all);
        if let Some((dx, dy)) = tick.heading(materials, x, y, first, second) {
            let (ex, ey) = self.turned((dx, dy));
            let r = self.carried((x + dx, y + dy));
            assert(r == (q.0 + ex, q.1 + ey));
            self.lemma_content(tick.cells, x + dx, y + dy);
            let (here, there) = (content(tick.cells, x, y), content(tick.cells, x + dx, y + dy));
            self.lemma_placed(tick.cells, x, y, there);
            self.lemma_placed(placed(tick.cells, x, y, there), x + dx, y + dy, here);
            self.lemma_insert(tick.moved, (x + dx, y + dy));
            self.lemma_insert(tick.moved.insert((x + dx, y + dy)), (x, y));
        }
    }

    proof fn lemma_swept(
        self,
        tick: Tick,
        materials: Seq<Material>,
        order: Seq<(int, int)>,
        flips: Seq<bool>,
    )
        requires
            0 <= tick.flipped,
            tick.swept(materials, order, flips).flipped <= flips.len(),
        ensures
            self.tick(tick).swept(materials, self.carried_all(order), self.flips(flips))
                == self.tick(tick.swept(materials, order, flips)),
        decreases order.len(),
    {
        if order.len() > 0 {
            let before = tick.swept(materials, order.drop_last(), flips);
            let (x, y) = order.last();
            let (a, b) = (flips[before.flipped], flips[before.flipped + 1]);
            tick.lemma_swept(materials, order.drop_last(), flips, 0, 0);
            before.lemma_turn(materials, x, y, a, b, 0, 0);
            self.lemma_swept(tick, materials, order.drop_last(), flips);
            assert(self.carried_all(order).drop_last() =~= self.carried_all(order.drop_last()));
            self.lemma_turn(before, materials, x, y, a, b);
            let q = self.carried((x, y));
            let there = self.flips(flips);
            self.lemma_source((x, y));
            self.lemma_content(before.cells, x, y);
            self.tick(before).lemma_same_flips(
                materials,
                q.0,
                q.1,
                (a != self.mirror, b != self.mirror),
                (there[before.flipped], there[before.flipped + 1]),
            );
        }
    }

    proof fn lemma_order(self, order: Seq<(int, int)>, places: Set<(int, int)>, rightward: bool)
        requires
            is_turn_order(order, places, rightward),
        ensures
            is_turn_order(self.carried_all(order), self.places(places), rightward != self.mirror),
    {
        let there = self.carried_all(order);
        assert forall|q: (int, int)| there.to_set().contains(q) <==> self.places(places).contains(
            q,
        ) by {
            let p = self.source(q);
            self.lemma_source(q);
            assert(order.to_set().contains(p) <==> order.contains(p));
            if there.contains(q) {
                let i = choose|i: int| 0 <= i < there.len() && there[i] == q;
                self.lemma_source(order[i]);
                assert(order[i] == p);
            }
            if order.contains(p) {
                let i = choose|i: int| 0 <= i < order.len() && order[i] == p;
                assert(there[i] == q);
            }
        }
        assert(there.to_set() =~= self.places(places));
    }
}

/// A tick does not depend on where the cells lie, on chunk boundaries, or on
/// which side is left: ticking cells that were moved or mirrored is moving or
/// mirroring the ticked cells. In a mirrored tick the rows are scanned the
/// other way and the coins tell left from right the other way.
pub proof fn law_tick_is_symmetric(
    cells: Map<(int, int), u8>,
    materials: Seq<Material>,
    rightward: bool,
    flips: Seq<bool>,
    layout: Layout,
)
    requires
        cells.dom().finite(),
        ticked(cells, materials, rightward, flips).flipped <= flips.len(),
    ensures
        ticked(
            layout.cells(cells),
            materials,
            rightward != layout.mirror,
            layout.flips(flips),
        ).cells == layout.cells(ticked(cells, materials, rightward, flips).cells),
{
    let order = turn_order(cells.dom(), rightward);
    let there = layout.carried_all(order);
    let places = layout.cells(cells).dom();
    lemma_turn_order(cells.dom(), rightward);
    layout.lemma_order(order, cells.dom(), rightward);
    assert(places =~= layout.places(cells.dom()));
    assert(is_turn_order(turn_order(places, rightward != layout.mirror), places, rightward
        != layout.mirror));
    law_turn_order_is_unique(
        there,
        turn_order(places, rightward != layout.mirror),
        places,
        rightward != layout.mirror,
    );
    layout.lemma_swept(Tick::start(cells), materials, order, flips);
    assert(layout.tick(Tick::start(cells)) =~= Tick::start(layout.cells(cells)));
}

/// What holds nothing, or has moved this tick, gets no turn.
pub proof fn law_only_waiting_cells_get_a_turn(
    tick: Tick,
    materials: Seq<Material>,
    x: int,
    y: int,
    first: bool,
    second: bool,
)
    requires
        !tick.cells.dom().contains((x, y)) || tick.moved.contains((x, y)),
    ensures
        tick.turn(materials, x, y, first, second) == tick,
{
}

/// What a waiting cell does in its turn. A powder or a liquid goes down and a
/// gas goes up: straight if that way is free, and otherwise diagonally, to
/// either side. A liquid that can do neither goes sideways. Where both sides are
/// free, a coin decides. A way is free if the place is empty, or if it lies
/// above or below and holds a liquid or a gas that has not moved this tick and
/// is lighter, for one that goes down, or heavier, for one that goes up. The
/// cell and what it finds there change places, and both have moved. What has no
/// free way stays, and so does what neither falls nor rises.
pub proof fn law_turn(
    tick: Tick,
    materials: Seq<Material>,
    x: int,
    y: int,
    first: bool,
    second: bool,
)
    requires
        tick.cells.dom().contains((x, y)),
        !tick.moved.contains((x, y)),
        forall|p: (int, int)| #[trigger] tick.cells.dom().contains(p) ==> tick.cells[p] != 0,
    ensures
        ({
            let id = tick.cells[(x, y)];
            let mover = materials[id as int];
            let after = tick.turn(materials, x, y, first, second);
            let free = |dx: int, dy: int|
                !tick.cells.dom().contains((x + dx, y + dy)) || {
                    let other = materials[tick.cells[(x + dx, y + dy)] as int];
                    &&& dy != 0
                    &&& !tick.moved.contains((x + dx, y + dy))
                    &&& other.phase is Liquid || other.phase is Gas
                    &&& dy > 0 ==> mover.density.exceeds(other.density)
                    &&& dy < 0 ==> other.density.exceeds(mover.density)
                };
            let goes = |dx: int, dy: int|
                if tick.cells.dom().contains((x + dx, y + dy)) {
                    &&& after.cells == tick.cells.insert((x + dx, y + dy), id).insert(
                        (x, y),
                        tick.cells[(x + dx, y + dy)],
                    )
                    &&& after.moved == tick.moved.insert((x + dx, y + dy)).insert((x, y))
                } else {
                    &&& after.cells == tick.cells.remove((x, y)).insert((x + dx, y + dy), id)
                    &&& after.moved == tick.moved.insert((x + dx, y + dy))
                };
            let stays = after.cells == tick.cells && after.moved == tick.moved;
            let falls = mover.phase is Powder || mover.phase is Liquid;
            let rises = mover.phase is Gas;
            let dy = if rises {
                -1int
            } else {
                1int
            };
            let ahead = free(0, dy) || free(-1, dy) || free(1, dy);
            &&& !falls && !rises ==> stays
            &&& (falls || rises) && free(0, dy) ==> goes(0, dy)
            &&& (falls || rises) && !free(0, dy) && free(-1, dy) && !(first && free(1, dy)) ==> goes(
                -1,
                dy,
            )
            &&& (falls || rises) && !free(0, dy) && free(1, dy) && (first || !free(-1, dy)) ==> goes(
                1,
                dy,
            )
            &&& mover.phase is Liquid && !ahead && free(-1, 0) && !(second && free(1, 0)) ==> goes(
                -1,
                0,
            )
            &&& mover.phase is Liquid && !ahead && free(1, 0) && (second || !free(-1, 0)) ==> goes(
                1,
                0,
            )
            &&& mover.phase is Liquid && !ahead && !free(-1, 0) && !free(1, 0) ==> stays
            &&& !(mover.phase is Liquid) && !ahead ==> stays
            &&& after.flipped == tick.flipped + (if mover.phase is Liquid {
                2int
            } else if falls || rises {
                1
            } else {
                0
            })
        }),
{
    let id = tick.cells[(x, y)];
    let mover = materials[id as int];
    let all = headings(mover.phase, first, second);
    let after = tick.turn(materials, x, y, first, second);
    lemma_ways(tick.cells, tick.moved, materials, x, y, all);
    assert(content(tick.cells, x, y) == id);
    if let Some((dx, dy)) = tick.heading(materials, x, y, first, second) {
        let q = (x + dx, y + dy);
        tick.lemma_heading(materials, x, y, first, second);
        if tick.cells.dom().contains(q) {
            assert(after.cells =~= tick.cells.insert(q, id).insert((x, y), tick.cells[q]));
        } else {
            assert(after.cells =~= tick.cells.remove((x, y)).insert(q, id));
        }
    }
}

/// The first of up to five ways that is open.
proof fn lemma_ways(
    cells: Map<(int, int), u8>,
    moved: Set<(int, int)>,
    materials: Seq<Material>,
    x: int,
    y: int,
    all: Seq<(int, int)>,
)
    requires
        all.len() == 0 || all.len() == 3 || all.len() == 5,
    ensures
        ({
            let open = |i: int| is_open(cells, moved, materials, x, y, all[i]);
            first_open(cells, moved, materials, x, y, all) == (if all.len() == 0 {
                None
            } else if open(0) {
                Some(all[0])
            } else if open(1) {
                Some(all[1])
            } else if open(2) {
                Some(all[2])
            } else if all.len() == 3 {
                None
            } else if open(3) {
                Some(all[3])
            } else if open(4) {
                Some(all[4])
            } else {
                None
            })
        }),
{
    reveal_with_fuel(first_open, 6);
    if all.len() > 0 {
        let (b, c) = (all.drop_first(), all.drop_first().drop_first());
        assert(b[0] == all[1] && c[0] == all[2]);
        let d = c.drop_first();
        if all.len() == 5 {
            assert(d[0] == all[3] && d.drop_first()[0] == all[4]);
            assert(d.drop_first().drop_first().len() == 0);
        } else {
            assert(d.len() == 0);
        }
    }
}

/// Powders and liquids slide off what they lie on, through fluids too: where
/// the place below is blocked and a fluid that is lighter and has not moved
/// lies diagonally below on each side, the cell changes places with one of the
/// two, and the other stays.
pub proof fn law_heavier_cells_slide_through_lighter_fluids(
    tick: Tick,
    materials: Seq<Material>,
    x: int,
    y: int,
    first: bool,
    second: bool,
)
    requires
        forall|p: (int, int)| #[trigger] tick.cells.dom().contains(p) ==> tick.cells[p] != 0,
        tick.cells.dom().contains((x, y)),
        !tick.moved.contains((x, y)),
        materials[tick.cells[(x, y)] as int].phase is Powder
            || materials[tick.cells[(x, y)] as int].phase is Liquid,
        tick.cells.dom().contains((x, y + 1)),
        ({
            let below = materials[tick.cells[(x, y + 1)] as int];
            ||| below.phase is Solid
            ||| below.phase is Powder
            ||| below.phase is Empty
            ||| tick.moved.contains((x, y + 1))
            ||| !materials[tick.cells[(x, y)] as int].density.exceeds(below.density)
        }),
        ({
            let passable = |p: (int, int)|
                {
                    let other = materials[tick.cells[p] as int];
                    &&& tick.cells.dom().contains(p)
                    &&& !tick.moved.contains(p)
                    &&& other.phase is Liquid || other.phase is Gas
                    &&& materials[tick.cells[(x, y)] as int].density.exceeds(other.density)
                };
            passable((x - 1, y + 1)) && passable((x + 1, y + 1))
        }),
    ensures
        ({
            let after = tick.turn(materials, x, y, first, second).cells;
            let slid = |p: (int, int)|
                {
                    &&& after[p] == tick.cells[(x, y)]
                    &&& after[(x, y)] == tick.cells[p]
                    &&& after.dom() == tick.cells.dom()
                    &&& forall|q: (int, int)|
                        q != (x, y) && q != p ==> #[trigger] after[q] == tick.cells[q]
                };
            slid((x - 1, y + 1)) || slid((x + 1, y + 1))
        }),
{
    law_turn(tick, materials, x, y, first, second);
    let after = tick.turn(materials, x, y, first, second).cells;
    let dx = if first {
        1int
    } else {
        -1int
    };
    assert(x + -1 == x - 1);
    assert(after == tick.cells.insert((x + dx, y + 1), tick.cells[(x, y)]).insert(
        (x, y),
        tick.cells[(x + dx, y + 1)],
    ));
    assert(after.dom() =~= tick.cells.dom());
}

/// A tick gives each cell that holds something at its start one turn, one after
/// the other: rows from the bottom up, and in a row from left to right or the
/// other way. The first turn finds the cells as they are at the start, with none
/// moved, and each later one what the turn before it left. Each turn takes its
/// coins from where the one before it stopped.
pub proof fn law_tick_is_one_turn_each(
    cells: Map<(int, int), u8>,
    materials: Seq<Material>,
    rightward: bool,
    flips: Seq<bool>,
) -> (r: (Seq<(int, int)>, Seq<Tick>))
    requires
        cells.dom().finite(),
    ensures
        ({
            let (order, states) = r;
            &&& order.no_duplicates()
            &&& forall|p: (int, int)| #[trigger] cells.dom().contains(p) <==> order.contains(p)
            &&& forall|i: int, j: int|
                0 <= i < j < order.len() ==> {
                    let (p, q) = (#[trigger] order[i], #[trigger] order[j]);
                    p.1 > q.1 || (p.1 == q.1 && (rightward ==> p.0 < q.0) && (!rightward ==> p.0
                        > q.0))
                }
            &&& states.len() == order.len() + 1
            &&& states[0] == (Tick { cells, moved: Set::empty(), flipped: 0 })
            &&& forall|i: int|
                #![trigger order[i]]
                0 <= i < order.len() ==> states[i + 1] == states[i].turn(
                    materials,
                    order[i].0,
                    order[i].1,
                    flips[states[i].flipped],
                    flips[states[i].flipped + 1],
                )
            &&& states.last() == ticked(cells, materials, rightward, flips)
        }),
{
    let order = turn_order(cells.dom(), rightward);
    let start = Tick::start(cells);
    let states = Seq::new(
        order.len() + 1,
        |i: int| start.swept(materials, order.take(i), flips),
    );
    lemma_turn_order(cells.dom(), rightward);
    assert forall|i: int, j: int| 0 <= i < j < order.len() implies order[i] != order[j] by {
        assert(turn_before(rightward, order[i], order[j]));
    }
    assert forall|p: (int, int)| #[trigger] cells.dom().contains(p) <==> order.contains(p) by {
        assert(order.to_set().contains(p) <==> order.contains(p));
    }
    assert(order.take(0).len() == 0);
    assert(order.take(order.len() as int) =~= order);
    assert forall|i: int|
        #![trigger order[i]]
        0 <= i < order.len() implies states[i + 1] == states[i].turn(
        materials,
        order[i].0,
        order[i].1,
        flips[states[i].flipped],
        flips[states[i].flipped + 1],
    ) by {
        assert(order.take(i + 1).drop_last() =~= order.take(i));
        assert(order.take(i + 1).last() == order[i]);
    }
    (order, states)
}

/// What a place holds, and what putting something there makes of the cells.
pub proof fn law_places(cells: Map<(int, int), u8>, x: int, y: int, value: u8)
    ensures
        cells.dom().contains((x, y)) ==> content(cells, x, y) == cells[(x, y)],
        !cells.dom().contains((x, y)) ==> content(cells, x, y) == 0,
        value == 0 ==> placed(cells, x, y, value) == cells.remove((x, y)),
        value != 0 ==> placed(cells, x, y, value) == cells.insert((x, y), value),
{
}

/// Every id is in the table: none is 0, which stands for nothing, and none lies
/// past its end.
pub proof fn law_covers(materials: Seq<Material>, cells: Map<(int, int), u8>)
    ensures
        covers(materials, cells) <==> forall|p: (int, int)| #[trigger]
            cells.dom().contains(p) ==> 0 < cells[p] < materials.len(),
{
    if covers(materials, cells) {
        assert forall|p: (int, int)| #[trigger] cells.dom().contains(p) implies 0 < cells[p]
            < materials.len() by {
            assert(cells.dom().contains((p.0, p.1)));
        }
    }
}

/// The way is free: the place is empty, or holds a fluid above or below that
/// the cell can pass.
pub open spec fn is_way_free(
    cells: Map<(int, int), u8>,
    materials: Seq<Material>,
    x: int,
    y: int,
    dx: int,
    dy: int,
) -> bool {
    !cells.dom().contains((x + dx, y + dy)) || {
        let (mover, other) = (
            materials[cells[(x, y)] as int],
            materials[cells[(x + dx, y + dy)] as int],
        );
        &&& dy != 0
        &&& other.phase is Liquid || other.phase is Gas
        &&& dy > 0 ==> mover.density.exceeds(other.density)
        &&& dy < 0 ==> other.density.exceeds(mover.density)
    }
}

/// The cell can go somewhere.
pub open spec fn has_way(
    cells: Map<(int, int), u8>,
    materials: Seq<Material>,
    x: int,
    y: int,
) -> bool {
    let free = |dx: int, dy: int| is_way_free(cells, materials, x, y, dx, dy);
    match materials[cells[(x, y)] as int].phase {
        Phase::Powder => free(0, 1) || free(-1, 1) || free(1, 1),
        Phase::Liquid => free(0, 1) || free(-1, 1) || free(1, 1) || free(-1, 0) || free(1, 0),
        Phase::Gas => free(0, -1) || free(-1, -1) || free(1, -1),
        _ => false,
    }
}

impl Tick {
    /// What has moved stays where it is.
    proof fn lemma_moved_stays(
        self,
        materials: Seq<Material>,
        order: Seq<(int, int)>,
        flips: Seq<bool>,
        p: (int, int),
    )
        requires
            self.moved.contains(p),
            self.cells.dom().contains(p),
            forall|q: (int, int)| #[trigger] self.cells.dom().contains(q) ==> self.cells[q] != 0,
        ensures
            ({
                let after = self.swept(materials, order, flips);
                &&& after.moved.contains(p)
                &&& after.cells.dom().contains(p)
                &&& after.cells[p] == self.cells[p]
                &&& forall|q: (int, int)| #[trigger]
                    after.cells.dom().contains(q) ==> after.cells[q] != 0
            }),
        decreases order.len(),
    {
        if order.len() > 0 {
            self.lemma_moved_stays(materials, order.drop_last(), flips, p);
            let before = self.swept(materials, order.drop_last(), flips);
            let (x, y) = order.last();
            let (first, second) = (flips[before.flipped], flips[before.flipped + 1]);
            before.lemma_heading(materials, x, y, first, second);
            if before.waits(x, y) {
                if let Some((dx, dy)) = before.heading(materials, x, y, first, second) {
                    assert(p != (x, y));
                    assert(content(before.cells, x + dx, y + dy) == 0 || !before.moved.contains(
                        (x + dx, y + dy),
                    ));
                }
            }
        }
    }

    /// Turns can be taken in two goes.
    proof fn lemma_swept_on(
        self,
        materials: Seq<Material>,
        a: Seq<(int, int)>,
        b: Seq<(int, int)>,
        flips: Seq<bool>,
    )
        ensures
            self.swept(materials, a + b, flips) == self.swept(materials, a, flips).swept(
                materials,
                b,
                flips,
            ),
        decreases b.len(),
    {
        if b.len() == 0 {
            assert(a + b =~= a);
        } else {
            assert((a + b).drop_last() =~= a + b.drop_last());
            assert((a + b).last() == b.last());
            self.lemma_swept_on(materials, a, b.drop_last(), flips);
        }
    }
}

/// A cell takes its turn to go somewhere if and only if it can.
proof fn lemma_has_way(
    cells: Map<(int, int), u8>,
    materials: Seq<Material>,
    x: int,
    y: int,
    flipped: int,
    first: bool,
    second: bool,
)
    requires
        cells.dom().contains((x, y)),
        forall|p: (int, int)| #[trigger] cells.dom().contains(p) ==> cells[p] != 0,
    ensures
        ({
            let tick = Tick { cells, moved: Set::empty(), flipped };
            tick.heading(materials, x, y, first, second) is Some <==> has_way(cells, materials, x, y)
        }),
{
    let tick = Tick { cells, moved: Set::empty(), flipped };
    let all = headings(tick.phase_at(materials, x, y), first, second);
    lemma_ways(cells, tick.moved, materials, x, y, all);
    assert forall|i: int| 0 <= i < all.len() implies is_open(
        cells,
        tick.moved,
        materials,
        x,
        y,
        #[trigger] all[i],
    ) == is_way_free(cells, materials, x, y, all[i].0, all[i].1) by {}
    if all.len() > 0 {
        assert(all[0] == all[0] && all[1] == all[1] && all[2] == all[2]);
        if all.len() == 5 {
            assert(all[3] == all[3] && all[4] == all[4]);
        }
    }
}

/// A tick changes the cells if and only if one of them can go somewhere: the
/// world rests exactly when nothing in it is free to move.
pub proof fn law_tick_rests_only_when_nothing_can_move(
    cells: Map<(int, int), u8>,
    materials: Seq<Material>,
    rightward: bool,
    flips: Seq<bool>,
)
    requires
        cells.dom().finite(),
        forall|p: (int, int)| #[trigger] cells.dom().contains(p) ==> cells[p] != 0,
    ensures
        ticked(cells, materials, rightward, flips).cells != cells <==> exists|x: int, y: int|
            cells.dom().contains((x, y)) && #[trigger] has_way(cells, materials, x, y),
{
    let order = turn_order(cells.dom(), rightward);
    let start = Tick::start(cells);
    lemma_turn_order(cells.dom(), rightward);
    if exists|x: int, y: int|
        cells.dom().contains((x, y)) && #[trigger] has_way(cells, materials, x, y) {
        let (x, y) = choose|x: int, y: int|
            cells.dom().contains((x, y)) && #[trigger] has_way(cells, materials, x, y);
        assert(order.to_set().contains((x, y)) <==> order.contains((x, y)));
        let i = choose|i: int| 0 <= i < order.len() && order[i] == (x, y);
        let k = lemma_first_way(cells, materials, order, i);
        let (u, v) = order[k];
        assert(order.to_set().contains(order[k]) <==> order.contains(order[k]));
        lemma_no_way_no_change(cells, materials, order.take(k), flips);
        let before = start.swept(materials, order.take(k), flips);
        assert(before.moved =~= Set::empty());
        let (first, second) = (flips[before.flipped], flips[before.flipped + 1]);
        lemma_has_way(cells, materials, u, v, before.flipped, first, second);
        let after = before.visited(materials, u, v, flips);
        before.lemma_heading(materials, u, v, first, second);
        let (dx, dy) = before.heading(materials, u, v, first, second)->0;
        let q = (u + dx, v + dy);
        assert(after.moved.contains(q) && after.cells.dom().contains(q) && after.cells[q]
            == cells[(u, v)]);
        assert(cells.dom().contains(q) ==> cells[q] != cells[(u, v)]);
        assert(order.take(k + 1).drop_last() =~= order.take(k));
        assert(order.take(k + 1).last() == order[k]);
        assert(order =~= order.take(k + 1) + order.skip(k + 1));
        start.lemma_swept_on(materials, order.take(k + 1), order.skip(k + 1), flips);
        after.lemma_moved_stays(materials, order.skip(k + 1), flips, q);
    } else {
        assert forall|i: int| 0 <= i < order.len() implies cells.dom().contains(#[trigger] order[i])
            && !has_way(cells, materials, order[i].0, order[i].1) by {
            assert(order.contains(order[i]));
            assert(order.to_set().contains(order[i]));
            assert(cells.dom().contains((order[i].0, order[i].1)));
        }
        lemma_no_way_no_change(cells, materials, order, flips);
    }
}

/// The first cell in the order that can go somewhere.
proof fn lemma_first_way(
    cells: Map<(int, int), u8>,
    materials: Seq<Material>,
    order: Seq<(int, int)>,
    i: int,
) -> (k: int)
    requires
        0 <= i < order.len(),
        has_way(cells, materials, order[i].0, order[i].1),
        forall|j: int| 0 <= j < order.len() ==> order.to_set().contains(#[trigger] order[j]),
        order.to_set() == cells.dom(),
    ensures
        0 <= k < order.len(),
        has_way(cells, materials, order[k].0, order[k].1),
        forall|j: int|
            0 <= j < k ==> cells.dom().contains(#[trigger] order.take(k)[j]) && !has_way(
                cells,
                materials,
                order.take(k)[j].0,
                order.take(k)[j].1,
            ),
    decreases i,
{
    if exists|j: int| 0 <= j < i && has_way(cells, materials, (#[trigger] order[j]).0, order[j].1) {
        let j = choose|j: int|
            0 <= j < i && has_way(cells, materials, (#[trigger] order[j]).0, order[j].1);
        lemma_first_way(cells, materials, order, j)
    } else {
        assert forall|j: int| 0 <= j < i implies cells.dom().contains(#[trigger] order.take(i)[j])
            && !has_way(cells, materials, order.take(i)[j].0, order.take(i)[j].1) by {
            assert(order.take(i)[j] == order[j]);
        }
        i
    }
}

proof fn lemma_no_way_no_change(
    cells: Map<(int, int), u8>,
    materials: Seq<Material>,
    order: Seq<(int, int)>,
    flips: Seq<bool>,
)
    requires
        forall|p: (int, int)| #[trigger] cells.dom().contains(p) ==> cells[p] != 0,
        forall|i: int|
            0 <= i < order.len() ==> cells.dom().contains(#[trigger] order[i]) && !has_way(
                cells,
                materials,
                order[i].0,
                order[i].1,
            ),
    ensures
        Tick::start(cells).swept(materials, order, flips).cells == cells,
        Tick::start(cells).swept(materials, order, flips).moved == Set::<(int, int)>::empty(),
    decreases order.len(),
{
    if order.len() > 0 {
        let (x, y) = order[order.len() - 1];
        assert forall|i: int| 0 <= i < order.drop_last().len() implies cells.dom().contains(
            #[trigger] order.drop_last()[i],
        ) && !has_way(cells, materials, order.drop_last()[i].0, order.drop_last()[i].1) by {
            assert(order.drop_last()[i] == order[i]);
        }
        lemma_no_way_no_change(cells, materials, order.drop_last(), flips);
        let before = Tick::start(cells).swept(materials, order.drop_last(), flips);
        let (first, second) = (flips[before.flipped], flips[before.flipped + 1]);
        lemma_has_way(cells, materials, x, y, before.flipped, first, second);
    }
}

/// What may enter what: anything an empty cell; nothing a cell that holds
/// something when going sideways, nor one that holds a solid or a powder; and
/// otherwise the heavier one going down and the lighter one going up.
pub proof fn law_displacement(materials: Seq<Material>, mover: Material, target: u8, dy: int)
    ensures
        enters(materials, mover, 0, dy),
        target != 0 ==> {
            let other = materials[target as int];
            let fluid = other.phase is Liquid || other.phase is Gas;
            &&& !fluid ==> !enters(materials, mover, target, dy)
            &&& dy == 0 ==> !enters(materials, mover, target, dy)
            &&& fluid && dy > 0 ==> (enters(materials, mover, target, dy)
                <==> mover.density.exceeds(other.density))
            &&& fluid && dy < 0 ==> (enters(materials, mover, target, dy)
                <==> other.density.exceeds(mover.density))
        },
{
}

} // verus!
