//! The state of the simulator and what the controls do to it.
use rand::rngs::StdRng;
use vstd::prelude::*;

use crate::chance::{fresh_rng, Chance};
use crate::material::{builtin_materials, Material, MaterialId, EMPTY, SAND, STONE};
use crate::pacing::{cap_rect, faster, next_preset, prev_preset, slower, DEFAULT_TICK_MS};
use crate::physics::PhysicsWorld;
use crate::picture::{import_picture, Picture, PictureError};
use crate::rule::{builtin_rules, BsRule, NamedRule};
use crate::scene::default_physics_scene;
use crate::stack::{EditCommand, EditorView, StackEditor, StackEntry};
use crate::text::same_text;
use crate::theme::{themes, Theme};
use crate::world::World;
#[allow(unused_imports)]
use crate::{chance, pacing, physics, picture, scatter, scene, stack, theme, tick, world};

verus! {

/// Which simulation is active. Both worlds are kept alive; switching modes
/// just changes which one steps, paints, and renders.
#[derive(Clone, Copy, PartialEq, Eq, Debug, Structural)]
pub enum SimMode {
    CellularAutomaton,
    Physics,
}

impl SimMode {
    pub open spec fn spec_other(self) -> SimMode {
        match self {
            SimMode::CellularAutomaton => SimMode::Physics,
            SimMode::Physics => SimMode::CellularAutomaton,
        }
    }

    #[verifier::when_used_as_spec(spec_other)]
    pub fn other(self) -> (r: SimMode)
        ensures
            r == self.other(),
    {
        match self {
            SimMode::CellularAutomaton => SimMode::Physics,
            SimMode::Physics => SimMode::CellularAutomaton,
        }
    }
}

/// The simulator: both worlds, what is selected, and how it runs.
pub struct Simulator {
    pub mode: SimMode,
    pub world: World,
    pub physics: PhysicsWorld,
    /// World state captured by the save button; restore rolls back to it.
    /// One slot per mode so switching modes doesn't clobber the other's save.
    pub snapshot: Option<World>,
    pub physics_snapshot: Option<PhysicsWorld>,
    pub materials: Vec<Material>,
    /// The material painted by left-click or drag in physics mode.
    pub selected_material: MaterialId,
    pub rules: Vec<NamedRule>,
    pub rule_index: usize,
    pub themes: Vec<Theme>,
    pub theme_index: usize,
    pub editor: StackEditor,
    pub stack_enabled: bool,
    /// Generation at which the stack (re)started; replay resets it to "now".
    pub stack_origin: u64,
    pub running: bool,
    pub tick_ms: u64,
    /// By how much the last step changed the population.
    pub pop_delta: i64,
    /// When true, dropped images stamp bright pixels as live cells instead
    /// of dark ones.
    pub invert_import: bool,
    /// While the mouse is held on the canvas, the cell value being painted:
    /// alive if the stroke started on a dead cell, dead otherwise.
    pub painting: Option<bool>,
    /// Physics-mode equivalent: the material being stroked (Empty = erasing).
    pub paint_material: Option<MaterialId>,
    pub rng: StdRng,
}

/// What the simulator stands for.
#[verifier::ext_equal]
pub struct SimView {
    pub mode: SimMode,
    pub live: Set<(int, int)>,
    pub generation: u64,
    pub cells: Map<(int, int), u8>,
    pub ticks: u64,
    pub snapshot: Option<(Set<(int, int)>, u64)>,
    pub physics_snapshot: Option<(Map<(int, int), u8>, u64)>,
    pub materials: Seq<Material>,
    pub selected_material: u8,
    pub rules: Seq<NamedRule>,
    pub rule_index: int,
    pub themes: Seq<Theme>,
    pub theme_index: int,
    pub editor: EditorView,
    pub stack_enabled: bool,
    pub stack_origin: u64,
    pub running: bool,
    pub tick_ms: u64,
    pub pop_delta: int,
    pub invert_import: bool,
    pub painting: Option<bool>,
    pub paint_material: Option<u8>,
    /// The words that the generator will give out.
    pub words: Map<int, u64>,
}

impl View for Simulator {
    type V = SimView;

    open spec fn view(&self) -> SimView {
        SimView {
            mode: self.mode,
            live: self.world@,
            generation: self.world.generation(),
            cells: self.physics@,
            ticks: self.physics.generation(),
            snapshot: match self.snapshot {
                Some(world) => Some((world@, world.generation())),
                None => None,
            },
            physics_snapshot: match self.physics_snapshot {
                Some(physics) => Some((physics@, physics.generation())),
                None => None,
            },
            materials: self.materials@,
            selected_material: self.selected_material,
            rules: self.rules@,
            rule_index: self.rule_index as int,
            themes: self.themes@,
            theme_index: self.theme_index as int,
            editor: self.editor@,
            stack_enabled: self.stack_enabled,
            stack_origin: self.stack_origin,
            running: self.running,
            tick_ms: self.tick_ms,
            pop_delta: self.pop_delta as int,
            invert_import: self.invert_import,
            painting: self.painting,
            paint_material: self.paint_material,
            words: chance::words_of(self.rng),
        }
    }
}

impl SimView {
    /// The indices point into their tables, the materials are known, and the
    /// speed is within its limits.
    pub open spec fn is_valid(self) -> bool {
        &&& STONE < self.materials.len() <= 256
        &&& self.selected_material < self.materials.len()
        &&& (self.paint_material matches Some(material) ==> material < self.materials.len())
        &&& tick::covers(self.materials, self.cells)
        &&& (self.physics_snapshot matches Some(saved) ==> tick::covers(self.materials, saved.0))
        &&& 0 <= self.rule_index < self.rules.len()
        &&& 0 <= self.theme_index < self.themes.len()
        &&& self.editor.consistent()
        &&& pacing::MIN_TICK_MS <= self.tick_ms <= pacing::MAX_TICK_MS
    }

    /// How long the stack has been running.
    pub open spec fn stack_generation(self) -> int {
        if self.generation >= self.stack_origin {
            self.generation - self.stack_origin
        } else {
            0
        }
    }

    /// The length of the stack can be counted.
    pub open spec fn stack_fits(self) -> bool {
        !stack::has_infinite(self.editor.entries) ==> stack::total_span(self.editor.entries)
            <= u64::MAX
    }

    /// Which entry of the stack is active.
    pub open spec fn active_index(self) -> Option<int> {
        if self.stack_enabled && stack::is_active(self.editor.entries) {
            Some(choose|i: int| stack::runs_at(self.editor.entries, self.stack_generation(), i))
        } else {
            None
        }
    }

    /// The rule that the next step follows.
    pub open spec fn rule(self) -> BsRule {
        match self.active_index() {
            Some(i) => self.editor.entries[i].rule,
            None => self.rules[self.rule_index].rule,
        }
    }
}

impl Simulator {
    pub open spec fn wf(self) -> bool {
        &&& self.world.wf()
        &&& self.physics.wf()
        &&& (self.snapshot matches Some(world) ==> world.wf())
        &&& (self.physics_snapshot matches Some(physics) ==> physics.wf())
        &&& self@.is_valid()
    }

    pub fn theme(&self) -> (r: Theme)
        requires
            self.wf(),
        ensures
            r == self@.themes[self@.theme_index],
    {
        self.themes[self.theme_index]
    }

    pub fn active_generation(&self) -> (r: u64)
        ensures
            r == (match self@.mode {
                SimMode::CellularAutomaton => self@.generation,
                SimMode::Physics => self@.ticks,
            }),
    {
        match self.mode {
            SimMode::CellularAutomaton => self.world.generation(),
            SimMode::Physics => self.physics.generation(),
        }
    }

    pub fn active_population(&self) -> (r: u64)
        requires
            self.wf(),
            self@.population() <= u64::MAX,
        ensures
            r == self@.population(),
    {
        match self.mode {
            SimMode::CellularAutomaton => self.world.population(),
            SimMode::Physics => self.physics.population(),
        }
    }

    pub fn active_chunk_count(&self) -> (r: usize)
        requires
            self.wf(),
        ensures
            r == crate::chunk::occupied_chunks(
                match self@.mode {
                    SimMode::CellularAutomaton => self@.live,
                    SimMode::Physics => self@.cells.dom(),
                },
            ).len(),
    {
        match self.mode {
            SimMode::CellularAutomaton => self.world.chunk_count(),
            SimMode::Physics => self.physics.chunk_count(),
        }
    }

    /// The entry of the stack that is active, if the stack is on.
    pub fn active_stack_entry(&self) -> (r: Option<(usize, &StackEntry)>)
        requires
            self@.stack_fits(),
        ensures
            match r {
                Some((index, entry)) => self@.active_index() == Some(index as int) && index
                    < self@.editor.entries.len() && *entry == self@.editor.entries[index as int],
                None => self@.active_index() is None,
            },
    {
        if !self.stack_enabled {
            return None;
        }
        // Saturating: restore and clear can move the generation below the
        // origin; treat that as the stack having just started.
        let generation = self.world.generation().saturating_sub(self.stack_origin);
        let r = self.editor.stack().entry_at(generation);
        proof {
            if let Some((index, _)) = r {
                let entries = self@.editor.entries;
                let n = self@.stack_generation();
                assert(stack::runs_at(entries, n, index as int));
                let i = choose|i: int| stack::runs_at(entries, n, i);
                stack::law_active_entry_is_unique(entries, n, i, index as int);
            }
        }
        r
    }

    /// Restart the stack sequence from its first entry, as of now.
    pub fn replay_stack(&mut self)
        ensures
            final(self)@ == (SimView {
                stack_origin: old(self)@.generation,
                stack_enabled: true,
                ..old(self)@
            }),
            old(self).wf() ==> final(self).wf(),
    {
        self.stack_origin = self.world.generation();
        self.stack_enabled = true;
    }

    /// The rule that the next step follows.
    pub fn current_rule(&self) -> (r: BsRule)
        requires
            self.wf(),
            self@.stack_fits(),
        ensures
            r == self@.rule(),
    {
        match self.active_stack_entry() {
            Some((_, entry)) => entry.rule,
            None => self.rules[self.rule_index].rule,
        }
    }
}

impl SimView {
    /// How much there is in the active world.
    pub open spec fn population(self) -> nat {
        match self.mode {
            SimMode::CellularAutomaton => self.live.len(),
            SimMode::Physics => self.cells.dom().len(),
        }
    }
}

impl SimView {
    /// The next step can be taken and its outcome counted.
    pub open spec fn can_step(self) -> bool {
        match self.mode {
            SimMode::CellularAutomaton => {
                &&& self.stack_fits()
                &&& world::steppable(self.live)
                &&& self.generation < u64::MAX
                &&& self.live.len() <= i64::MAX
                &&& world::next_generation(self.live, self.rule()@).len() <= i64::MAX
            },
            SimMode::Physics => {
                &&& physics::can_tick(self.materials, self.cells)
                &&& self.ticks < u64::MAX
                &&& self.cells.dom().len() <= i64::MAX
            },
        }
    }

    /// `after` comes of a step: of the automaton by the current rule, or of
    /// the physics by a tick, which leaves the population as it was.
    pub open spec fn steps_to(self, after: SimView) -> bool {
        match self.mode {
            SimMode::CellularAutomaton => {
                let next = world::next_generation(self.live, self.rule()@);
                after == (SimView {
                    live: next,
                    generation: (self.generation + 1) as u64,
                    pop_delta: next.len() - self.live.len(),
                    ..self
                })
            },
            SimMode::Physics => {
                &&& after == (SimView {
                    cells: after.cells,
                    ticks: (self.ticks + 1) as u64,
                    pop_delta: 0,
                    words: after.words,
                    ..self
                })
                &&& physics::is_tick(
                    self.cells,
                    self.materials,
                    physics::goes_right(self.ticks),
                    Seq::empty(),
                    self.words,
                    after.cells,
                    after.words,
                )
            },
        }
    }

    /// What is sprinkled: sand where the eraser is selected.
    pub open spec fn sprinkled_material(self) -> u8 {
        if self.selected_material == EMPTY {
            SAND
        } else {
            self.selected_material
        }
    }

    /// `after` comes of randomizing the rectangle with the given rolls: each of
    /// its cells is alive where its roll came true, or holds the sprinkled
    /// material there, and nothing else has changed.
    pub open spec fn randomizes_to(
        self,
        rect: (i64, i64, i64, i64),
        rolls: Seq<bool>,
        after: SimView,
    ) -> bool {
        match self.mode {
            SimMode::CellularAutomaton => {
                &&& after == (SimView { live: after.live, ..self })
                &&& forall|x: int, y: int| #[trigger]
                    after.live.contains((x, y)) == (if scatter::in_quad(x, y, rect) {
                        rolls[scatter::index_in(rect, x, y)]
                    } else {
                        self.live.contains((x, y))
                    })
            },
            SimMode::Physics => {
                &&& after == (SimView { cells: after.cells, ..self })
                &&& forall|x: int, y: int| #[trigger]
                    tick::content(after.cells, x, y) == (if scatter::in_quad(x, y, rect)
                        && rolls[scatter::index_in(rect, x, y)] {
                        self.sprinkled_material()
                    } else {
                        tick::content(self.cells, x, y)
                    })
            },
        }
    }

    /// `after` comes of randomizing the rectangle with rolls that are drawn
    /// from the generator, one for each of its cells.
    pub open spec fn randomly_fills_to(self, rect: (i64, i64, i64, i64), after: SimView) -> bool {
        let area = scatter::area_of(rect);
        &&& self.randomizes_to(
            rect,
            chance::rolls_of(self.words, 0, area, fill_density()),
            SimView { words: self.words, ..after },
        )
        &&& chance::is_rest(after.words, self.words, area)
    }
}

/// How densely a rectangle is filled at random.
pub open spec fn fill_density() -> Chance {
    Chance { numerator: 1, denominator: 5 }
}

/// The count as a signed number, if it is one.
fn as_signed(count: Option<u64>) -> (r: Option<i64>)
    ensures
        match r {
            Some(n) => count == Some(n as u64) && 0 <= n,
            None => count matches Some(n) ==> n > i64::MAX,
        },
{
    match count {
        Some(n) => if n <= i64::MAX as u64 {
            Some(n as i64)
        } else {
            None
        },
        None => None,
    }
}

impl Simulator {
    /// Step the active world once, and note by how much its population
    /// changed.
    pub fn step(&mut self)
        requires
            old(self).wf(),
            old(self)@.can_step(),
        ensures
            final(self).wf(),
            old(self)@.steps_to(final(self)@),
    {
        self.try_step();
    }

    /// Step the active world once, if the step can be taken and its outcome
    /// counted, and note by how much the population changed. `false` means
    /// that it cannot, and nothing has changed.
    pub fn try_step(&mut self) -> (r: bool)
        requires
            old(self).wf(),
        ensures
            final(self).wf(),
            r == old(self)@.can_step(),
            r ==> old(self)@.steps_to(final(self)@),
            !r ==> final(self)@ == old(self)@,
    {
        match self.mode {
            SimMode::CellularAutomaton => self.try_step_automaton(),
            SimMode::Physics => self.try_tick(),
        }
    }

    fn try_step_automaton(&mut self) -> (r: bool)
        requires
            old(self).wf(),
            old(self)@.mode is CellularAutomaton,
        ensures
            final(self).wf(),
            r == old(self)@.can_step(),
            r ==> old(self)@.steps_to(final(self)@),
            !r ==> final(self)@ == old(self)@,
    {
        if self.world.generation() == u64::MAX || !self.world.is_steppable()
            || !self.editor.stack().is_countable() {
            return false;
        }
        let before = match as_signed(self.world.count()) {
            Some(count) => count,
            None => {
                return false;
            },
        };
        let next = self.world.stepped(self.current_rule());
        let after = match as_signed(next.count()) {
            Some(count) => count,
            None => {
                return false;
            },
        };
        self.world = next;
        self.pop_delta = after - before;
        true
    }

    fn try_tick(&mut self) -> (r: bool)
        requires
            old(self).wf(),
            old(self)@.mode is Physics,
        ensures
            final(self).wf(),
            r == old(self)@.can_step(),
            r ==> old(self)@.steps_to(final(self)@),
            !r ==> final(self)@ == old(self)@,
    {
        let ghost before = self@;
        if self.physics.generation() == u64::MAX || as_signed(self.physics.count()).is_none()
            || !self.physics.is_tickable(self.materials.as_slice()) {
            return false;
        }
        let population: i64 = self.physics.population() as i64;
        self.physics.step(self.materials.as_slice(), &mut self.rng);
        proof {
            let rightward = physics::goes_right(before.ticks);
            let none = Seq::<bool>::empty();
            let n = choose|n: int|
                {
                    let tick = tick::ticked(
                        before.cells,
                        before.materials,
                        rightward,
                        #[trigger] physics::coins_of(none, before.words, n),
                    );
                    &&& 0 <= n
                    &&& tick.flipped == n
                    &&& tick.cells == self.physics@
                    &&& chance::is_rest(
                        self@.words,
                        before.words,
                        physics::coins_drawn(none.len(), n),
                    )
                };
            let flips = physics::coins_of(none, before.words, n);
            old(self).physics.lemma_cells();
            tick::law_tick_conserves(before.cells, before.materials, rightward, flips, 1);
            tick::law_tick_keeps_cover(before.cells, before.materials, rightward, flips);
        }
        self.pop_delta = self.physics.population() as i64 - population;
        true
    }

    /// Randomize the rectangle that is visible with the given rolls, one for
    /// each of its cells, row by row: live cells in the automaton, a sprinkle
    /// of the selected material in physics mode. The rectangle is capped so an
    /// extreme zoom-out doesn't touch millions of cells.
    pub fn randomize_visible_with(&mut self, visible: (i64, i64, i64, i64), rolls: &[bool])
        requires
            old(self).wf(),
            pacing::is_measurable(visible.0 as int, visible.2 as int),
            pacing::is_measurable(visible.1 as int, visible.3 as int),
            rolls@.len() == scatter::area_of(pacing::capped_rect(visible)),
        ensures
            final(self).wf(),
            old(self)@.randomizes_to(pacing::capped_rect(visible), rolls@, final(self)@),
    {
        let rect = cap_rect(visible);
        match self.mode {
            SimMode::CellularAutomaton => self.world.randomize_region_with(rect, rolls),
            SimMode::Physics => {
                let material = self.material_to_sprinkle();
                self.physics.sprinkle_with(rect, material, rolls);
                proof {
                    self.lemma_sprinkled(old(self)@);
                }
            },
        }
    }

    /// Randomize the rectangle that is visible: random live cells in the
    /// automaton, a sprinkle of the selected material in physics mode. The
    /// rectangle is capped so an extreme zoom-out doesn't touch millions of
    /// cells.
    pub fn randomize_visible(&mut self, visible: (i64, i64, i64, i64))
        requires
            old(self).wf(),
            pacing::is_measurable(visible.0 as int, visible.2 as int),
            pacing::is_measurable(visible.1 as int, visible.3 as int),
        ensures
            final(self).wf(),
            old(self)@.randomly_fills_to(pacing::capped_rect(visible), final(self)@),
    {
        let ghost before = self@;
        let rect = cap_rect(visible);
        let density = Chance { numerator: 1, denominator: 5 };
        match self.mode {
            SimMode::CellularAutomaton => {
                let (min_x, min_y, max_x, max_y) = rect;
                self.world.randomize_region(min_x, min_y, max_x, max_y, density, &mut self.rng);
            },
            SimMode::Physics => {
                let material = self.material_to_sprinkle();
                self.physics.sprinkle(rect, material, density, &mut self.rng);
                proof {
                    self.lemma_sprinkled(before);
                }
            },
        }
        proof {
            let rolls = chance::rolls_of(before.words, 0, scatter::area_of(rect), density);
            assert forall|x: int, y: int| #[trigger] scatter::in_quad(x, y, rect) implies ({
                let i = scatter::index_in(rect, x, y);
                rolls[i] == chance::roll_at(before.words, i, density)
            }) by {
                scatter::lemma_index(rect, x, y);
            }
        }
    }

    /// What is sprinkled: sand where the eraser is selected.
    fn material_to_sprinkle(&self) -> (r: MaterialId)
        ensures
            r == self@.sprinkled_material(),
    {
        if self.selected_material == EMPTY {
            SAND
        } else {
            self.selected_material
        }
    }

    /// After a sprinkle the materials are still known.
    proof fn lemma_sprinkled(self, before: SimView)
        requires
            before.is_valid(),
            self.physics.wf(),
            self.materials@ == before.materials,
            forall|x: int, y: int|
                {
                    let now = #[trigger] tick::content(self.physics@, x, y);
                    now == tick::content(before.cells, x, y) || now == before.sprinkled_material()
                },
        ensures
            tick::covers(self.materials@, self.physics@),
    {
        self.physics.lemma_cells();
        assert forall|x: int, y: int| #[trigger] self.physics@.dom().contains((x, y)) implies
            self.physics@[(x, y)] != 0 && self.physics@[(x, y)] < self.materials@.len() by {
            let now = tick::content(self.physics@, x, y);
            assert(now == tick::content(before.cells, x, y) || now == before.sprinkled_material());
        }
    }

    /// Keep the state of the active world, to be restored later.
    pub fn save_snapshot(&mut self)
        requires
            old(self).wf(),
        ensures
            final(self).wf(),
            final(self)@ == old(self)@.saved(),
    {
        match self.mode {
            SimMode::CellularAutomaton => {
                self.snapshot = Some(self.world.clone());
            },
            SimMode::Physics => {
                self.physics_snapshot = Some(self.physics.clone());
            },
        }
    }

    /// Roll the active world back to its snapshot. `false` means that there is
    /// none.
    pub fn restore_snapshot(&mut self) -> (r: bool)
        requires
            old(self).wf(),
        ensures
            final(self).wf(),
            r == old(self)@.has_snapshot(),
            final(self)@ == old(self)@.restored(),
    {
        match self.mode {
            SimMode::CellularAutomaton => {
                if let Some(snapshot) = &self.snapshot {
                    self.world = snapshot.clone();
                    return true;
                }
            },
            SimMode::Physics => {
                if let Some(snapshot) = &self.physics_snapshot {
                    self.physics = snapshot.clone();
                    return true;
                }
            },
        }
        false
    }
}

impl SimView {
    pub open spec fn saved(self) -> SimView {
        match self.mode {
            SimMode::CellularAutomaton => SimView {
                snapshot: Some((self.live, self.generation)),
                ..self
            },
            SimMode::Physics => SimView {
                physics_snapshot: Some((self.cells, self.ticks)),
                ..self
            },
        }
    }

    pub open spec fn has_snapshot(self) -> bool {
        match self.mode {
            SimMode::CellularAutomaton => self.snapshot is Some,
            SimMode::Physics => self.physics_snapshot is Some,
        }
    }

    pub open spec fn restored(self) -> SimView {
        match self.mode {
            SimMode::CellularAutomaton => match self.snapshot {
                Some((live, generation)) => SimView { live, generation, ..self },
                None => self,
            },
            SimMode::Physics => match self.physics_snapshot {
                Some((cells, ticks)) => SimView { cells, ticks, ..self },
                None => self,
            },
        }
    }
}

/// Restoring gives back the world that was saved, whatever became of it since;
/// the other mode's world and snapshot are left alone.
pub proof fn law_restore_gives_back_what_was_saved(before: SimView, after: SimView)
    requires
        after.mode == before.mode,
        after.snapshot == before.saved().snapshot,
        after.physics_snapshot == before.saved().physics_snapshot,
    ensures
        after.has_snapshot(),
        before.mode is CellularAutomaton ==> {
            &&& after.restored().live == before.live
            &&& after.restored().generation == before.generation
            &&& after.restored().cells == after.cells
            &&& after.restored().ticks == after.ticks
            &&& after.physics_snapshot == before.physics_snapshot
        },
        before.mode is Physics ==> {
            &&& after.restored().cells == before.cells
            &&& after.restored().ticks == before.ticks
            &&& after.restored().live == after.live
            &&& after.restored().generation == after.generation
            &&& after.snapshot == before.snapshot
        },
{
}

impl SimView {
    /// The active world with one cell written.
    pub open spec fn with_cell(self, x: int, y: int, alive: bool) -> SimView {
        SimView { live: world::written(self.live, x, y, alive), ..self }
    }

    /// The physics world with one cell written.
    pub open spec fn with_material(self, x: int, y: int, material: u8) -> SimView {
        SimView { cells: tick::placed(self.cells, x, y, material), ..self }
    }

    /// A stroke has begun that paints: it brings cells to life if it started
    /// on a dead one and kills them otherwise, or puts the selected material.
    pub open spec fn paint_begun(self, x: int, y: int) -> SimView {
        match self.mode {
            SimMode::CellularAutomaton => {
                let alive = !self.live.contains((x, y));
                SimView { painting: Some(alive), ..self.with_cell(x, y, alive) }
            },
            SimMode::Physics => SimView {
                paint_material: Some(self.selected_material),
                ..self.with_material(x, y, self.selected_material)
            },
        }
    }

    /// A stroke has begun that erases, in either mode.
    pub open spec fn erase_begun(self, x: int, y: int) -> SimView {
        match self.mode {
            SimMode::CellularAutomaton => SimView {
                painting: Some(false),
                ..self.with_cell(x, y, false)
            },
            SimMode::Physics => SimView {
                paint_material: Some(EMPTY),
                ..self.with_material(x, y, EMPTY)
            },
        }
    }

    /// The stroke under way has come to a cell.
    pub open spec fn stroked(self, x: int, y: int) -> SimView {
        match self.mode {
            SimMode::CellularAutomaton => match self.painting {
                Some(alive) => self.with_cell(x, y, alive),
                None => self,
            },
            SimMode::Physics => match self.paint_material {
                Some(material) => self.with_material(x, y, material),
                None => self,
            },
        }
    }
}

impl Simulator {
    /// Left-button stroke: paints.
    pub fn begin_paint(&mut self, x: i64, y: i64)
        requires
            old(self).wf(),
        ensures
            final(self).wf(),
            final(self)@ == old(self)@.paint_begun(x as int, y as int),
    {
        match self.mode {
            SimMode::CellularAutomaton => {
                let value = !self.world.get(x, y);
                self.painting = Some(value);
                self.world.set(x, y, value);
            },
            SimMode::Physics => {
                self.paint_material = Some(self.selected_material);
                self.physics.set(x, y, self.selected_material);
            },
        }
    }

    /// Right-button stroke: always erases, in either mode.
    pub fn begin_erase(&mut self, x: i64, y: i64)
        requires
            old(self).wf(),
        ensures
            final(self).wf(),
            final(self)@ == old(self)@.erase_begun(x as int, y as int),
    {
        match self.mode {
            SimMode::CellularAutomaton => {
                self.painting = Some(false);
                self.world.set(x, y, false);
            },
            SimMode::Physics => {
                self.paint_material = Some(EMPTY);
                self.physics.set(x, y, EMPTY);
            },
        }
    }

    /// Carry the stroke on to a cell. `true` means that the cell changed.
    pub fn apply_stroke(&mut self, x: i64, y: i64) -> (r: bool)
        requires
            old(self).wf(),
        ensures
            final(self).wf(),
            final(self)@ == old(self)@.stroked(x as int, y as int),
            r == (final(self)@ != old(self)@),
    {
        match self.mode {
            SimMode::CellularAutomaton => {
                let value = match self.painting {
                    Some(value) => value,
                    None => {
                        return false;
                    },
                };
                if self.world.get(x, y) != value {
                    self.world.set(x, y, value);
                    proof {
                        let p = (x as int, y as int);
                        assert(self@.live.contains(p) != old(self)@.live.contains(p));
                    }
                    return true;
                }
                assert(self@ =~= old(self)@.stroked(x as int, y as int));
            },
            SimMode::Physics => {
                let material: MaterialId = match self.paint_material {
                    Some(material) => material,
                    None => {
                        return false;
                    },
                };
                if self.physics.get(x, y) != material {
                    self.physics.set(x, y, material);
                    proof {
                        let (u, v) = (x as int, y as int);
                        assert(tick::content(self@.cells, u, v) != tick::content(
                            old(self)@.cells,
                            u,
                            v,
                        ));
                    }
                    return true;
                }
                assert(self@ =~= old(self)@.stroked(x as int, y as int));
            },
        }
        false
    }

    /// The mouse button has been let go.
    pub fn end_stroke(&mut self)
        ensures
            final(self)@ == (SimView { painting: None, paint_material: None, ..old(self)@ }),
            old(self).wf() ==> final(self).wf(),
    {
        self.painting = None;
        self.paint_material = None;
    }
}

/// A stroke that goes back over the cell it started on changes nothing.
pub proof fn law_strokes_are_steady(before: SimView, x: int, y: int)
    ensures
        before.paint_begun(x, y).stroked(x, y) == before.paint_begun(x, y),
        before.erase_begun(x, y).stroked(x, y) == before.erase_begun(x, y),
        before.stroked(x, y).stroked(x, y) == before.stroked(x, y),
{
    assert(before.paint_begun(x, y).stroked(x, y) =~= before.paint_begun(x, y));
    assert(before.erase_begun(x, y).stroked(x, y) =~= before.erase_begun(x, y));
    assert(before.stroked(x, y).stroked(x, y) =~= before.stroked(x, y));
}

impl SimView {
    /// Where an entry goes when it is dropped in front of another, accounting
    /// for the shift caused by removing it first.
    pub open spec fn drop_target(from: int, drop_index: int) -> int {
        if from < drop_index {
            drop_index - 1
        } else {
            drop_index
        }
    }

    pub open spec fn edited(self, command: EditCommand) -> SimView {
        SimView { editor: self.editor.edited(command), ..self }
    }
}

impl Simulator {
    /// Move a stack entry so it sits where the drop landed. `false` means that
    /// it is there already.
    pub fn move_entry(&mut self, from: usize, drop_index: usize) -> (r: bool)
        requires
            old(self).wf(),
            from < old(self)@.editor.entries.len(),
            drop_index <= old(self)@.editor.entries.len(),
        ensures
            final(self).wf(),
            ({
                let to = SimView::drop_target(from as int, drop_index as int);
                &&& r == (from != to)
                &&& r ==> final(self)@ == old(self)@.edited(
                    EditCommand::Move { from, to: to as usize },
                )
                &&& !r ==> final(self)@ == old(self)@
            }),
    {
        let to: usize = if from < drop_index {
            drop_index - 1
        } else {
            drop_index
        };
        if from != to {
            self.editor.apply(EditCommand::Move { from, to });
            return true;
        }
        false
    }

    /// Add a rule of the library to the stack, to run for 50 generations, and
    /// switch the stack on.
    pub fn insert_rule(&mut self, index: usize, name: &str, rule: BsRule)
        requires
            old(self).wf(),
            index <= old(self)@.editor.entries.len(),
        ensures
            final(self).wf(),
            exists|entry: StackEntry|
                {
                    &&& entry.name@ == name@
                    &&& entry.rule == rule
                    &&& entry.generations == Some(50u32)
                    &&& final(self)@ == (SimView {
                        stack_enabled: true,
                        ..(#[trigger] old(self)@.edited(EditCommand::Add { index, entry }))
                    })
                },
    {
        let entry = StackEntry { name: name.to_string(), rule, generations: Some(50) };
        let ghost added = entry;
        self.editor.apply(EditCommand::Add { index, entry });
        self.stack_enabled = true;
        assert(self@ == (SimView {
            stack_enabled: true,
            ..old(self)@.edited(EditCommand::Add { index, entry: added })
        }));
    }

    /// Set how long an entry runs, if that is a change.
    fn set_duration(&mut self, index: usize, new: Option<u32>) -> (r: bool)
        requires
            old(self).wf(),
            index < old(self)@.editor.entries.len(),
        ensures
            final(self).wf(),
            final(self)@ == old(self)@.with_duration(index, new),
            r == (new != old(self)@.editor.entries[index as int].generations),
    {
        let old_value = self.editor.stack().entries[index].generations;
        if new != old_value {
            self.editor.apply(EditCommand::SetGenerations { index, old: old_value, new });
            return true;
        }
        false
    }

    /// Run an entry for the next longer preset. `false` means that it runs
    /// forever already.
    pub fn lengthen_entry(&mut self, index: usize) -> (r: bool)
        requires
            old(self).wf(),
            index < old(self)@.editor.entries.len(),
        ensures
            final(self).wf(),
            exists|new: Option<u32>|
                {
                    let current = old(self)@.editor.entries[index as int].generations;
                    &&& pacing::is_next_preset(current, new)
                    &&& r == (new != current)
                    &&& final(self)@ == #[trigger] old(self)@.with_duration(index, new)
                },
    {
        let new = next_preset(self.editor.stack().entries[index].generations);
        self.set_duration(index, new)
    }

    /// Run an entry for the next shorter preset. `false` means that there is
    /// none.
    pub fn shorten_entry(&mut self, index: usize) -> (r: bool)
        requires
            old(self).wf(),
            index < old(self)@.editor.entries.len(),
        ensures
            final(self).wf(),
            exists|new: Option<u32>|
                {
                    let current = old(self)@.editor.entries[index as int].generations;
                    &&& pacing::is_prev_preset(current, new)
                    &&& r == (new != current)
                    &&& final(self)@ == #[trigger] old(self)@.with_duration(index, new)
                },
    {
        let new = prev_preset(self.editor.stack().entries[index].generations);
        self.set_duration(index, new)
    }

    /// Take an entry out of the stack.
    pub fn remove_entry(&mut self, index: usize)
        requires
            old(self).wf(),
            index < old(self)@.editor.entries.len(),
        ensures
            final(self).wf(),
            final(self)@ == old(self)@.edited(
                EditCommand::Remove { index, entry: old(self)@.editor.entries[index as int] },
            ),
    {
        let entry = self.editor.stack().entries[index].clone();
        self.editor.apply(EditCommand::Remove { index, entry });
    }

    /// Take the last stack edit back. `false` means that there was none.
    pub fn undo(&mut self) -> (r: bool)
        requires
            old(self).wf(),
        ensures
            final(self).wf(),
            r == (old(self)@.editor.undo.len() > 0),
            final(self)@ == (SimView { editor: old(self)@.editor.undone(), ..old(self)@ }),
    {
        self.editor.undo()
    }

    /// Make the last stack edit that was taken back again. `false` means that
    /// there was none.
    pub fn redo(&mut self) -> (r: bool)
        requires
            old(self).wf(),
        ensures
            final(self).wf(),
            r == (old(self)@.editor.redo.len() > 0),
            final(self)@ == (SimView { editor: old(self)@.editor.redone(), ..old(self)@ }),
    {
        self.editor.redo()
    }

    /// Switch the stack on or off.
    pub fn toggle_stack(&mut self)
        ensures
            final(self)@ == (SimView { stack_enabled: !old(self)@.stack_enabled, ..old(self)@ }),
            old(self).wf() ==> final(self).wf(),
    {
        self.stack_enabled = !self.stack_enabled;
    }
}

impl SimView {
    pub open spec fn with_duration(self, index: usize, new: Option<u32>) -> SimView {
        let current = self.editor.entries[index as int].generations;
        if new == current {
            self
        } else {
            self.edited(EditCommand::SetGenerations { index, old: current, new })
        }
    }
}

/// The edits that the simulator makes record what they change, so taking one
/// back leads to the entries that were there before.
pub proof fn law_simulator_edits_can_be_undone(
    before: SimView,
    index: usize,
    entry: StackEntry,
    new: Option<u32>,
    from: usize,
    to: usize,
)
    requires
        before.editor.honest(),
        index < before.editor.entries.len(),
        from < before.editor.entries.len(),
        to < before.editor.entries.len(),
    ensures
        before.edited(EditCommand::Add { index, entry }).editor.undone().entries
            == before.editor.entries,
        before.edited(
            EditCommand::Remove { index, entry: before.editor.entries[index as int] },
        ).editor.undone().entries == before.editor.entries,
        before.with_duration(index, new) != before ==> before.with_duration(
            index,
            new,
        ).editor.undone().entries == before.editor.entries,
        before.edited(EditCommand::Move { from, to }).editor.undone().entries
            == before.editor.entries,
{
    let current = before.editor.entries[index as int].generations;
    stack::law_undo_reverts_edit(before.editor, EditCommand::Add { index, entry });
    stack::law_undo_reverts_edit(
        before.editor,
        EditCommand::Remove { index, entry: before.editor.entries[index as int] },
    );
    stack::law_undo_reverts_edit(
        before.editor,
        EditCommand::SetGenerations { index, old: current, new },
    );
    stack::law_undo_reverts_edit(before.editor, EditCommand::Move { from, to });
}

/// An entry that is dropped in front of another ends up right before it, and
/// one dropped past the end ends up last.
pub proof fn law_dropped_entry_lands(entries: Seq<StackEntry>, from: int, drop_index: int)
    requires
        0 <= from < entries.len(),
        0 <= drop_index <= entries.len(),
        entries.len() <= usize::MAX,
    ensures
        ({
            let to = SimView::drop_target(from, drop_index);
            let moved = stack::applied(
                entries,
                EditCommand::Move { from: from as usize, to: to as usize },
            );
            &&& 0 <= to < entries.len()
            &&& moved[to] == entries[from]
            &&& drop_index < entries.len() && drop_index != from ==> moved[to + 1]
                == entries[drop_index]
            &&& drop_index == entries.len() ==> to == entries.len() - 1
        }),
{
}

impl SimView {
    /// What stamping a picture writes, by its origin.
    pub open spec fn stamped_material(self) -> u8 {
        if self.selected_material == EMPTY {
            STONE
        } else {
            self.selected_material
        }
    }

    /// `after` comes of stamping the picture with its first pixel at
    /// `(ox, oy)`: cells under pixels that count come alive, or hold the
    /// stamped material, and nothing else has changed.
    pub open spec fn stamps_to(self, picture: Picture, ox: int, oy: int, after: SimView) -> bool {
        match self.mode {
            SimMode::CellularAutomaton => {
                &&& after == (SimView { live: after.live, ..self })
                &&& forall|x: int, y: int| #[trigger]
                    after.live.contains((x, y)) <==> self.live.contains((x, y))
                        || picture.is_inked(self.invert_import, x - ox, y - oy)
            },
            SimMode::Physics => {
                &&& after == (SimView { cells: after.cells, ..self })
                &&& forall|x: int, y: int| #[trigger]
                    tick::content(after.cells, x, y) == (if picture.is_inked(
                        self.invert_import,
                        x - ox,
                        y - oy,
                    ) {
                        self.stamped_material()
                    } else {
                        tick::content(self.cells, x, y)
                    })
            },
        }
    }

    /// As `stamps_to`, when the pixels before the given one have been stamped.
    spec fn stamps_partly_to(
        self,
        picture: Picture,
        ox: int,
        oy: int,
        px: int,
        py: int,
        after: SimView,
    ) -> bool {
        let invert = self.invert_import;
        match self.mode {
            SimMode::CellularAutomaton => {
                &&& after == (SimView { live: after.live, ..self })
                &&& forall|x: int, y: int| #[trigger]
                    after.live.contains((x, y)) <==> self.live.contains((x, y))
                        || picture.is_inked(invert, x - ox, y - oy) && (y - oy < py || (y - oy == py
                        && x - ox < px))
            },
            SimMode::Physics => {
                &&& after == (SimView { cells: after.cells, ..self })
                &&& forall|x: int, y: int| #[trigger]
                    tick::content(after.cells, x, y) == (if picture.is_inked(invert, x - ox, y - oy)
                        && (y - oy < py || (y - oy == py && x - ox < px)) {
                        self.stamped_material()
                    } else {
                        tick::content(self.cells, x, y)
                    })
            },
        }
    }
}

impl Simulator {
    /// Set the cell that a pixel of a stamp covers.
    fn stamp_cell(&mut self, x: i64, y: i64, stamp: MaterialId)
        requires
            old(self).wf(),
            stamp < old(self)@.materials.len(),
        ensures
            final(self).wf(),
            final(self)@ == (match old(self)@.mode {
                SimMode::CellularAutomaton => old(self)@.with_cell(x as int, y as int, true),
                SimMode::Physics => old(self)@.with_material(x as int, y as int, stamp),
            }),
    {
        match self.mode {
            SimMode::CellularAutomaton => self.world.set(x, y, true),
            SimMode::Physics => self.physics.set(x, y, stamp),
        }
    }

    /// Stamp a picture into the active world, centered on a cell. In physics
    /// mode it is stamped with the selected material (stone when the eraser is
    /// selected, so a drop always leaves something).
    pub fn stamp(&mut self, picture: &Picture, center_x: i64, center_y: i64)
        requires
            old(self).wf(),
            picture.wf(),
            picture.fits_at(center_x as int, center_y as int),
        ensures
            final(self).wf(),
            old(self)@.stamps_to(
                *picture,
                center_x - picture.width / 2,
                center_y - picture.height / 2,
                final(self)@,
            ),
    {
        let ghost before = self@;
        let (origin_x, origin_y) = picture.origin(center_x, center_y);
        let ghost (ox, oy) = (origin_x as int, origin_y as int);
        let stamp: MaterialId = if self.selected_material == EMPTY {
            STONE
        } else {
            self.selected_material
        };
        let mut py: u32 = 0;
        while py < picture.height
            invariant
                self.wf(),
                picture.wf(),
                before == old(self)@,
                stamp == before.stamped_material(),
                stamp < before.materials.len(),
                (ox, oy) == (origin_x as int, origin_y as int),
                i64::MIN <= ox && ox + picture.width - 1 <= i64::MAX,
                i64::MIN <= oy && oy + picture.height - 1 <= i64::MAX,
                0 <= py <= picture.height,
                before.stamps_partly_to(*picture, ox, oy, 0, py as int, self@),
            decreases picture.height - py,
        {
            let mut px: u32 = 0;
            while px < picture.width
                invariant
                    self.wf(),
                    picture.wf(),
                    before == old(self)@,
                    stamp == before.stamped_material(),
                    stamp < before.materials.len(),
                    (ox, oy) == (origin_x as int, origin_y as int),
                    i64::MIN <= ox && ox + picture.width - 1 <= i64::MAX,
                    i64::MIN <= oy && oy + picture.height - 1 <= i64::MAX,
                    0 <= py < picture.height,
                    0 <= px <= picture.width,
                    before.stamps_partly_to(*picture, ox, oy, px as int, py as int, self@),
                decreases picture.width - px,
            {
                let ghost between = self@;
                if picture.inked(self.invert_import, px, py) {
                    self.stamp_cell(origin_x + px as i64, origin_y + py as i64, stamp);
                }
                proof {
                    let (x, y) = (ox + px, oy + py);
                    assert forall|u: int, v: int| (u, v) != (x, y) implies {
                        &&& #[trigger] self@.live.contains((u, v)) == between.live.contains((u, v))
                    } by {}
                    assert forall|u: int, v: int| (u, v) != (x, y) implies {
                        &&& #[trigger] tick::content(self@.cells, u, v) == tick::content(
                            between.cells,
                            u,
                            v,
                        )
                    } by {}
                    assert(before.stamps_partly_to(*picture, ox, oy, px + 1, py as int, self@));
                }
                px = px + 1;
            }
            assert(before.stamps_partly_to(*picture, ox, oy, 0, py + 1, self@));
            py = py + 1;
        }
    }

    /// Stamp a dropped picture file into the active world, centered on a cell.
    /// What cannot be read changes nothing.
    pub fn drop_image(&mut self, bytes: &[u8], path: &str, center_x: i64, center_y: i64) -> (r:
        Result<(), PictureError>)
        requires
            old(self).wf(),
            picture::fits_around(center_x as int, center_y as int),
        ensures
            final(self).wf(),
            match r {
                Ok(()) => exists|picture: Picture|
                    picture::is_import_of(picture, bytes@, path@) && #[trigger] old(self)@.stamps_to(
                        picture,
                        center_x - picture.width / 2,
                        center_y - picture.height / 2,
                        final(self)@,
                    ),
                Err(_) => final(self)@ == old(self)@,
            },
    {
        match import_picture(bytes, path) {
            Ok(picture) => {
                self.stamp(&picture, center_x, center_y);
                Ok(())
            },
            Err(error) => Err(error),
        }
    }
}

/// A stamp never takes anything away: live cells stay alive, and cells that
/// held something still do.
pub proof fn law_stamp_only_adds(before: SimView, picture: Picture, ox: int, oy: int, after: SimView)
    requires
        before.stamps_to(picture, ox, oy, after),
    ensures
        before.live.subset_of(after.live),
        forall|x: int, y: int|
            tick::content(before.cells, x, y) != EMPTY ==> #[trigger] tick::content(
                after.cells,
                x,
                y,
            ) != EMPTY,
{
    assert forall|p: (int, int)| before.live.contains(p) implies after.live.contains(p) by {
        if before.mode is CellularAutomaton {
            assert(after.live.contains((p.0, p.1)));
        }
    }
}

/// How the view is moved; the camera lies outside of the simulator.
#[derive(Clone, Copy, PartialEq, Eq, Debug, Structural)]
pub enum CameraMove {
    PanLeft,
    PanRight,
    PanUp,
    PanDown,
    ZoomOut,
    ZoomIn,
    Reset,
}

/// What a key stands for.
#[derive(Clone, Copy, PartialEq, Eq, Debug, Structural)]
pub enum KeyAction {
    Undo,
    Redo,
    TogglePause,
    Step,
    Slower,
    Faster,
    Randomize,
    Clear,
    SwitchMode,
    Save,
    Restore,
    Previous,
    Next,
    NextTheme,
    ToggleInvert,
    Camera(CameraMove),
}

/// The keys and what they stand for.
pub open spec fn key_bindings() -> Seq<(&'static str, KeyAction)> {
    seq![
        ("space", KeyAction::TogglePause),
        ("n", KeyAction::Step),
        (",", KeyAction::Slower),
        (".", KeyAction::Faster),
        ("r", KeyAction::Randomize),
        ("c", KeyAction::Clear),
        ("m", KeyAction::SwitchMode),
        ("s", KeyAction::Save),
        ("b", KeyAction::Restore),
        ("[", KeyAction::Previous),
        ("]", KeyAction::Next),
        ("t", KeyAction::NextTheme),
        ("i", KeyAction::ToggleInvert),
        ("left", KeyAction::Camera(CameraMove::PanLeft)),
        ("right", KeyAction::Camera(CameraMove::PanRight)),
        ("up", KeyAction::Camera(CameraMove::PanUp)),
        ("down", KeyAction::Camera(CameraMove::PanDown)),
        ("-", KeyAction::Camera(CameraMove::ZoomOut)),
        ("=", KeyAction::Camera(CameraMove::ZoomIn)),
        ("0", KeyAction::Camera(CameraMove::Reset)),
    ]
}

/// What a key stands for: with the platform modifier undo and redo, and
/// otherwise what it is bound to.
pub open spec fn is_action_of(
    action: Option<KeyAction>,
    key: Seq<char>,
    platform: bool,
    shift: bool,
) -> bool {
    if platform {
        action == (if key != "z"@ {
            None
        } else if shift {
            Some(KeyAction::Redo)
        } else {
            Some(KeyAction::Undo)
        })
    } else {
        match action {
            Some(action) => exists|i: int|
                0 <= i < key_bindings().len() && (#[trigger] key_bindings()[i]).0@ == key
                    && key_bindings()[i].1 == action,
            None => forall|i: int|
                0 <= i < key_bindings().len() ==> (#[trigger] key_bindings()[i]).0@ != key,
        }
    }
}

fn bindings() -> (r: Vec<(&'static str, KeyAction)>)
    ensures
        r@ == key_bindings(),
{
    let mut list: Vec<(&'static str, KeyAction)> = Vec::new();
    list.push(("space", KeyAction::TogglePause));
    list.push(("n", KeyAction::Step));
    list.push((",", KeyAction::Slower));
    list.push((".", KeyAction::Faster));
    list.push(("r", KeyAction::Randomize));
    list.push(("c", KeyAction::Clear));
    list.push(("m", KeyAction::SwitchMode));
    list.push(("s", KeyAction::Save));
    list.push(("b", KeyAction::Restore));
    list.push(("[", KeyAction::Previous));
    list.push(("]", KeyAction::Next));
    list.push(("t", KeyAction::NextTheme));
    list.push(("i", KeyAction::ToggleInvert));
    list.push(("left", KeyAction::Camera(CameraMove::PanLeft)));
    list.push(("right", KeyAction::Camera(CameraMove::PanRight)));
    list.push(("up", KeyAction::Camera(CameraMove::PanUp)));
    list.push(("down", KeyAction::Camera(CameraMove::PanDown)));
    list.push(("-", KeyAction::Camera(CameraMove::ZoomOut)));
    list.push(("=", KeyAction::Camera(CameraMove::ZoomIn)));
    list.push(("0", KeyAction::Camera(CameraMove::Reset)));
    list
}

/// What a key stands for, if anything.
pub fn key_action(key: &str, platform: bool, shift: bool) -> (r: Option<KeyAction>)
    ensures
        is_action_of(r, key@, platform, shift),
{
    if platform {
        if !same_text(key, "z") {
            return None;
        }
        return Some(
            if shift {
                KeyAction::Redo
            } else {
                KeyAction::Undo
            },
        );
    }
    let list = bindings();
    let mut i: usize = 0;
    while i < list.len()
        invariant
            list@ == key_bindings(),
            i <= list@.len(),
            !platform,
            forall|j: int| 0 <= j < i ==> (#[trigger] key_bindings()[j]).0@ != key@,
        decreases list@.len() - i,
    {
        let (bound, action) = list[i];
        assert(key_bindings()[i as int] == (bound, action));
        if same_text(bound, key) {
            return Some(action);
        }
        i = i + 1;
    }
    None
}

/// No key is bound twice: what a key stands for is unambiguous.
pub proof fn law_key_bindings_are_unambiguous(i: int, j: int)
    requires
        0 <= i < j < key_bindings().len(),
    ensures
        key_bindings()[i].0@ != key_bindings()[j].0@,
{
    reveal_strlit("space");
    reveal_strlit("n");
    reveal_strlit(",");
    reveal_strlit(".");
    reveal_strlit("r");
    reveal_strlit("c");
    reveal_strlit("m");
    reveal_strlit("s");
    reveal_strlit("b");
    reveal_strlit("[");
    reveal_strlit("]");
    reveal_strlit("t");
    reveal_strlit("i");
    reveal_strlit("left");
    reveal_strlit("right");
    reveal_strlit("up");
    reveal_strlit("down");
    reveal_strlit("-");
    reveal_strlit("=");
    reveal_strlit("0");
    let (a, b) = (key_bindings()[i].0@, key_bindings()[j].0@);
    assert(a[0] != b[0] || a.len() != b.len());
}

impl SimView {
    pub open spec fn cleared(self) -> SimView {
        match self.mode {
            SimMode::CellularAutomaton => SimView {
                live: Set::empty(),
                generation: 0,
                stack_origin: 0,
                ..self
            },
            SimMode::Physics => SimView { cells: Map::empty(), ticks: 0, ..self },
        }
    }

    /// The rule, or the material, `step` further along in its table, which
    /// wraps around.
    pub open spec fn cycled(self, step: int) -> SimView {
        match self.mode {
            SimMode::CellularAutomaton => SimView {
                rule_index: (self.rule_index + step) % (self.rules.len() as int),
                ..self
            },
            SimMode::Physics => SimView {
                selected_material: ((self.selected_material + step) % (self.materials.len() as int)) as u8,
                ..self
            },
        }
    }

    pub open spec fn slowed(self) -> SimView {
        let doubled = self.tick_ms * 2;
        SimView {
            tick_ms: if doubled < pacing::MAX_TICK_MS {
                doubled as u64
            } else {
                pacing::MAX_TICK_MS
            },
            ..self
        }
    }

    pub open spec fn sped_up(self) -> SimView {
        let halved = self.tick_ms / 2;
        SimView {
            tick_ms: if halved > pacing::MIN_TICK_MS {
                halved
            } else {
                pacing::MIN_TICK_MS
            },
            ..self
        }
    }

    /// After an action that leaves nothing to chance and does not step.
    pub open spec fn acted(self, action: KeyAction) -> SimView {
        match action {
            KeyAction::Undo => SimView { editor: self.editor.undone(), ..self },
            KeyAction::Redo => SimView { editor: self.editor.redone(), ..self },
            KeyAction::TogglePause => SimView { running: !self.running, ..self },
            KeyAction::Slower => self.slowed(),
            KeyAction::Faster => self.sped_up(),
            KeyAction::Clear => self.cleared(),
            KeyAction::SwitchMode => SimView { mode: self.mode.other(), ..self },
            KeyAction::Save => self.saved(),
            KeyAction::Restore => self.restored(),
            KeyAction::Previous => self.cycled(-1),
            KeyAction::Next => self.cycled(1),
            KeyAction::NextTheme => SimView {
                theme_index: (self.theme_index + 1) % (self.themes.len() as int),
                ..self
            },
            KeyAction::ToggleInvert => SimView { invert_import: !self.invert_import, ..self },
            _ => self,
        }
    }

    /// The action has something to act on.
    pub open spec fn can_act(self, action: KeyAction) -> bool {
        match action {
            KeyAction::Undo => self.editor.undo.len() > 0,
            KeyAction::Redo => self.editor.redo.len() > 0,
            KeyAction::Restore => self.has_snapshot(),
            _ => true,
        }
    }

    /// `after` comes of the action, with the given rectangle visible.
    pub open spec fn acts_to(
        self,
        action: KeyAction,
        visible: (i64, i64, i64, i64),
        after: SimView,
    ) -> bool {
        match action {
            KeyAction::Step => self.steps_to(after),
            KeyAction::Randomize => self.randomly_fills_to(pacing::capped_rect(visible), after),
            _ => after == self.acted(action),
        }
    }
}

impl Simulator {
    pub fn clear(&mut self)
        requires
            old(self).wf(),
        ensures
            final(self).wf(),
            final(self)@ == old(self)@.cleared(),
    {
        match self.mode {
            SimMode::CellularAutomaton => {
                self.world.clear();
                self.stack_origin = 0;
            },
            SimMode::Physics => self.physics.clear(),
        }
    }

    /// Select the rule, or the material, before the selected one.
    pub fn select_previous(&mut self)
        requires
            old(self).wf(),
        ensures
            final(self).wf(),
            final(self)@ == old(self)@.cycled(-1),
    {
        match self.mode {
            SimMode::CellularAutomaton => {
                self.rule_index = if self.rule_index == 0 {
                    self.rules.len() - 1
                } else {
                    self.rule_index - 1
                };
                proof {
                    lemma_cycle_back(old(self)@.rule_index, self.rules@.len() as int);
                }
            },
            SimMode::Physics => {
                self.selected_material = if self.selected_material == 0 {
                    (self.materials.len() - 1) as MaterialId
                } else {
                    self.selected_material - 1
                };
                proof {
                    lemma_cycle_back(
                        old(self)@.selected_material as int,
                        self.materials@.len() as int,
                    );
                }
            },
        }
    }

    /// Select the rule, or the material, after the selected one.
    pub fn select_next(&mut self)
        requires
            old(self).wf(),
        ensures
            final(self).wf(),
            final(self)@ == old(self)@.cycled(1),
    {
        match self.mode {
            SimMode::CellularAutomaton => {
                let count = self.rules.len();
                self.rule_index = (self.rule_index + 1) % count;
            },
            SimMode::Physics => {
                self.selected_material = ((self.selected_material as usize + 1)
                    % self.materials.len()) as MaterialId;
            },
        }
    }

    /// Perform an action with the given rectangle visible. `false` means that
    /// there was nothing to act on. The camera lies outside of the simulator.
    pub fn act(&mut self, action: KeyAction, visible: (i64, i64, i64, i64)) -> (r: bool)
        requires
            old(self).wf(),
            action is Step ==> old(self)@.can_step(),
            action is Randomize ==> pacing::is_measurable(visible.0 as int, visible.2 as int)
                && pacing::is_measurable(visible.1 as int, visible.3 as int),
        ensures
            final(self).wf(),
            r == old(self)@.can_act(action),
            old(self)@.acts_to(action, visible, final(self)@),
    {
        match action {
            KeyAction::Undo => {
                return self.undo();
            },
            KeyAction::Redo => {
                return self.redo();
            },
            KeyAction::Restore => {
                return self.restore_snapshot();
            },
            KeyAction::TogglePause => {
                self.running = !self.running;
            },
            KeyAction::Step => self.step(),
            KeyAction::Slower => {
                self.tick_ms = slower(self.tick_ms);
            },
            KeyAction::Faster => {
                self.tick_ms = faster(self.tick_ms);
            },
            KeyAction::Randomize => self.randomize_visible(visible),
            KeyAction::Clear => self.clear(),
            KeyAction::SwitchMode => {
                self.mode = self.mode.other();
            },
            KeyAction::Save => self.save_snapshot(),
            KeyAction::Previous => self.select_previous(),
            KeyAction::Next => self.select_next(),
            KeyAction::NextTheme => {
                let count = self.themes.len();
                self.theme_index = (self.theme_index + 1) % count;
            },
            KeyAction::ToggleInvert => {
                self.invert_import = !self.invert_import;
            },
            KeyAction::Camera(_) => {},
        }
        true
    }

    /// A key has been pressed, with or without the platform and shift
    /// modifiers. The result is what it stood for, where that had something to
    /// act on; a move of the camera is left to the caller.
    pub fn on_key(
        &mut self,
        key: &str,
        platform: bool,
        shift: bool,
        visible: (i64, i64, i64, i64),
    ) -> (r: Option<KeyAction>)
        requires
            old(self).wf(),
            is_action_of(Some(KeyAction::Step), key@, platform, shift) ==> old(self)@.can_step(),
            is_action_of(Some(KeyAction::Randomize), key@, platform, shift)
                ==> pacing::is_measurable(visible.0 as int, visible.2 as int)
                && pacing::is_measurable(visible.1 as int, visible.3 as int),
        ensures
            final(self).wf(),
            exists|action: Option<KeyAction>| #[trigger]
                is_action_of(action, key@, platform, shift) && match action {
                    Some(action) => {
                        &&& old(self)@.acts_to(action, visible, final(self)@)
                        &&& r == (if old(self)@.can_act(action) {
                            Some(action)
                        } else {
                            None
                        })
                    },
                    None => final(self)@ == old(self)@ && r is None,
                },
    {
        let bound = key_action(key, platform, shift);
        assert(is_action_of(bound, key@, platform, shift));
        match bound {
            Some(action) => if self.act(action, visible) {
                Some(action)
            } else {
                None
            },
            None => None,
        }
    }

    /// Select a rule of the library.
    pub fn select_rule(&mut self, index: usize)
        requires
            old(self).wf(),
            index < old(self)@.rules.len(),
        ensures
            final(self).wf(),
            final(self)@ == (SimView { rule_index: index as int, ..old(self)@ }),
    {
        self.rule_index = index;
    }

    /// Select a material to paint with.
    pub fn select_material(&mut self, id: MaterialId)
        requires
            old(self).wf(),
            id < old(self)@.materials.len(),
        ensures
            final(self).wf(),
            final(self)@ == (SimView { selected_material: id, ..old(self)@ }),
    {
        self.selected_material = id;
    }

    /// Select a theme.
    pub fn select_theme(&mut self, index: usize)
        requires
            old(self).wf(),
            index < old(self)@.themes.len(),
        ensures
            final(self).wf(),
            final(self)@ == (SimView { theme_index: index as int, ..old(self)@ }),
    {
        self.theme_index = index;
    }
}

proof fn lemma_cycle_back(index: int, len: int)
    requires
        0 <= index < len,
    ensures
        (index - 1) % len == (if index == 0 {
            len - 1
        } else {
            index - 1
        }),
{
    if index == 0 {
        vstd::arithmetic::div_mod::lemma_mod_add_multiples_vanish(-1, len);
        vstd::arithmetic::div_mod::lemma_small_mod((len - 1) as nat, len as nat);
    } else {
        vstd::arithmetic::div_mod::lemma_small_mod((index - 1) as nat, len as nat);
    }
}

/// Selecting the next and then the previous rule or material, or the other
/// way round, leads back to the selected one.
pub proof fn law_selection_cycles(before: SimView)
    requires
        before.is_valid(),
    ensures
        before.cycled(1).cycled(-1) == before,
        before.cycled(-1).cycled(1) == before,
{
    let (rules, materials) = (before.rules.len() as int, before.materials.len() as int);
    let (rule, material) = (before.rule_index, before.selected_material as int);
    lemma_cycle_back(rule, rules);
    lemma_cycle_back(material, materials);
    lemma_cycle_on(rule, rules);
    lemma_cycle_on(material, materials);
    lemma_cycle_back((rule + 1) % rules, rules);
    lemma_cycle_back((material + 1) % materials, materials);
    lemma_cycle_on((rule - 1) % rules, rules);
    lemma_cycle_on((material - 1) % materials, materials);
    assert(before.cycled(1).cycled(-1) =~= before);
    assert(before.cycled(-1).cycled(1) =~= before);
}

proof fn lemma_cycle_on(index: int, len: int)
    requires
        0 <= index < len,
    ensures
        (index + 1) % len == (if index + 1 == len {
            0
        } else {
            index + 1
        }),
{
    if index + 1 == len {
        vstd::arithmetic::div_mod::lemma_mod_self_0(len);
    } else {
        vstd::arithmetic::div_mod::lemma_small_mod((index + 1) as nat, len as nat);
    }
}

/// Switching modes twice, pausing twice or inverting twice changes nothing.
pub proof fn law_toggles_cancel_out(before: SimView)
    ensures
        before.acted(KeyAction::SwitchMode).acted(KeyAction::SwitchMode) == before,
        before.acted(KeyAction::TogglePause).acted(KeyAction::TogglePause) == before,
        before.acted(KeyAction::ToggleInvert).acted(KeyAction::ToggleInvert) == before,
{
}

impl SimView {
    /// The settings that a simulator starts with: all but the two worlds.
    pub open spec fn has_start_settings(self) -> bool {
        &&& self.mode is CellularAutomaton
        &&& self.snapshot is None
        &&& self.physics_snapshot is None
        &&& crate::material::is_builtin_palette(self.materials)
        &&& self.selected_material == SAND
        &&& crate::rule::is_builtin_library(self.rules)
        &&& self.rule_index == 0
        &&& self.themes == theme::theme_list()
        &&& self.theme_index == 0
        &&& self.editor == (EditorView {
            entries: Seq::empty(),
            undo: Seq::empty(),
            redo: Seq::empty(),
        })
        &&& !self.stack_enabled
        &&& self.stack_origin == 0
        &&& self.running
        &&& self.tick_ms == DEFAULT_TICK_MS
        &&& self.pop_delta == 0
        &&& !self.invert_import
        &&& self.painting is None
        &&& self.paint_material is None
    }

    /// A simulator that has just been started with a generator that held the
    /// given words: the automaton runs on a random patch, and the physics waits
    /// with its starter scene.
    pub open spec fn starts_with(self, words: Map<int, u64>) -> bool {
        let patch = (-70i64, -45i64, 70i64, 45i64);
        &&& self.has_start_settings()
        &&& self.generation == 0
        &&& forall|x: int, y: int| #[trigger]
            self.live.contains((x, y)) == (scatter::in_quad(x, y, patch) && chance::roll_at(
                words,
                scatter::index_in(patch, x, y),
                fill_density(),
            ))
        &&& self.ticks == 0
        &&& forall|x: int, y: int| #[trigger]
            tick::content(self.cells, x, y) == scene::drawn_scenery(words, 12831, x, y)
        &&& chance::is_rest(self.words, words, 14528)
    }

    /// A simulator that has just been started.
    pub open spec fn is_start(self) -> bool {
        exists|words: Map<int, u64>| self.starts_with(words)
    }
}

impl Simulator {
    /// A simulator that draws on a generator of its own.
    pub fn new() -> (r: Self)
        ensures
            r.wf(),
            r@.is_start(),
    {
        Simulator::with_rng(fresh_rng())
    }

    /// A simulator that draws its worlds, and what it needs later, from the
    /// given generator.
    pub fn with_rng(mut rng: StdRng) -> (r: Self)
        ensures
            r.wf(),
            r@.starts_with(chance::words_of(rng)),
    {
        let ghost words = chance::words_of(rng);
        let mut world = World::new();
        let density = Chance { numerator: 1, denominator: 5 };
        world.randomize_region(-70, -45, 70, 45, density, &mut rng);
        let ghost rest = chance::words_of(rng);
        let physics = default_physics_scene(&mut rng);
        proof {
            assert(91 * 141 == 12831) by (nonlinear_arith);
            chance::lemma_rolls_of_rest(words, rest, 12831, 0, 713, scene::mound_density());
            chance::lemma_rolls_of_rest(words, rest, 12831, 713, 984, scene::pool_density());
            chance::lemma_rest_of_rest(words, rest, chance::words_of(rng), 12831, 1697);
            physics.lemma_cells();
            assert forall|x: int, y: int| #[trigger] physics@.dom().contains((x, y)) implies
                physics@[(x, y)] <= STONE by {
                assert(tick::content(physics@, x, y) == scene::drawn_scenery(rest, 0, x, y));
            }
        }
        Simulator::with_worlds(world, physics, rng)
    }

    /// A simulator with the settings of the start, on the given worlds and
    /// generator. The physics world holds built-in materials.
    pub fn with_worlds(world: World, physics: PhysicsWorld, rng: StdRng) -> (r: Self)
        requires
            world.wf(),
            physics.wf(),
            forall|x: int, y: int| #[trigger]
                physics@.dom().contains((x, y)) ==> physics@[(x, y)] <= STONE,
        ensures
            r.wf(),
            r@.has_start_settings(),
            r@.live == world@,
            r@.generation == world.generation(),
            r@.cells == physics@,
            r@.ticks == physics.generation(),
            r.rng == rng,
    {
        proof {
            physics.lemma_cells();
        }
        Simulator {
            mode: SimMode::CellularAutomaton,
            world,
            physics,
            snapshot: None,
            physics_snapshot: None,
            materials: builtin_materials(),
            selected_material: SAND,
            rules: builtin_rules(),
            rule_index: 0,
            themes: themes(),
            theme_index: 0,
            editor: StackEditor::default(),
            stack_enabled: false,
            stack_origin: 0,
            running: true,
            tick_ms: DEFAULT_TICK_MS,
            pop_delta: 0,
            invert_import: false,
            painting: None,
            paint_material: None,
            rng,
        }
    }
}

/// The starter physics scene can be stepped.
pub proof fn law_start_can_tick(start: SimView)
    requires
        start.is_start(),
        forall|x: int, y: int| #[trigger]
            start.cells.dom().contains((x, y)) ==> start.cells[(x, y)] != EMPTY,
    ensures
        physics::can_tick(start.materials, start.cells),
{
    assert forall|x: int, y: int| #[trigger] start.cells.dom().contains((x, y)) implies {
        &&& start.cells[(x, y)] < start.materials.len()
        &&& physics::has_room(start.materials[start.cells[(x, y)] as int].phase, x, y)
    } by {
        let words = choose|words: Map<int, u64>| start.starts_with(words);
        assert(tick::content(start.cells, x, y) == scene::drawn_scenery(words, 12831, x, y));
    }
}

/// A stroke writes what it paints wherever it comes, whatever was there before,
/// and nothing else. In physics mode it paints the selected material; in the
/// automaton it brings cells to life if it started on a dead one, and kills them
/// otherwise.
pub proof fn law_strokes_paint(before: SimView, x: int, y: int)
    ensures
        ({
            let after = before.paint_begun(x, y);
            let id = before.selected_material;
            let alive = !before.live.contains((x, y));
            &&& before.mode is Physics && id != 0 ==> after == (SimView {
                cells: before.cells.insert((x, y), id),
                paint_material: Some(id),
                ..before
            })
            &&& before.mode is Physics && id == 0 ==> after == (SimView {
                cells: before.cells.remove((x, y)),
                paint_material: Some(0u8),
                ..before
            })
            &&& before.mode is CellularAutomaton && alive ==> after == (SimView {
                live: before.live.insert((x, y)),
                painting: Some(true),
                ..before
            })
            &&& before.mode is CellularAutomaton && !alive ==> after == (SimView {
                live: before.live.remove((x, y)),
                painting: Some(false),
                ..before
            })
        }),
{
}

/// A stroke that erases empties a place, or kills a cell, whatever was there
/// before, and nothing else.
pub proof fn law_strokes_erase(before: SimView, x: int, y: int)
    ensures
        ({
            let after = before.erase_begun(x, y);
            &&& before.mode is Physics ==> after == (SimView {
                cells: before.cells.remove((x, y)),
                paint_material: Some(0u8),
                ..before
            })
            &&& before.mode is CellularAutomaton ==> after == (SimView {
                live: before.live.remove((x, y)),
                painting: Some(false),
                ..before
            })
        }),
{
}

/// A stroke under way writes at each place that it comes to what it wrote where
/// it began, whatever was there before; without one nothing is written.
pub proof fn law_strokes_go_on(before: SimView, x: int, y: int)
    ensures
        ({
            let after = before.stroked(x, y);
            match before.mode {
                SimMode::Physics => match before.paint_material {
                    Some(id) => if id == 0 {
                        after == (SimView { cells: before.cells.remove((x, y)), ..before })
                    } else {
                        after == (SimView { cells: before.cells.insert((x, y), id), ..before })
                    },
                    None => after == before,
                },
                SimMode::CellularAutomaton => match before.painting {
                    Some(true) => after == (SimView { live: before.live.insert((x, y)), ..before }),
                    Some(false) => after == (SimView { live: before.live.remove((x, y)), ..before }),
                    None => after == before,
                },
            }
        }),
{
}

/// All places of a stroke end up alike: where it goes on holds what it holds
/// where it began.
pub proof fn law_strokes_are_even(before: SimView, x: int, y: int, u: int, v: int)
    ensures
        ({
            let after = before.paint_begun(x, y).stroked(u, v);
            &&& before.mode is Physics ==> {
                let id = before.selected_material;
                &&& after.cells.dom().contains((x, y)) <==> id != 0
                &&& after.cells.dom().contains((u, v)) <==> id != 0
                &&& id != 0 ==> after.cells[(x, y)] == id && after.cells[(u, v)] == id
            }
            &&& before.mode is CellularAutomaton ==> {
                let alive = !before.live.contains((x, y));
                after.live.contains((x, y)) == alive && after.live.contains((u, v)) == alive
            }
        }),
        ({
            let after = before.erase_begun(x, y).stroked(u, v);
            &&& before.mode is Physics ==> !after.cells.dom().contains((x, y))
                && !after.cells.dom().contains((u, v))
            &&& before.mode is CellularAutomaton ==> !after.live.contains((x, y))
                && !after.live.contains((u, v))
        }),
{
}

/// Saving keeps the world of the active mode and its generation and changes
/// nothing else; restoring brings them back and changes nothing else, and
/// without a save it changes nothing.
pub proof fn law_snapshots(before: SimView)
    ensures
        before.mode is CellularAutomaton ==> {
            &&& before.saved() == (SimView {
                snapshot: Some((before.live, before.generation)),
                ..before
            })
            &&& before.has_snapshot() <==> before.snapshot is Some
            &&& before.snapshot is None ==> before.restored() == before
            &&& before.snapshot matches Some(saved) ==> before.restored() == (SimView {
                live: saved.0,
                generation: saved.1,
                ..before
            })
        },
        before.mode is Physics ==> {
            &&& before.saved() == (SimView {
                physics_snapshot: Some((before.cells, before.ticks)),
                ..before
            })
            &&& before.has_snapshot() <==> before.physics_snapshot is Some
            &&& before.physics_snapshot is None ==> before.restored() == before
            &&& before.physics_snapshot matches Some(saved) ==> before.restored() == (SimView {
                cells: saved.0,
                ticks: saved.1,
                ..before
            })
        },
{
}

/// Clearing empties the active world and starts its count anew; in the
/// automaton the stack starts anew with it. The other world and everything else
/// are left alone.
pub proof fn law_clearing(before: SimView)
    ensures
        before.mode is CellularAutomaton ==> before.cleared() == (SimView {
            live: Set::empty(),
            generation: 0u64,
            stack_origin: 0u64,
            ..before
        }),
        before.mode is Physics ==> before.cleared() == (SimView {
            cells: Map::empty(),
            ticks: 0u64,
            ..before
        }),
{
}

/// Selecting the next rule or material goes one on in its table, and from the
/// last to the first; selecting the previous one goes one back, and from the
/// first to the last. The table of the other mode is left alone.
pub proof fn law_selection_moves_by_one(before: SimView)
    requires
        0 <= before.rule_index < before.rules.len(),
        before.selected_material < before.materials.len() <= 256,
    ensures
        ({
            let (next, prev) = (before.cycled(1), before.cycled(-1));
            let (i, last) = (before.rule_index, before.rules.len() - 1);
            &&& before.mode is CellularAutomaton && i < last ==> next == (SimView {
                rule_index: i + 1,
                ..before
            })
            &&& before.mode is CellularAutomaton && i == last ==> next == (SimView {
                rule_index: 0int,
                ..before
            })
            &&& before.mode is CellularAutomaton && i > 0 ==> prev == (SimView {
                rule_index: i - 1,
                ..before
            })
            &&& before.mode is CellularAutomaton && i == 0 ==> prev == (SimView {
                rule_index: last,
                ..before
            })
        }),
        ({
            let (next, prev) = (before.cycled(1), before.cycled(-1));
            let (id, last) = (before.selected_material, before.materials.len() - 1);
            &&& before.mode is Physics && id < last ==> next == (SimView {
                selected_material: (id + 1) as u8,
                ..before
            })
            &&& before.mode is Physics && id == last ==> next == (SimView {
                selected_material: 0u8,
                ..before
            })
            &&& before.mode is Physics && id > 0 ==> prev == (SimView {
                selected_material: (id - 1) as u8,
                ..before
            })
            &&& before.mode is Physics && id == 0 ==> prev == (SimView {
                selected_material: last as u8,
                ..before
            })
        }),
{
    lemma_cycle_on(before.rule_index, before.rules.len() as int);
    lemma_cycle_back(before.rule_index, before.rules.len() as int);
    lemma_cycle_on(before.selected_material as int, before.materials.len() as int);
    lemma_cycle_back(before.selected_material as int, before.materials.len() as int);
}

/// Slowing down doubles the time per tick, up to 1280 milliseconds, and speeding
/// up halves it, down to 10; where neither limit is met, the one takes the other
/// back.
pub proof fn law_speeds(before: SimView)
    requires
        10 <= before.tick_ms <= 1280,
    ensures
        ({
            let (slow, fast) = (before.slowed(), before.sped_up());
            &&& slow == (SimView { tick_ms: slow.tick_ms, ..before })
            &&& fast == (SimView { tick_ms: fast.tick_ms, ..before })
            &&& before.tick_ms <= 640 ==> slow.tick_ms == before.tick_ms + before.tick_ms
            &&& before.tick_ms > 640 ==> slow.tick_ms == 1280
            &&& before.tick_ms < 20 ==> fast.tick_ms == 10
            &&& before.tick_ms >= 20 ==> before.tick_ms - 1 <= fast.tick_ms + fast.tick_ms
                <= before.tick_ms
            &&& before.tick_ms <= 640 ==> slow.sped_up() == before
        }),
{
}

/// What each key's action changes, and that it changes nothing else.
pub proof fn law_actions(before: SimView, action: KeyAction)
    requires
        0 <= before.theme_index < before.themes.len(),
    ensures
        ({
            let after = before.acted(action);
            match action {
                KeyAction::Undo => after == (SimView { editor: before.editor.undone(), ..before }),
                KeyAction::Redo => after == (SimView { editor: before.editor.redone(), ..before }),
                KeyAction::TogglePause => after == (SimView { running: after.running, ..before })
                    && after.running != before.running,
                KeyAction::Slower => after == before.slowed(),
                KeyAction::Faster => after == before.sped_up(),
                KeyAction::Clear => after == before.cleared(),
                KeyAction::SwitchMode => after == (SimView { mode: after.mode, ..before })
                    && after.mode != before.mode,
                KeyAction::Save => after == before.saved(),
                KeyAction::Restore => after == before.restored(),
                KeyAction::Previous => after == before.cycled(-1),
                KeyAction::Next => after == before.cycled(1),
                KeyAction::NextTheme => after == (SimView {
                    theme_index: if before.theme_index + 1 < before.themes.len() {
                        before.theme_index + 1
                    } else {
                        0
                    },
                    ..before
                }),
                KeyAction::ToggleInvert => after == (SimView {
                    invert_import: after.invert_import,
                    ..before
                }) && after.invert_import != before.invert_import,
                KeyAction::Camera(_) | KeyAction::Step | KeyAction::Randomize => after == before,
            }
        }),
        before.can_act(action) <==> match action {
            KeyAction::Undo => before.editor.undo.len() > 0,
            KeyAction::Redo => before.editor.redo.len() > 0,
            KeyAction::Restore => before.mode is CellularAutomaton && before.snapshot is Some
                || before.mode is Physics && before.physics_snapshot is Some,
            _ => true,
        },
{
    lemma_cycle_on(before.theme_index, before.themes.len() as int);
}

/// A key stands for one action at most. With the platform modifier only one key
/// does, to undo, or with shift to redo; without it shift makes no difference,
/// and neither undo nor redo has a key.
pub proof fn law_keys(
    a: Option<KeyAction>,
    b: Option<KeyAction>,
    key: Seq<char>,
    platform: bool,
    shift: bool,
)
    requires
        is_action_of(a, key, platform, shift),
    ensures
        is_action_of(b, key, platform, shift) ==> a == b,
        platform && key != seq!['z'] ==> a is None,
        platform && key == seq!['z'] && shift ==> a == Some(KeyAction::Redo),
        platform && key == seq!['z'] && !shift ==> a == Some(KeyAction::Undo),
        !platform ==> is_action_of(a, key, false, !shift),
        !platform ==> a != Some(KeyAction::Undo) && a != Some(KeyAction::Redo),
{
    reveal_strlit("z");
    assert("z"@ =~= seq!['z']);
    if !platform && is_action_of(b, key, platform, shift) {
        match (a, b) {
            (Some(_), Some(_)) => {
                let i = choose|i: int|
                    0 <= i < key_bindings().len() && (#[trigger] key_bindings()[i]).0@ == key
                        && key_bindings()[i].1 == a->0;
                let j = choose|j: int|
                    0 <= j < key_bindings().len() && (#[trigger] key_bindings()[j]).0@ == key
                        && key_bindings()[j].1 == b->0;
                if i < j {
                    law_key_bindings_are_unambiguous(i, j);
                } else if j < i {
                    law_key_bindings_are_unambiguous(j, i);
                }
            },
            _ => {},
        }
    }
}

/// The rule of the next step is that of the active entry, if the stack is on and
/// has one for how long it has been running, and otherwise the selected one of
/// the library. A stack that would have started later has just started.
pub proof fn law_current_rule(sim: SimView, i: int)
    ensures
        ({
            let age = if sim.generation < sim.stack_origin {
                0
            } else {
                sim.generation - sim.stack_origin
            };
            &&& sim.stack_enabled && stack::is_active(sim.editor.entries) && stack::runs_at(
                sim.editor.entries,
                age,
                i,
            ) ==> sim.active_index() == Some(i) && sim.rule() == sim.editor.entries[i].rule
            &&& !sim.stack_enabled || !stack::is_active(sim.editor.entries) ==> sim.active_index()
                is None && sim.rule() == sim.rules[sim.rule_index].rule
            &&& sim.stack_enabled && stack::is_active(sim.editor.entries) ==> sim.active_index()
                is Some
        }),
{
    if sim.stack_enabled && stack::is_active(sim.editor.entries) {
        let n = sim.stack_generation();
        stack::law_active_stack_covers_every_generation(sim.editor.entries, n);
        let j = choose|i: int| stack::runs_at(sim.editor.entries, n, i);
        if stack::runs_at(sim.editor.entries, n, i) {
            stack::law_active_entry_is_unique(sim.editor.entries, n, i, j);
        }
    }
}

/// The entries of a stack take turns with the rule: as the generations pass
/// since the stack was started, its entry `i` gives the rule while it runs, each
/// for as many generations as it says, and after the last the first again.
pub proof fn law_stack_entries_take_turns(sim: SimView, ends: Seq<int>, i: int)
    requires
        sim.stack_enabled,
        sim.generation >= sim.stack_origin,
        stack::are_ends(sim.editor.entries, ends),
        forall|k: int|
            0 <= k < sim.editor.entries.len() ==> (#[trigger] sim.editor.entries[k]).generations
                is Some,
        ends.last() > 0,
        0 <= i < sim.editor.entries.len(),
        ends[i] <= (sim.generation - sim.stack_origin) % ends.last() < ends[i + 1],
    ensures
        sim.rule() == sim.editor.entries[i].rule,
{
    let age = sim.generation - sim.stack_origin;
    stack::law_entries_run_for_their_generations(sim.editor.entries, ends, age, i);
    law_current_rule(sim, i);
}

/// A step moves the active world one generation on and counts by how much its
/// population changed; the other world and everything else are left alone. The
/// automaton follows the current rule: each cell of the plane lives on, or is
/// born, by the number of live cells around it.
pub proof fn law_steps(before: SimView, after: SimView)
    requires
        before.steps_to(after),
        before.can_step(),
    ensures
        before.mode is CellularAutomaton ==> {
            &&& after == (SimView {
                live: after.live,
                generation: (before.generation + 1) as u64,
                pop_delta: after.live.len() - before.live.len(),
                ..before
            })
            &&& !before.rule()@.birth.contains(0) ==> forall|x: int, y: int| #[trigger]
                after.live.contains((x, y)) <==> {
                    let n = Set::new(
                        |q: (int, int)|
                            before.live.contains(q) && q != (x, y) && -1 <= q.0 - x <= 1 && -1 <= q.1
                                - y <= 1,
                    ).len() as int;
                    ||| before.live.contains((x, y)) && before.rule()@.survival.contains(n)
                    ||| !before.live.contains((x, y)) && before.rule()@.birth.contains(n)
                }
        },
        before.mode is Physics ==> {
            &&& after == (SimView {
                cells: after.cells,
                ticks: (before.ticks + 1) as u64,
                pop_delta: 0int,
                words: after.words,
                ..before
            })
            &&& physics::is_tick(
                before.cells,
                before.materials,
                before.ticks % 2 == 0,
                Seq::empty(),
                before.words,
                after.cells,
                after.words,
            )
        },
{
    if before.mode is CellularAutomaton && !before.rule()@.birth.contains(0) {
        assert forall|x: int, y: int| #[trigger] after.live.contains((x, y)) <==> {
            let n = Set::new(
                |q: (int, int)|
                    before.live.contains(q) && q != (x, y) && -1 <= q.0 - x <= 1 && -1 <= q.1 - y
                        <= 1,
            ).len() as int;
            ||| before.live.contains((x, y)) && before.rule()@.survival.contains(n)
            ||| !before.live.contains((x, y)) && before.rule()@.birth.contains(n)
        } by {
            world::law_step_counts_neighbors(before.live, before.rule()@, x, y);
        }
    }
}

/// The next step can be taken where its outcome can be counted: the generation
/// can go up, the cells and those to come can be counted, and the stack too.
pub proof fn law_ordinary_worlds_can_step(sim: SimView)
    requires
        sim.mode is CellularAutomaton,
        sim.generation < u64::MAX,
        sim.editor.entries.len() <= u32::MAX,
        forall|x: int, y: int| #[trigger]
            sim.live.contains((x, y)) ==> i64::MIN <= x <= i64::MAX && i64::MIN <= y <= i64::MAX,
        sim.live.finite(),
        sim.live.len() <= 0x8000_0000_0000,
    ensures
        sim.can_step(),
{
    world::law_addressable_worlds_can_step(sim.live);
    lemma_short_stack_fits(sim.editor.entries, sim.editor.entries.len() as int);
    let n = sim.editor.entries.len() as int;
    assert(n * 0xffff_ffff <= 0xffff_ffff * 0xffff_ffff) by (nonlinear_arith)
        requires
            0 <= n <= 0xffff_ffff,
    ;
    let f = |p: (int, int)| (crate::chunk::chunk_of(p.0), crate::chunk::chunk_of(p.1));
    sim.live.lemma_map_finite(f);
    vstd::set_lib::lemma_map_size_bound(sim.live, sim.live.map(f), f);
    assert(sim.live.map(f) == crate::chunk::occupied_chunks(sim.live));
    world::law_step_growth(sim.live, sim.rule()@);
}

proof fn lemma_short_stack_fits(entries: Seq<StackEntry>, k: int)
    requires
        0 <= k,
    ensures
        stack::start(entries, k) <= k * 0xffff_ffff,
    decreases k,
{
    if k > 0 {
        lemma_short_stack_fits(entries, k - 1);
    }
}

/// A world of materials can be stepped where every cell has room to move and its
/// ticks and cells can be counted.
pub proof fn law_ordinary_scenes_can_step(sim: SimView)
    requires
        sim.mode is Physics,
        sim.ticks < u64::MAX,
        sim.cells.dom().len() <= i64::MAX,
        forall|x: int, y: int| #[trigger]
            sim.cells.dom().contains((x, y)) ==> {
                &&& i64::MIN < x < i64::MAX
                &&& i64::MIN < y < i64::MAX
                &&& 0 < sim.cells[(x, y)] < sim.materials.len()
            },
    ensures
        sim.can_step(),
{
    physics::law_worlds_with_room_can_tick(sim.materials, sim.cells);
}

/// Randomizing rolls once for each cell of the rectangle, row by row, at one in
/// five. In the automaton the roll decides whether the cell lives; in physics
/// mode it puts down the selected material, or sand for the eraser, and
/// otherwise leaves what is there. Nothing outside of the rectangle changes.
pub proof fn law_randomizing(
    before: SimView,
    rect: (i64, i64, i64, i64),
    after: SimView,
    x: int,
    y: int,
)
    requires
        before.randomly_fills_to(rect, after),
        rect.0 <= rect.2,
        rect.1 <= rect.3,
    ensures
        ({
            let width = rect.2 - rect.0 + 1;
            let inside = rect.0 <= x <= rect.2 && rect.1 <= y <= rect.3;
            let hit = chance::is_hit(before.words[(y - rect.1) * width + (x - rect.0)], 1, 5);
            let id = if before.selected_material == 0 {
                1u8
            } else {
                before.selected_material
            };
            &&& before.mode is CellularAutomaton ==> {
                &&& after == (SimView { live: after.live, words: after.words, ..before })
                &&& inside ==> after.live.contains((x, y)) == hit
                &&& !inside ==> after.live.contains((x, y)) == before.live.contains((x, y))
            }
            &&& before.mode is Physics ==> {
                &&& after == (SimView { cells: after.cells, words: after.words, ..before })
                &&& inside && hit ==> tick::content(after.cells, x, y) == id
                &&& !(inside && hit) ==> tick::content(after.cells, x, y) == tick::content(
                    before.cells,
                    x,
                    y,
                )
            }
            &&& forall|i: int|
                0 <= i ==> #[trigger] after.words[i] == before.words[i + (rect.3 - rect.1 + 1)
                    * width]
        }),
{
    let rolls = chance::rolls_of(before.words, 0, scatter::area_of(rect), fill_density());
    let between = SimView { words: before.words, ..after };
    if scatter::in_quad(x, y, rect) {
        scatter::lemma_index(rect, x, y);
        let i = scatter::index_in(rect, x, y);
        assert(rolls[i] == chance::roll_at(before.words, 0 + i, fill_density()));
    }
    assert(between.live.contains((x, y)) == after.live.contains((x, y)));
    assert(tick::content(between.cells, x, y) == tick::content(after.cells, x, y));
}

/// Stamping a picture writes a cell for each pixel that is at least half opaque
/// and dark, or bright where that is asked for: it comes alive, or takes on the
/// selected material, or stone for the eraser, whatever was there before.
/// Nothing else changes. Pixels go row by row, two bytes each, the brightness
/// first.
pub proof fn law_stamps(
    before: SimView,
    picture: Picture,
    ox: int,
    oy: int,
    after: SimView,
    x: int,
    y: int,
)
    requires
        before.stamps_to(picture, ox, oy, after),
    ensures
        ({
            let at = ((y - oy) * picture.width + (x - ox)) * 2;
            let (luma, alpha) = (picture.pixels@[at], picture.pixels@[at + 1]);
            let written = {
                &&& ox <= x < ox + picture.width
                &&& oy <= y < oy + picture.height
                &&& alpha >= 128
                &&& !before.invert_import ==> luma < 128
                &&& before.invert_import ==> luma >= 128
            };
            let id = if before.selected_material == 0 {
                3u8
            } else {
                before.selected_material
            };
            &&& before.mode is CellularAutomaton ==> {
                &&& after == (SimView { live: after.live, ..before })
                &&& after.live.contains((x, y)) <==> before.live.contains((x, y)) || written
            }
            &&& before.mode is Physics ==> {
                &&& after == (SimView { cells: after.cells, ..before })
                &&& written ==> tick::content(after.cells, x, y) == id
                &&& !written ==> tick::content(after.cells, x, y) == tick::content(
                    before.cells,
                    x,
                    y,
                )
            }
        }),
{
}

/// An entry that is dropped in front of the `drop_index`-th entry, or past the
/// last, stays where it is if it is dropped in front of itself or of the one
/// after it. Otherwise it moves there, and the others keep their order.
pub proof fn law_drops(entries: Seq<StackEntry>, from: int, drop_index: int)
    requires
        0 <= from < entries.len(),
        0 <= drop_index <= entries.len(),
        entries.len() <= usize::MAX,
    ensures
        ({
            let to = SimView::drop_target(from, drop_index);
            let moved = stack::applied(
                entries,
                EditCommand::Move { from: from as usize, to: to as usize },
            );
            &&& to == from <==> drop_index == from || drop_index == from + 1
            &&& moved.remove(to) == entries.remove(from)
            &&& drop_index > from ==> forall|i: int|
                from <= i < to ==> #[trigger] moved[i] == entries[i + 1]
            &&& moved.take(to) == (if drop_index <= from {
                entries.take(drop_index)
            } else {
                entries.take(drop_index).remove(from)
            })
        }),
{
    let to = SimView::drop_target(from, drop_index);
    let moved = stack::applied(entries, EditCommand::Move { from: from as usize, to: to as usize });
    assert(moved.remove(to) =~= entries.remove(from));
    if drop_index <= from {
        assert(moved.take(to) =~= entries.take(drop_index));
    } else {
        assert(moved.take(to) =~= entries.take(drop_index).remove(from));
    }
}

/// Setting how long an entry runs changes that and nothing else of the stack,
/// and goes into the history only if it is a change.
pub proof fn law_durations_are_set(before: SimView, index: usize, new: Option<u32>)
    requires
        index < before.editor.entries.len(),
    ensures
        ({
            let after = before.with_duration(index, new);
            let entries = before.editor.entries;
            &&& after == (SimView { editor: after.editor, ..before })
            &&& after.editor.entries.len() == entries.len()
            &&& after.editor.entries[index as int].generations == new
            &&& after.editor.entries[index as int].name == entries[index as int].name
            &&& after.editor.entries[index as int].rule == entries[index as int].rule
            &&& forall|i: int|
                0 <= i < entries.len() && i != index ==> #[trigger] after.editor.entries[i]
                    == entries[i]
            &&& new == entries[index as int].generations ==> after == before
            &&& new != entries[index as int].generations ==> after.editor.undo.len()
                == before.editor.undo.len() + 1
        }),
{
}

/// An edit changes the stack and its history and nothing else.
pub proof fn law_edits_leave_the_rest(before: SimView, command: EditCommand)
    ensures
        before.edited(command) == (SimView { editor: before.editor.edited(command), ..before }),
        before.edited(command).editor.entries == stack::applied(before.editor.entries, command),
{
}

/// A simulator starts running the automaton, at 80 milliseconds per tick, with
/// the first rule and theme and with sand selected, on a patch of 141 by 91
/// cells around the origin of which each lives by a roll of one in five, and
/// with the starter scene, whose rolls follow.
pub proof fn law_starts(start: SimView, words: Map<int, u64>, x: int, y: int)
    requires
        start.starts_with(words),
    ensures
        start.mode is CellularAutomaton,
        start.running,
        start.tick_ms == 80,
        start.rule_index == 0,
        start.theme_index == 0,
        start.selected_material == 1,
        start.generation == 0,
        start.ticks == 0,
        start.snapshot is None,
        start.physics_snapshot is None,
        !start.stack_enabled,
        start.stack_origin == 0,
        start.editor.entries.len() == 0,
        start.editor.undo.len() == 0,
        start.editor.redo.len() == 0,
        start.pop_delta == 0,
        !start.invert_import,
        start.painting is None,
        start.paint_material is None,
        start.live.contains((x, y)) <==> -70 <= x <= 70 && -45 <= y <= 45 && chance::is_hit(
            words[(y + 45) * 141 + (x + 70)],
            1,
            5,
        ),
        tick::content(start.cells, x, y) == scene::drawn_scenery(words, 12831, x, y),
        forall|i: int| 0 <= i ==> #[trigger] start.words[i] == words[i + 14528],
{
}

/// What is shown of a simulator is what it holds.
pub proof fn law_view(sim: Simulator)
    ensures
        sim@.mode == sim.mode,
        sim@.live == sim.world@,
        sim@.generation == sim.world.generation,
        sim@.cells == sim.physics@,
        sim@.ticks == sim.physics.generation,
        sim@.snapshot is Some <==> sim.snapshot is Some,
        sim.snapshot matches Some(world) ==> sim@.snapshot == Some((world@, world.generation)),
        sim@.physics_snapshot is Some <==> sim.physics_snapshot is Some,
        sim.physics_snapshot matches Some(physics) ==> sim@.physics_snapshot == Some(
            (physics@, physics.generation),
        ),
        sim@.materials == sim.materials@,
        sim@.selected_material == sim.selected_material,
        sim@.rules == sim.rules@,
        sim@.rule_index == sim.rule_index,
        sim@.themes == sim.themes@,
        sim@.theme_index == sim.theme_index,
        sim@.editor == sim.editor@,
        sim@.stack_enabled == sim.stack_enabled,
        sim@.stack_origin == sim.stack_origin,
        sim@.running == sim.running,
        sim@.tick_ms == sim.tick_ms,
        sim@.pop_delta == sim.pop_delta,
        sim@.invert_import == sim.invert_import,
        sim@.painting == sim.painting,
        sim@.paint_material == sim.paint_material,
        sim@.mode is CellularAutomaton ==> sim@.population() == sim.world@.len(),
        sim@.mode is Physics ==> sim@.population() == sim.physics@.dom().len(),
{
}

/// Each action but undo and redo has exactly one key, and no other key stands
/// for anything: there are twenty.
pub proof fn law_each_action_has_one_key(i: int, j: int)
    requires
        0 <= i < j < key_bindings().len(),
    ensures
        key_bindings().len() == 20,
        key_bindings()[i].1 != key_bindings()[j].1,
{
}

/// An action steps, randomizes what is visible of the plane, or does what it
/// always does.
pub proof fn law_acts(
    before: SimView,
    action: KeyAction,
    visible: (i64, i64, i64, i64),
    after: SimView,
)
    requires
        before.acts_to(action, visible, after),
    ensures
        action is Step ==> before.steps_to(after),
        action is Randomize ==> before.randomly_fills_to(pacing::capped_rect(visible), after),
        !(action is Step) && !(action is Randomize) ==> after == before.acted(action),
{
}

/// The next step of the automaton can be taken exactly when its outcome can be
/// counted: the generation can go up, the live cells before and after the step
/// fit into 63 bits, and so, in 64, does the length of a stack that loops.
pub proof fn law_countable_worlds_can_step(sim: SimView, ends: Seq<int>)
    requires
        sim.mode is CellularAutomaton,
        stack::are_ends(sim.editor.entries, ends),
        forall|x: int, y: int| #[trigger]
            sim.live.contains((x, y)) ==> i64::MIN <= x <= i64::MAX && i64::MIN <= y <= i64::MAX,
    ensures
        ({
            let loops = forall|i: int|
                0 <= i < sim.editor.entries.len() ==> (#[trigger] sim.editor.entries[i]).generations
                    is Some;
            &&& sim.can_step() <==> {
                &&& sim.generation < u64::MAX
                &&& sim.live.len() <= i64::MAX
                &&& world::next_generation(sim.live, sim.rule()@).len() <= i64::MAX
                &&& loops ==> ends.last() <= u64::MAX
            }
            &&& sim.stack_fits() <==> (loops ==> ends.last() <= u64::MAX)
        }),
{
    world::law_addressable_worlds_can_step(sim.live);
    stack::law_pass_length(sim.editor.entries, ends);
}

} // verus!
