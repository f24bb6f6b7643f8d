//! What the panels and the canvas show of the simulator.
use vstd::prelude::*;
use vstd::string::StringExecFns;

use crate::material::{MaterialId, EMPTY};
use crate::rule::BsRule;
use crate::simulator::{SimMode, SimView, Simulator};
use crate::text::{push_decimal, push_signed};
use crate::theme::CellColor;
#[allow(unused_imports)]
use crate::{chunk, material, rule, scatter, text, theme, world};

verus! {

/// The line that tells what the active world is doing: the rule it follows,
/// with its place in the stack, or the material that is painted.
pub open spec fn mode_label_of(sim: SimView) -> Seq<char> {
    match sim.mode {
        SimMode::CellularAutomaton => match sim.active_index() {
            Some(i) => {
                let entry = sim.editor.entries[i];
                "stack "@ + text::decimal(i + 1) + "/"@ + text::decimal(
                    sim.editor.entries.len() as int,
                ) + ": "@ + entry.name@ + " ("@ + rule::canonical(entry.rule@) + ")"@
            },
            None => {
                let named = sim.rules[sim.rule_index];
                named.name@ + " ("@ + rule::canonical(named.rule@) + ")"@
            },
        },
        SimMode::Physics => "painting "@ + sim.materials[sim.selected_material as int].name@,
    }
}

/// How long an entry of the stack runs.
pub open spec fn duration_label_of(generations: Option<u32>) -> Seq<char> {
    match generations {
        Some(n) => text::decimal(n as int) + " gen"@,
        None => "∞"@,
    }
}

pub fn duration_label(generations: Option<u32>) -> (r: String)
    ensures
        r@ == duration_label_of(generations),
{
    match generations {
        Some(n) => {
            let mut out = String::new();
            push_decimal(&mut out, n as u64);
            out.append(" gen");
            assert(out@ =~= duration_label_of(generations));
            out
        },
        None => "∞".to_string(),
    }
}

/// A word and a number.
fn counted(word: &str, n: u64) -> (r: String)
    ensures
        r@ == word@ + text::decimal(n as int),
{
    let mut out = word.to_string();
    push_decimal(&mut out, n);
    out
}

impl Simulator {
    pub fn mode_label(&self) -> (r: String)
        requires
            self.wf(),
            self@.stack_fits(),
        ensures
            r@ == mode_label_of(self@),
    {
        let mut out = String::new();
        match self.mode {
            SimMode::CellularAutomaton => match self.active_stack_entry() {
                Some((index, entry)) => {
                    let count = self.editor.stack().entries.len();
                    out.append("stack ");
                    push_decimal(&mut out, (index + 1) as u64);
                    out.append("/");
                    push_decimal(&mut out, count as u64);
                    out.append(": ");
                    out.append(entry.name.as_str());
                    out.append(" (");
                    out.append(entry.rule.notation().as_str());
                    out.append(")");
                },
                None => {
                    let named = &self.rules[self.rule_index];
                    out.append(named.name);
                    out.append(" (");
                    out.append(named.rule.notation().as_str());
                    out.append(")");
                },
            },
            SimMode::Physics => {
                out.append("painting ");
                out.append(self.materials[self.selected_material as usize].name.as_str());
            },
        }
        assert(out@ =~= mode_label_of(self@));
        out
    }

    pub fn generation_label(&self) -> (r: String)
        ensures
            r@ == "gen "@ + text::decimal(
                match self@.mode {
                    SimMode::CellularAutomaton => self@.generation as int,
                    SimMode::Physics => self@.ticks as int,
                },
            ),
    {
        counted("gen ", self.active_generation())
    }

    pub fn population_label(&self) -> (r: String)
        requires
            self.wf(),
            self@.population() <= u64::MAX,
        ensures
            r@ == "pop "@ + text::decimal(self@.population() as int) + " ("@ + text::signed_decimal(
                self@.pop_delta,
            ) + ")"@,
    {
        let mut out = counted("pop ", self.active_population());
        out.append(" (");
        push_signed(&mut out, self.pop_delta);
        out.append(")");
        out
    }

    pub fn chunk_label(&self) -> (r: String)
        requires
            self.wf(),
        ensures
            r@ == "chunks "@ + text::decimal(
                chunk::occupied_chunks(
                    match self@.mode {
                        SimMode::CellularAutomaton => self@.live,
                        SimMode::Physics => self@.cells.dom(),
                    },
                ).len() as int,
            ),
    {
        counted("chunks ", self.active_chunk_count() as u64)
    }

    pub fn run_label(&self) -> (r: &'static str)
        ensures
            r@ == (if self@.running {
                "▶ running"@
            } else {
                "⏸ paused"@
            }),
    {
        if self.running {
            "▶ running"
        } else {
            "⏸ paused"
        }
    }

    pub fn mode_name(&self) -> (r: &'static str)
        ensures
            r@ == (match self@.mode {
                SimMode::CellularAutomaton => "▦ automata"@,
                SimMode::Physics => "⌛ physics"@,
            }),
    {
        match self.mode {
            SimMode::CellularAutomaton => "▦ automata",
            SimMode::Physics => "⌛ physics",
        }
    }

    pub fn import_label(&self) -> (r: &'static str)
        ensures
            r@ == (if self@.invert_import {
                "img: light→live"@
            } else {
                "img: dark→live"@
            }),
    {
        if self.invert_import {
            "img: light→live"
        } else {
            "img: dark→live"
        }
    }

    /// The generation that the active world can be rolled back to.
    pub fn snapshot_generation(&self) -> (r: Option<u64>)
        ensures
            r == (match self@.mode {
                SimMode::CellularAutomaton => match self@.snapshot {
                    Some((_, generation)) => Some(generation),
                    None => None,
                },
                SimMode::Physics => match self@.physics_snapshot {
                    Some((_, ticks)) => Some(ticks),
                    None => None,
                },
            }),
    {
        match self.mode {
            SimMode::CellularAutomaton => match &self.snapshot {
                Some(world) => Some(world.generation()),
                None => None,
            },
            SimMode::Physics => match &self.physics_snapshot {
                Some(physics) => Some(physics.generation()),
                None => None,
            },
        }
    }

    pub fn snapshot_label(&self) -> (r: String)
        ensures
            match self@.mode {
                SimMode::CellularAutomaton => match self@.snapshot {
                    Some((_, generation)) => r@ == "⟲ gen "@ + text::decimal(generation as int),
                    None => r@ == "⟲ restore"@,
                },
                SimMode::Physics => match self@.physics_snapshot {
                    Some((_, ticks)) => r@ == "⟲ gen "@ + text::decimal(ticks as int),
                    None => r@ == "⟲ restore"@,
                },
            },
    {
        match self.snapshot_generation() {
            Some(generation) => counted("⟲ gen ", generation),
            None => "⟲ restore".to_string(),
        }
    }

    /// What the place below the stack invites to.
    pub fn stack_hint(&self) -> (r: &'static str)
        ensures
            r@ == (if self@.editor.entries.len() == 0 {
                "drag rules here from the library — each entry runs for its generation count, then the stack loops"@
            } else {
                "drop here to append"@
            }),
    {
        if self.editor.stack().is_empty() {
            "drag rules here from the library — each entry runs for its generation count, then the stack loops"
        } else {
            "drop here to append"
        }
    }

    /// The keys and buttons of the active mode.
    pub fn help_text(&self) -> (r: &'static str)
        ensures
            r@ == (match self@.mode {
                SimMode::CellularAutomaton => "space pause · n step · , . speed · m mode · r randomize · c clear · s save · b back · scroll zoom · middle-drag pan · arrows pan · 0 reset camera · [ ] rule · t theme · i invert import · drag paint · right-drag erase · ⌘Z undo stack edit"@,
                SimMode::Physics => "space pause · n step · , . speed · m mode · r sprinkle · c clear · s save · b back · scroll zoom · middle-drag pan · arrows pan · 0 reset camera · [ ] material · t theme · drag paint · right-drag erase"@,
            }),
    {
        match self.mode {
            SimMode::CellularAutomaton => "space pause · n step · , . speed · m mode · r randomize · c clear · s save · b back · scroll zoom · middle-drag pan · arrows pan · 0 reset camera · [ ] rule · t theme · i invert import · drag paint · right-drag erase · ⌘Z undo stack edit",
            SimMode::Physics => "space pause · n step · , . speed · m mode · r sprinkle · c clear · s save · b back · scroll zoom · middle-drag pan · arrows pan · 0 reset camera · [ ] material · t theme · drag paint · right-drag erase",
        }
    }

    /// The label and the color of the switch that turns the stack on and off.
    pub fn stack_switch(&self) -> (r: (&'static str, u32))
        requires
            self.wf(),
        ensures
            self@.stack_enabled ==> r.0@ == "on"@ && r.1
                == self@.themes[self@.theme_index].accent,
            !self@.stack_enabled ==> r.0@ == "off"@ && r.1
                == self@.themes[self@.theme_index].text_dim,
    {
        let theme = self.theme();
        if self.stack_enabled {
            ("on", theme.accent)
        } else {
            ("off", theme.text_dim)
        }
    }

    /// The color of a button that may be out of use.
    pub fn button_color(&self, enabled: bool) -> (r: u32)
        requires
            self.wf(),
        ensures
            r == (if enabled {
                self@.themes[self@.theme_index].text
            } else {
                self@.themes[self@.theme_index].text_dim
            }),
    {
        let theme = self.theme();
        if enabled {
            theme.text
        } else {
            theme.text_dim
        }
    }
}

/// A rule of the library as it is shown.
pub struct RuleChip {
    pub name: &'static str,
    pub rule: BsRule,
    pub selected: bool,
    pub text_color: u32,
}

/// An entry of the stack as it is shown.
pub struct StackRow {
    pub name: String,
    pub duration: String,
    pub active: bool,
    pub border_color: u32,
}

/// A material of the palette as it is shown.
pub struct PaletteRow {
    pub id: MaterialId,
    pub label: String,
    pub phase: &'static str,
    pub swatch: u32,
    pub selected: bool,
    pub border_color: u32,
    pub text_color: u32,
}

/// A theme as it is offered.
pub struct ThemeDot {
    pub name: &'static str,
    pub color: u32,
    pub border_color: u32,
}

/// The `i`-th rule is the one that the next step follows.
pub open spec fn is_rule_selected(sim: SimView, i: int) -> bool {
    i == sim.rule_index && sim.active_index() is None
}

pub open spec fn shows_rule(chip: RuleChip, sim: SimView, i: int) -> bool {
    let theme = sim.themes[sim.theme_index];
    &&& chip.name@ == sim.rules[i].name@
    &&& chip.rule == sim.rules[i].rule
    &&& chip.selected == is_rule_selected(sim, i)
    &&& chip.text_color == if chip.selected {
        theme.accent
    } else {
        theme.text
    }
}

pub open spec fn shows_entry(row: StackRow, sim: SimView, i: int) -> bool {
    let theme = sim.themes[sim.theme_index];
    &&& row.name@ == sim.editor.entries[i].name@
    &&& row.duration@ == duration_label_of(sim.editor.entries[i].generations)
    &&& row.active == (sim.active_index() == Some(i))
    &&& row.border_color == if row.active {
        theme.accent
    } else {
        theme.chip_bg
    }
}

pub open spec fn shows_material(row: PaletteRow, sim: SimView, i: int) -> bool {
    let theme = sim.themes[sim.theme_index];
    let shown = sim.materials[i];
    &&& row.id == i
    &&& row.label@ == if i == EMPTY {
        "Eraser"@
    } else {
        shown.name@
    }
    &&& row.phase@ == material::label_of(shown.phase)
    &&& row.swatch == if i == EMPTY {
        theme.canvas_bg
    } else {
        shown.color
    }
    &&& row.selected == (i == sim.selected_material)
    &&& row.border_color == if row.selected {
        theme.accent
    } else {
        theme.panel_bg
    }
    &&& row.text_color == if row.selected {
        theme.accent
    } else {
        theme.text
    }
}

pub open spec fn shows_theme(dot: ThemeDot, sim: SimView, i: int) -> bool {
    let theme = sim.themes[sim.theme_index];
    &&& dot.name@ == sim.themes[i].name@
    &&& dot.color == sim.themes[i].accent
    &&& dot.border_color == if i == sim.theme_index {
        theme.text
    } else {
        theme.bg
    }
}

impl Simulator {
    /// The rule library.
    pub fn rule_chips(&self) -> (r: Vec<RuleChip>)
        requires
            self.wf(),
            self@.stack_fits(),
        ensures
            r@.len() == self@.rules.len(),
            forall|i: int| 0 <= i < r@.len() ==> shows_rule(#[trigger] r@[i], self@, i),
    {
        let theme = self.theme();
        let idle = self.active_stack_entry().is_none();
        let mut chips: Vec<RuleChip> = Vec::new();
        let mut i: usize = 0;
        while i < self.rules.len()
            invariant
                self.wf(),
                theme == self@.themes[self@.theme_index],
                idle == (self@.active_index() is None),
                i <= self.rules@.len(),
                chips@.len() == i,
                forall|j: int| 0 <= j < i ==> shows_rule(#[trigger] chips@[j], self@, j),
            decreases self.rules@.len() - i,
        {
            let named = &self.rules[i];
            let selected = i == self.rule_index && idle;
            let text_color: u32 = if selected {
                theme.accent
            } else {
                theme.text
            };
            chips.push(RuleChip { name: named.name, rule: named.rule, selected, text_color });
            i = i + 1;
        }
        chips
    }

    /// The rule stack.
    pub fn stack_rows(&self) -> (r: Vec<StackRow>)
        requires
            self.wf(),
            self@.stack_fits(),
        ensures
            r@.len() == self@.editor.entries.len(),
            forall|i: int| 0 <= i < r@.len() ==> shows_entry(#[trigger] r@[i], self@, i),
    {
        let theme = self.theme();
        let active: Option<usize> = match self.active_stack_entry() {
            Some((index, _)) => Some(index),
            None => None,
        };
        let entries = &self.editor.stack().entries;
        let mut rows: Vec<StackRow> = Vec::new();
        let mut i: usize = 0;
        while i < entries.len()
            invariant
                self.wf(),
                theme == self@.themes[self@.theme_index],
                entries@ == self@.editor.entries,
                match active {
                    Some(index) => self@.active_index() == Some(index as int),
                    None => self@.active_index() is None,
                },
                i <= entries@.len(),
                rows@.len() == i,
                forall|j: int| 0 <= j < i ==> shows_entry(#[trigger] rows@[j], self@, j),
            decreases entries@.len() - i,
        {
            let entry = &entries[i];
            let active_here = match active {
                Some(index) => index == i,
                None => false,
            };
            rows.push(
                StackRow {
                    name: entry.name.clone(),
                    duration: duration_label(entry.generations),
                    active: active_here,
                    border_color: if active_here {
                        theme.accent
                    } else {
                        theme.chip_bg
                    },
                },
            );
            i = i + 1;
        }
        rows
    }

    /// The material palette.
    pub fn palette_rows(&self) -> (r: Vec<PaletteRow>)
        requires
            self.wf(),
        ensures
            r@.len() == self@.materials.len(),
            forall|i: int| 0 <= i < r@.len() ==> shows_material(#[trigger] r@[i], self@, i),
    {
        let theme = self.theme();
        let mut rows: Vec<PaletteRow> = Vec::new();
        let mut i: usize = 0;
        while i < self.materials.len()
            invariant
                self.wf(),
                theme == self@.themes[self@.theme_index],
                i <= self.materials@.len(),
                rows@.len() == i,
                forall|j: int| 0 <= j < i ==> shows_material(#[trigger] rows@[j], self@, j),
            decreases self.materials@.len() - i,
        {
            let shown = &self.materials[i];
            let id: MaterialId = i as MaterialId;
            let selected = id == self.selected_material;
            let (border_color, text_color): (u32, u32) = if selected {
                (theme.accent, theme.accent)
            } else {
                (theme.panel_bg, theme.text)
            };
            let (label, swatch): (String, u32) = if id == EMPTY {
                ("Eraser".to_string(), theme.canvas_bg)
            } else {
                (shown.name.clone(), shown.color)
            };
            let phase = shown.phase_label();
            rows.push(
                PaletteRow { id, label, phase, swatch, selected, border_color, text_color },
            );
            i = i + 1;
        }
        rows
    }

    /// The themes to choose from.
    pub fn theme_dots(&self) -> (r: Vec<ThemeDot>)
        requires
            self.wf(),
        ensures
            r@.len() == self@.themes.len(),
            forall|i: int| 0 <= i < r@.len() ==> shows_theme(#[trigger] r@[i], self@, i),
    {
        let theme = self.theme();
        let mut dots: Vec<ThemeDot> = Vec::new();
        let mut i: usize = 0;
        while i < self.themes.len()
            invariant
                self.wf(),
                theme == self@.themes[self@.theme_index],
                i <= self.themes@.len(),
                dots@.len() == i,
                forall|j: int| 0 <= j < i ==> shows_theme(#[trigger] dots@[j], self@, j),
            decreases self.themes@.len() - i,
        {
            let shown = self.themes[i];
            let border_color: u32 = if i == self.theme_index {
                theme.text
            } else {
                theme.bg
            };
            dots.push(ThemeDot { name: shown.name, color: shown.accent, border_color });
            i = i + 1;
        }
        dots
    }
}

/// The diagonals of the live cells in the rectangle can be numbered.
pub open spec fn has_diagonals(live: Set<(int, int)>, rect: (i64, i64, i64, i64)) -> bool {
    forall|x: int, y: int| #[trigger]
        live.contains((x, y)) && scatter::in_quad(x, y, rect) ==> i64::MIN <= x + y <= i64::MAX
}

/// `out` gives each of the live cells the color that the theme gives it.
pub open spec fn colors_live(
    out: Seq<(i64, i64, CellColor)>,
    live: Seq<(i64, i64)>,
    theme: theme::Theme,
) -> bool {
    &&& out.len() == live.len()
    &&& forall|i: int|
        0 <= i < out.len() ==> #[trigger] out[i] == (
            live[i].0,
            live[i].1,
            theme::color_of(theme, live[i].0 as int, live[i].1 as int),
        )
}

/// `out` gives each of the cells the color of its material.
pub open spec fn colors_materials(
    out: Seq<(i64, i64, CellColor)>,
    cells: Seq<(i64, i64, u8)>,
    materials: Seq<material::Material>,
) -> bool {
    &&& out.len() == cells.len()
    &&& forall|i: int|
        0 <= i < out.len() ==> #[trigger] out[i] == (
            cells[i].0,
            cells[i].1,
            CellColor::Rgb(materials[cells[i].2 as int].color),
        )
}

impl Simulator {
    /// The cells of the active world inside the (inclusive) rectangle, with
    /// the colors to draw them in.
    pub fn visible_cells(&self, rect: (i64, i64, i64, i64)) -> (r: Vec<(i64, i64, CellColor)>)
        requires
            self.wf(),
            self@.mode is CellularAutomaton && self@.themes[self@.theme_index].cell_style is Rainbow
                ==> has_diagonals(self@.live, rect),
        ensures
            match self@.mode {
                SimMode::CellularAutomaton => exists|live: Seq<(i64, i64)>|
                    world::lists_live(
                        live,
                        self@.live,
                        rect.0 as int,
                        rect.1 as int,
                        rect.2 as int,
                        rect.3 as int,
                    ) && #[trigger] colors_live(r@, live, self@.themes[self@.theme_index]),
                SimMode::Physics => exists|cells: Seq<(i64, i64, u8)>|
                    chunk::lists_rect(
                        cells,
                        self@.cells,
                        rect.0 as int,
                        rect.1 as int,
                        rect.2 as int,
                        rect.3 as int,
                    ) && #[trigger] colors_materials(r@, cells, self@.materials),
            },
    {
        let (min_x, min_y, max_x, max_y) = rect;
        let mut out: Vec<(i64, i64, CellColor)> = Vec::new();
        match self.mode {
            SimMode::CellularAutomaton => {
                let theme = self.theme();
                let live = self.world.live_cells_in(min_x, min_y, max_x, max_y);
                let mut i: usize = 0;
                while i < live.len()
                    invariant
                        theme == self@.themes[self@.theme_index],
                        rect == (min_x, min_y, max_x, max_y),
                        theme.cell_style is Rainbow ==> has_diagonals(self@.live, rect),
                        world::lists_live(
                            live@,
                            self@.live,
                            min_x as int,
                            min_y as int,
                            max_x as int,
                            max_y as int,
                        ),
                        i <= live@.len(),
                        out@.len() == i,
                        forall|j: int|
                            0 <= j < i ==> #[trigger] out@[j] == (
                                live@[j].0,
                                live@[j].1,
                                theme::color_of(theme, live@[j].0 as int, live@[j].1 as int),
                            ),
                    decreases live@.len() - i,
                {
                    let (x, y) = live[i];
                    assert(live@[i as int] == (x, y));
                    assert(self@.live.contains((x as int, y as int)));
                    out.push((x, y, theme.cell_color(x, y)));
                    i = i + 1;
                }
                assert(colors_live(out@, live@, theme));
            },
            SimMode::Physics => {
                let cells = self.physics.cells_in(min_x, min_y, max_x, max_y);
                let mut i: usize = 0;
                while i < cells.len()
                    invariant
                        self.wf(),
                        chunk::lists_rect(
                            cells@,
                            self@.cells,
                            min_x as int,
                            min_y as int,
                            max_x as int,
                            max_y as int,
                        ),
                        i <= cells@.len(),
                        out@.len() == i,
                        forall|j: int|
                            0 <= j < i ==> #[trigger] out@[j] == (
                                cells@[j].0,
                                cells@[j].1,
                                CellColor::Rgb(self@.materials[cells@[j].2 as int].color),
                            ),
                    decreases cells@.len() - i,
                {
                    let (x, y, m) = cells[i];
                    assert(cells@[i as int] == (x, y, m));
                    assert(self@.cells.dom().contains((x as int, y as int)));
                    out.push((x, y, CellColor::Rgb(self.materials[m as usize].color)));
                    i = i + 1;
                }
                assert(colors_materials(out@, cells@, self@.materials));
            },
        }
        out
    }
}

/// The line on top: what is painted in physics mode, and in the automaton the
/// name and the notation of the rule that the next step follows, with the place
/// of its entry, counted from one, where it comes from the stack.
pub proof fn law_mode_label(sim: SimView)
    ensures
        sim.mode is Physics ==> mode_label_of(sim) == "painting "@
            + sim.materials[sim.selected_material as int].name@,
        sim.mode is CellularAutomaton ==> exists|lead: Seq<char>|
            mode_label_of(sim) == #[trigger] (lead + " ("@) + rule::canonical(sim.rule()@) + ")"@,
        sim.mode is CellularAutomaton && !sim.stack_enabled ==> mode_label_of(sim)
            == sim.rules[sim.rule_index].name@ + " ("@ + rule::canonical(sim.rule()@) + ")"@,
        sim.mode is CellularAutomaton ==> (sim.active_index() matches Some(i) ==> mode_label_of(sim)
            == "stack "@ + text::decimal(i + 1) + "/"@ + text::decimal(
            sim.editor.entries.len() as int,
        ) + ": "@ + sim.editor.entries[i].name@ + " ("@ + rule::canonical(sim.rule()@) + ")"@),
{
    if sim.mode is CellularAutomaton {
        match sim.active_index() {
            Some(i) => {
                let lead = "stack "@ + text::decimal(i + 1) + "/"@ + text::decimal(
                    sim.editor.entries.len() as int,
                ) + ": "@ + sim.editor.entries[i].name@;
                assert(mode_label_of(sim) == (lead + " ("@) + rule::canonical(sim.rule()@) + ")"@);
            },
            None => {
                let lead = sim.rules[sim.rule_index].name@;
                assert(mode_label_of(sim) == (lead + " ("@) + rule::canonical(sim.rule()@) + ")"@);
            },
        }
    }
}

/// A duration is shown as its number of generations, and one without an end by a
/// sign of its own.
pub proof fn law_duration_label(n: u32)
    ensures
        ({
            let label = duration_label_of(Some(n));
            let digits = label.take(label.len() - 4);
            &&& label == digits + seq![' ', 'g', 'e', 'n']
            &&& digits.len() > 0
            &&& text::numeral(digits) == n
            &&& digits[0] == '0' ==> n == 0
        }),
        duration_label_of(None) != duration_label_of(Some(n)),
{
    reveal_strlit(" gen");
    reveal_strlit("∞");
    text::law_decimal(n as int);
    assert(" gen"@ =~= seq![' ', 'g', 'e', 'n']);
    let label = duration_label_of(Some(n));
    assert(label.take(label.len() - 4) =~= text::decimal(n as int));
    assert(duration_label_of(None).len() == 1);
}

/// Of the rules of the library the selected one is marked as such, unless an
/// entry of the stack is active: then none is, and that entry is marked.
/// Marked ones have the accent color.
pub proof fn law_marks(sim: SimView, chip: RuleChip, row: StackRow, i: int, k: int)
    requires
        shows_rule(chip, sim, i),
        shows_entry(row, sim, k),
    ensures
        chip.selected <==> i == sim.rule_index && sim.active_index() is None,
        row.active <==> sim.active_index() == Some(k),
        !(chip.selected && row.active),
        chip.name@ == sim.rules[i].name@,
        chip.rule == sim.rules[i].rule,
        row.name@ == sim.editor.entries[k].name@,
        row.duration@ == duration_label_of(sim.editor.entries[k].generations),
        chip.selected ==> chip.text_color == sim.themes[sim.theme_index].accent,
        !chip.selected ==> chip.text_color == sim.themes[sim.theme_index].text,
        row.active ==> row.border_color == sim.themes[sim.theme_index].accent,
        !row.active ==> row.border_color == sim.themes[sim.theme_index].chip_bg,
{
}

/// Each material is shown by its name and color, the first one as an eraser in
/// the color of the canvas, and the selected one, and no other, in the accent
/// color.
pub proof fn law_palette(sim: SimView, row: PaletteRow, i: int)
    requires
        shows_material(row, sim, i),
    ensures
        row.id == i,
        row.selected <==> i == sim.selected_material,
        i == 0 ==> row.label@ == "Eraser"@ && row.swatch == sim.themes[sim.theme_index].canvas_bg,
        i != 0 ==> row.label@ == sim.materials[i].name@ && row.swatch == sim.materials[i].color,
        row.phase@ == material::label_of(sim.materials[i].phase),
        row.selected ==> row.border_color == sim.themes[sim.theme_index].accent && row.text_color
            == sim.themes[sim.theme_index].accent,
        !row.selected ==> row.border_color == sim.themes[sim.theme_index].panel_bg
            && row.text_color == sim.themes[sim.theme_index].text,
{
}

/// Each theme is offered by its name and accent, and the current one is framed.
pub proof fn law_theme_dots(sim: SimView, dot: ThemeDot, i: int)
    requires
        shows_theme(dot, sim, i),
    ensures
        dot.name@ == sim.themes[i].name@,
        dot.color == sim.themes[i].accent,
        i == sim.theme_index ==> dot.border_color == sim.themes[sim.theme_index].text,
        i != sim.theme_index ==> dot.border_color == sim.themes[sim.theme_index].bg,
{
}

/// What is drawn of the automaton: each live cell in its place, in the accent of
/// the theme, or in the hue of its diagonal.
pub proof fn law_live_cells_are_drawn(
    out: Seq<(i64, i64, CellColor)>,
    live: Seq<(i64, i64)>,
    theme: theme::Theme,
    i: int,
)
    requires
        colors_live(out, live, theme),
        0 <= i < live.len(),
    ensures
        out.len() == live.len(),
        (out[i].0, out[i].1) == live[i],
        theme.cell_style is Solid ==> out[i].2 == CellColor::Rgb(theme.accent),
        theme.cell_style is Rainbow ==> out[i].2 == CellColor::Hue(
            ((live[i].0 + live[i].1) % 160) as i64,
        ),
{
    assert(out[i] == (
        live[i].0,
        live[i].1,
        theme::color_of(theme, live[i].0 as int, live[i].1 as int),
    ));
}

/// What is drawn of the physics: each cell in its place, in the color of its
/// material, whatever the theme.
pub proof fn law_materials_are_drawn(
    out: Seq<(i64, i64, CellColor)>,
    cells: Seq<(i64, i64, u8)>,
    materials: Seq<material::Material>,
    i: int,
)
    requires
        colors_materials(out, cells, materials),
        0 <= i < cells.len(),
    ensures
        out.len() == cells.len(),
        (out[i].0, out[i].1) == (cells[i].0, cells[i].1),
        out[i].2 == CellColor::Rgb(materials[cells[i].2 as int].color),
{
    assert(out[i] == (
        cells[i].0,
        cells[i].1,
        CellColor::Rgb(materials[cells[i].2 as int].color),
    ));
}

/// The diagonals of the live cells can be numbered wherever the rectangle lies
/// within the middle of the plane.
pub proof fn law_diagonals(live: Set<(int, int)>, rect: (i64, i64, i64, i64))
    ensures
        i64::MIN <= rect.0 + rect.1 && rect.2 + rect.3 <= i64::MAX ==> has_diagonals(live, rect),
        has_diagonals(live, rect) <==> forall|x: int, y: int| #[trigger]
            live.contains((x, y)) && rect.0 <= x <= rect.2 && rect.1 <= y <= rect.3 ==> i64::MIN <= x
                + y <= i64::MAX,
{
}

} // verus!
