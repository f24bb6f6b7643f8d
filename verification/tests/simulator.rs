use std::io::Cursor;

use automata::chance::Chance;
use automata::material::{EMPTY, SAND, STONE, WATER};
use automata::panel::duration_label;
use automata::physics::PhysicsWorld;
use automata::picture::Picture;
use automata::rule::BsRule;
use automata::scene::default_physics_scene;
use automata::simulator::{key_action, CameraMove, KeyAction, SimMode, Simulator};
use automata::theme::{CellColor, CellStyle};
use automata::world::World;
use image::{DynamicImage, GrayAlphaImage, ImageBuffer, ImageFormat, LumaA};
use rand::rngs::StdRng;
use rand::SeedableRng;

const SCREEN: (i64, i64, i64, i64) = (-75, -47, 75, 47);

fn simulator() -> Simulator {
    Simulator::with_rng(StdRng::seed_from_u64(1))
}

fn press(sim: &mut Simulator, key: &str) -> Option<KeyAction> {
    sim.on_key(key, false, false, SCREEN)
}

fn live(sim: &Simulator) -> Vec<(i64, i64)> {
    let mut cells = sim.world.live_cells_in(-1_000, -1_000, 1_000, 1_000);
    cells.sort();
    cells
}

#[test]
fn simulator_starts_running_on_a_random_patch() {
    let sim = simulator();
    assert_eq!(sim.mode, SimMode::CellularAutomaton);
    assert!(sim.running && !sim.stack_enabled && !sim.invert_import);
    assert_eq!(sim.tick_ms, 80);
    assert_eq!(sim.selected_material, SAND);
    assert_eq!((sim.rule_index, sim.theme_index), (0, 0));
    let population = sim.active_population();
    assert!(2_000 < population && population < 3_200, "{population} of 12831 cells are alive");
    assert_eq!(sim.world.live_cells_in(-70, -45, 70, 45).len() as u64, population);
    assert_eq!(sim.physics.get(0, 42), STONE);
    assert_eq!(sim.current_rule().notation(), "B3/S23");
}

#[test]
fn simulators_draw_on_generators_of_their_own() {
    assert_ne!(live(&Simulator::new()), live(&Simulator::new()));
    assert_eq!(live(&simulator()), live(&simulator()));
}

#[test]
fn keys_stand_for_actions() {
    let expected = [
        ("space", KeyAction::TogglePause),
        ("n", KeyAction::Step),
        (",", KeyAction::Slower),
        (".", KeyAction::Faster),
        ("r", KeyAction::Randomize),
        ("c", KeyAction::Clear),
        ("m", KeyAction::SwitchMode),
        ("s", KeyAction::Save),
        ("b", KeyAction::Restore),
        ("[", KeyAction::Previous),
        ("]", KeyAction::Next),
        ("t", KeyAction::NextTheme),
        ("i", KeyAction::ToggleInvert),
        ("left", KeyAction::Camera(CameraMove::PanLeft)),
        ("right", KeyAction::Camera(CameraMove::PanRight)),
        ("up", KeyAction::Camera(CameraMove::PanUp)),
        ("down", KeyAction::Camera(CameraMove::PanDown)),
        ("-", KeyAction::Camera(CameraMove::ZoomOut)),
        ("=", KeyAction::Camera(CameraMove::ZoomIn)),
        ("0", KeyAction::Camera(CameraMove::Reset)),
    ];
    for (key, action) in expected {
        assert_eq!(key_action(key, false, false), Some(action));
        assert_eq!(key_action(key, false, true), Some(action));
        assert_eq!(key_action(key, true, false), None);
    }
    assert_eq!(key_action("z", true, false), Some(KeyAction::Undo));
    assert_eq!(key_action("z", true, true), Some(KeyAction::Redo));
    assert_eq!(key_action("z", false, false), None);
    assert_eq!(key_action("", false, false), None);
}

#[test]
fn keys_change_the_simulator() {
    let mut sim = simulator();
    assert_eq!(press(&mut sim, "space"), Some(KeyAction::TogglePause));
    assert!(!sim.running);
    press(&mut sim, ",");
    assert_eq!(sim.tick_ms, 160);
    press(&mut sim, ".");
    press(&mut sim, ".");
    assert_eq!(sim.tick_ms, 40);
    press(&mut sim, "t");
    assert_eq!(sim.theme().name, "Ocean");
    press(&mut sim, "i");
    assert!(sim.invert_import);
    assert_eq!(press(&mut sim, "q"), None);
    assert_eq!(
        press(&mut sim, "left"),
        Some(KeyAction::Camera(CameraMove::PanLeft))
    );
    press(&mut sim, "[");
    assert_eq!(sim.rule_index, sim.rules.len() - 1);
    press(&mut sim, "]");
    press(&mut sim, "]");
    assert_eq!(sim.rule_index, 1);
    press(&mut sim, "m");
    assert_eq!(sim.mode, SimMode::Physics);
    press(&mut sim, "[");
    press(&mut sim, "[");
    assert_eq!(sim.selected_material, STONE);
    press(&mut sim, "]");
    assert_eq!(sim.selected_material, EMPTY);
}

#[test]
fn stepping_notes_the_change_of_population() {
    let mut sim = simulator();
    sim.world.clear();
    for x in 0..3 {
        sim.world.set(x, 0, true);
    }
    sim.world.set(100, 100, true);
    press(&mut sim, "n");
    assert_eq!(live(&sim), vec![(1, -1), (1, 0), (1, 1)]);
    assert_eq!((sim.pop_delta, sim.active_generation()), (-1, 1));
    press(&mut sim, "m");
    let population = sim.active_population();
    press(&mut sim, "n");
    assert_eq!((sim.pop_delta, sim.active_generation()), (0, 1));
    assert_eq!(sim.active_population(), population);
    assert_eq!(sim.world.generation, 1);
}

#[test]
fn clearing_resets_only_the_active_world() {
    let mut sim = simulator();
    sim.replay_stack();
    press(&mut sim, "n");
    sim.replay_stack();
    assert_eq!(sim.stack_origin, 1);
    press(&mut sim, "c");
    assert_eq!((sim.world.population(), sim.world.generation, sim.stack_origin), (0, 0, 0));
    assert!(sim.physics.population() > 0);
    press(&mut sim, "m");
    press(&mut sim, "c");
    assert_eq!(sim.active_population(), 0);
    assert_eq!(sim.active_chunk_count(), 0);
}

#[test]
fn snapshots_are_kept_for_each_mode() {
    let mut sim = simulator();
    assert_eq!(press(&mut sim, "b"), None);
    let before = live(&sim);
    press(&mut sim, "s");
    press(&mut sim, "n");
    press(&mut sim, "n");
    assert_ne!(live(&sim), before);
    press(&mut sim, "m");
    assert_eq!(press(&mut sim, "b"), None);
    press(&mut sim, "s");
    press(&mut sim, "c");
    assert_eq!(press(&mut sim, "b"), Some(KeyAction::Restore));
    assert!(sim.active_population() > 0);
    press(&mut sim, "m");
    assert_eq!(press(&mut sim, "b"), Some(KeyAction::Restore));
    assert_eq!(live(&sim), before);
    assert_eq!(sim.active_generation(), 0);
}

#[test]
fn randomizing_fills_what_is_visible() {
    let mut sim = simulator();
    press(&mut sim, "c");
    sim.randomize_visible((-1_000, -10, 1_000, 10));
    assert_eq!(sim.world.live_cells_in(-300, -10, 300, 10).len(), live(&sim).len());
    assert!(live(&sim).len() > 1_500);
    press(&mut sim, "m");
    press(&mut sim, "c");
    sim.select_material(EMPTY);
    sim.randomize_visible((0, 0, 50, 50));
    let cells = sim.physics.cells_in(0, 0, 50, 50);
    assert!(300 < cells.len() && cells.len() < 800);
    assert!(cells.iter().all(|cell| cell.2 == SAND));
    sim.select_material(WATER);
    sim.randomize_visible((100, 100, 150, 150));
    assert!(sim.physics.cells_in(100, 100, 150, 150).iter().all(|cell| cell.2 == WATER));
}

#[test]
fn strokes_paint_and_erase() {
    let mut sim = simulator();
    press(&mut sim, "c");
    assert!(!sim.apply_stroke(0, 0));
    sim.begin_paint(0, 0);
    assert!(sim.apply_stroke(1, 0) && sim.apply_stroke(2, 0));
    assert!(!sim.apply_stroke(0, 0));
    sim.end_stroke();
    assert!(!sim.apply_stroke(3, 0));
    assert_eq!(live(&sim), vec![(0, 0), (1, 0), (2, 0)]);
    // Starting on a live cell erases, and so does the other button.
    sim.begin_paint(1, 0);
    assert!(sim.apply_stroke(2, 0));
    sim.end_stroke();
    sim.begin_erase(5, 5);
    assert!(sim.apply_stroke(0, 0));
    sim.end_stroke();
    assert!(live(&sim).is_empty());

    press(&mut sim, "m");
    press(&mut sim, "c");
    sim.select_material(WATER);
    sim.begin_paint(0, 0);
    assert!(sim.apply_stroke(1, 0) && !sim.apply_stroke(1, 0));
    sim.end_stroke();
    assert_eq!((sim.physics.get(0, 0), sim.physics.get(1, 0)), (WATER, WATER));
    sim.begin_erase(0, 0);
    assert!(sim.apply_stroke(1, 0));
    sim.end_stroke();
    assert_eq!(sim.active_population(), 0);
}

fn names(sim: &Simulator) -> Vec<&str> {
    sim.editor.stack.entries.iter().map(|entry| entry.name.as_str()).collect()
}

fn with_stack(list: &[&str]) -> Simulator {
    let mut sim = simulator();
    let rule = BsRule::parse("B2/S").unwrap();
    for (index, name) in list.iter().enumerate() {
        sim.insert_rule(index, name, rule);
    }
    sim
}

#[test]
fn entries_are_moved_to_where_they_are_dropped() {
    for from in 0..4 {
        for drop_index in 0..=4 {
            let mut sim = with_stack(&["a", "b", "c", "d"]);
            let moved = sim.move_entry(from, drop_index);
            assert_eq!(moved, drop_index != from && drop_index != from + 1);
            let mut expected = vec!["a", "b", "c", "d"];
            let name = expected[from];
            expected.insert(drop_index, name);
            expected.remove(if from < drop_index { from } else { from + 1 });
            assert_eq!(names(&sim), expected);
            if moved {
                assert!(sim.undo());
                assert_eq!(names(&sim), vec!["a", "b", "c", "d"]);
            }
        }
    }
}

#[test]
fn stack_edits_are_made_and_taken_back() {
    let mut sim = with_stack(&["a", "b"]);
    assert!(sim.stack_enabled);
    let generations = |sim: &Simulator| sim.editor.stack.entries[1].generations;
    assert_eq!(generations(&sim), Some(50));
    assert!(sim.lengthen_entry(1));
    assert_eq!(generations(&sim), Some(100));
    assert!(sim.lengthen_entry(1) && sim.lengthen_entry(1) && sim.lengthen_entry(1));
    assert_eq!(generations(&sim), None);
    assert!(!sim.lengthen_entry(1));
    assert!(sim.shorten_entry(1));
    assert_eq!(generations(&sim), Some(500));
    for _ in 0..8 {
        assert!(sim.shorten_entry(1));
    }
    assert!(!sim.shorten_entry(1));
    assert_eq!(generations(&sim), Some(1));
    sim.remove_entry(0);
    assert_eq!(names(&sim), vec!["b"]);
    while sim.on_key("z", true, false, SCREEN).is_some() {}
    assert!(names(&sim).is_empty());
    while sim.on_key("z", true, true, SCREEN).is_some() {}
    assert_eq!(names(&sim), vec!["b"]);
    assert!(!sim.redo());
}

#[test]
fn stack_decides_the_rule_while_it_is_on() {
    let mut sim = simulator();
    assert!(sim.active_stack_entry().is_none());
    sim.insert_rule(0, "Seeds", BsRule::parse("B2/S").unwrap());
    sim.insert_rule(1, "Maze", BsRule::parse("B3/S12345").unwrap());
    assert_eq!(sim.current_rule().notation(), "B2/S");
    sim.world.generation = 60;
    assert_eq!(sim.active_stack_entry().unwrap().0, 1);
    assert_eq!(sim.mode_label(), "stack 2/2: Maze (B3/S12345)");
    sim.replay_stack();
    assert_eq!(sim.active_stack_entry().unwrap().0, 0);
    assert_eq!(sim.mode_label(), "stack 1/2: Seeds (B2/S)");
    // A generation before the origin counts as the start.
    sim.world.generation = 3;
    assert_eq!(sim.active_stack_entry().unwrap().0, 0);
    sim.toggle_stack();
    assert_eq!(sim.current_rule().notation(), "B3/S23");
    assert_eq!(sim.mode_label(), "Life (B3/S23)");
    sim.select_rule(3);
    assert_eq!(sim.mode_label(), "Life w/o Death (B3/S012345678)");
}

#[test]
fn labels_tell_the_state() {
    let mut sim = simulator();
    press(&mut sim, "c");
    sim.begin_paint(0, 0);
    sim.begin_paint(100, 0);
    assert_eq!(sim.generation_label(), "gen 0");
    assert_eq!(sim.population_label(), "pop 2 (+0)");
    assert_eq!(sim.chunk_label(), "chunks 2");
    assert_eq!((sim.run_label(), sim.mode_name()), ("▶ running", "▦ automata"));
    assert_eq!(sim.import_label(), "img: dark→live");
    assert_eq!((sim.snapshot_label().as_str(), sim.snapshot_generation()), ("⟲ restore", None));
    press(&mut sim, "n");
    press(&mut sim, "s");
    assert_eq!(sim.population_label(), "pop 0 (-2)");
    assert_eq!((sim.snapshot_label().as_str(), sim.snapshot_generation()), ("⟲ gen 1", Some(1)));
    for key in ["space", "m", "i"] {
        press(&mut sim, key);
    }
    assert_eq!((sim.run_label(), sim.mode_name()), ("⏸ paused", "⌛ physics"));
    assert_eq!(sim.import_label(), "img: light→live");
    assert_eq!(sim.mode_label(), "painting Sand");
    assert_eq!(sim.snapshot_label(), "⟲ restore");
    assert!(sim.help_text().contains("r sprinkle"));
    assert!(sim.stack_hint().starts_with("drag rules here"));
    sim.insert_rule(0, "Life", BsRule::parse("B3/S23").unwrap());
    assert_eq!(sim.stack_hint(), "drop here to append");
    press(&mut sim, "m");
    assert!(sim.help_text().contains("r randomize"));
    assert_eq!(duration_label(Some(250)), "250 gen");
    assert_eq!(duration_label(None), "∞");
}

#[test]
fn panels_show_what_is_selected() {
    let mut sim = with_stack(&["a", "b"]);
    let theme = sim.theme();
    assert_eq!(sim.stack_switch(), ("on", theme.accent));
    assert_eq!((sim.button_color(true), sim.button_color(false)), (theme.text, theme.text_dim));
    assert!(sim.rule_chips().iter().all(|chip| !chip.selected && chip.text_color == theme.text));
    let rows = sim.stack_rows();
    assert_eq!((rows[0].name.as_str(), rows[0].duration.as_str()), ("a", "50 gen"));
    assert!(rows[0].active && !rows[1].active);
    assert_eq!((rows[0].border_color, rows[1].border_color), (theme.accent, theme.chip_bg));
    sim.toggle_stack();
    assert_eq!(sim.stack_switch(), ("off", theme.text_dim));
    let chips = sim.rule_chips();
    assert_eq!((chips[0].name, chips[0].text_color, chips[0].selected), ("Life", theme.accent, true));
    assert!(!chips[1].selected);
    assert!(sim.stack_rows().iter().all(|row| !row.active));

    let palette = sim.palette_rows();
    assert_eq!(palette.len(), 4);
    assert_eq!((palette[0].label.as_str(), palette[0].swatch), ("Eraser", theme.canvas_bg));
    assert_eq!(palette[0].phase, "empty");
    assert_eq!((palette[1].label.as_str(), palette[1].swatch), ("Sand", 0xd8b45a));
    assert!(palette[1].selected && !palette[2].selected);
    assert_eq!((palette[1].border_color, palette[2].border_color), (theme.accent, theme.panel_bg));
    assert_eq!((palette[1].text_color, palette[2].text_color), (theme.accent, theme.text));
    assert_eq!(palette[3].id, STONE);

    sim.select_theme(1);
    let dots = sim.theme_dots();
    assert_eq!(dots.len(), 7);
    assert_eq!((dots[1].name, dots[1].color), ("Ocean", 0x64b5f6));
    assert_eq!((dots[1].border_color, dots[0].border_color), (sim.theme().text, sim.theme().bg));
}

#[test]
fn visible_cells_have_colors() {
    let mut sim = simulator();
    press(&mut sim, "c");
    sim.begin_paint(3, 4);
    sim.begin_paint(500, 0);
    assert_eq!(sim.visible_cells(SCREEN), vec![(3, 4, CellColor::Rgb(0x5be37d))]);
    sim.select_theme(3);
    assert_eq!(sim.theme().cell_style, CellStyle::Rainbow);
    assert_eq!(sim.visible_cells(SCREEN), vec![(3, 4, CellColor::Hue(7))]);
    press(&mut sim, "m");
    press(&mut sim, "c");
    sim.begin_paint(1, 1);
    assert_eq!(sim.visible_cells(SCREEN), vec![(1, 1, CellColor::Rgb(0xd8b45a))]);
}

fn checkered() -> Picture {
    // Dark and bright, opaque and transparent.
    Picture {
        width: 2,
        height: 2,
        pixels: vec![0, 255, 255, 255, 127, 128, 0, 127],
    }
}

#[test]
fn pictures_are_stamped_around_the_center() {
    let mut sim = simulator();
    press(&mut sim, "c");
    sim.stamp(&checkered(), 10, 20);
    assert_eq!(live(&sim), vec![(9, 19), (9, 20)]);
    press(&mut sim, "i");
    sim.stamp(&checkered(), 10, 20);
    assert_eq!(live(&sim), vec![(9, 19), (9, 20), (10, 19)]);

    press(&mut sim, "m");
    press(&mut sim, "c");
    sim.stamp(&checkered(), 0, 0);
    assert_eq!(sim.physics.cells_in(-9, -9, 9, 9), vec![(0, -1, SAND)]);
    sim.select_material(EMPTY);
    sim.stamp(&checkered(), 0, 0);
    assert_eq!(sim.physics.cells_in(-9, -9, 9, 9), vec![(0, -1, STONE)]);
}

#[test]
fn dropped_pictures_are_stamped() {
    let image: GrayAlphaImage = ImageBuffer::from_fn(256, 256, |x, y| {
        LumaA([if x == 5 && y == 7 { 0 } else { 200 }, 255])
    });
    let mut bytes = Cursor::new(Vec::new());
    DynamicImage::ImageLumaA8(image).write_to(&mut bytes, ImageFormat::Png).unwrap();
    let bytes = bytes.into_inner();

    let mut sim = simulator();
    press(&mut sim, "c");
    assert!(sim.drop_image(&bytes, "/home/me/picture.png", 100, -50).is_ok());
    assert_eq!(live(&sim), vec![(100 - 128 + 5, -50 - 128 + 7)]);
    assert!(sim.drop_image(&bytes, "/home/me/picture.txt", 0, 0).is_err());
    assert_eq!(live(&sim).len(), 1);
}

#[test]
fn careful_steps_stop_at_the_limits() {
    let mut sim = simulator();
    assert!(sim.try_step());
    assert_eq!(sim.active_generation(), 1);
    sim.world.generation = u64::MAX;
    let before = live(&sim);
    assert!(!sim.try_step());
    assert_eq!(live(&sim), before);
    // Cells at the end of the plane have chunks around them all the same.
    sim.world.clear();
    sim.world.set(i64::MAX, i64::MIN, true);
    assert!(sim.world.is_steppable() && sim.try_step());

    press(&mut sim, "m");
    assert!(sim.try_step());
    // Stone at the end of the grid needs no room to move.
    sim.physics.set(i64::MIN, i64::MAX, STONE);
    assert!(sim.try_step());
    sim.physics.set(0, i64::MAX, SAND);
    assert!(!sim.try_step());
    assert_eq!(sim.physics.get(0, i64::MAX), SAND);
}

#[test]
fn stacks_of_any_countable_length_are_stepped() {
    let mut sim = simulator();
    let rule = BsRule::parse("B/S012345678").unwrap();
    sim.insert_rule(0, "Still", rule);
    sim.replay_stack();
    let before = live(&sim);
    assert!(sim.editor.stack().is_countable() && sim.try_step());
    assert_eq!((live(&sim), sim.pop_delta), (before, 0));
}

#[test]
fn diagonals_are_numbered_for_live_cells_only() {
    let mut sim = simulator();
    sim.world.clear();
    sim.world.set(i64::MAX - 5, 3, true);
    let rainbow = sim.themes.iter().position(|theme| theme.cell_style == CellStyle::Rainbow);
    sim.select_theme(rainbow.unwrap());
    // The last corner of the rectangle lies on no diagonal with a number.
    let cells = sim.visible_cells((i64::MAX - 9, 0, i64::MAX, 9));
    let hue = (i64::MAX - 2).rem_euclid(160);
    assert_eq!(cells, vec![(i64::MAX - 5, 3, CellColor::Hue(hue))]);
}

#[test]
fn pictures_are_stamped_up_to_the_ends_of_the_plane() {
    let mut sim = simulator();
    sim.world.clear();
    let picture = Picture { width: 2, height: 3, pixels: vec![0, 255].repeat(6) };
    sim.stamp(&picture, i64::MAX, i64::MIN + 1);
    assert_eq!(sim.world.population(), 6);
    assert!(sim.world.get(i64::MAX - 1, i64::MIN) && sim.world.get(i64::MAX, i64::MIN + 2));
}

#[test]
fn given_rolls_decide_the_visible_cells() {
    let mut sim = simulator();
    sim.world.clear();
    sim.world.set(0, 0, true);
    sim.world.set(9, 9, true);
    sim.randomize_visible_with((0, 0, 2, 1), &[false, true, false, false, false, true]);
    assert_eq!(live(&sim), vec![(1, 0), (2, 1), (9, 9)]);

    press(&mut sim, "m");
    sim.physics.clear();
    sim.selected_material = WATER;
    sim.randomize_visible_with((0, 0, 1, 1), &[true, false, false, true]);
    assert_eq!(sim.physics.cells_in(-9, -9, 9, 9), vec![(0, 0, WATER), (1, 1, WATER)]);
    // The eraser sprinkles sand.
    sim.selected_material = EMPTY;
    sim.randomize_visible_with((0, 0, 1, 0), &[true, false]);
    assert_eq!(sim.physics.cells_in(-9, -9, 9, 9), vec![(0, 0, SAND), (1, 1, WATER)]);
}

#[test]
fn simulators_start_on_the_given_worlds() {
    let mut world = World::new();
    world.set(2, 3, true);
    world.generation = 4;
    let mut physics = PhysicsWorld::new();
    physics.set(5, 6, WATER);
    physics.generation = 7;
    let mut drawn = StdRng::seed_from_u64(9);
    let mut sim = Simulator::with_worlds(world, physics, drawn.clone());
    assert_eq!((live(&sim), sim.active_generation()), (vec![(2, 3)], 4));
    assert_eq!(sim.physics.cells_in(-99, -99, 99, 99), vec![(5, 6, WATER)]);
    assert_eq!(sim.physics.generation, 7);
    assert!(sim.running && !sim.stack_enabled && sim.tick_ms == 80);
    // What is drawn later comes from the given generator.
    sim.randomize_visible((0, 0, 40, 40));
    let mut expected = World::new();
    expected.randomize_region(0, 0, 40, 40, Chance { numerator: 1, denominator: 5 }, &mut drawn);
    let mut cells = expected.live_cells_in(0, 0, 40, 40);
    cells.sort();
    assert_eq!(live(&sim), cells);
}

#[test]
fn simulators_draw_their_worlds_from_the_given_generator() {
    let mut rng = StdRng::seed_from_u64(1);
    let mut world = World::new();
    let density = Chance { numerator: 1, denominator: 5 };
    world.randomize_region(-70, -45, 70, 45, density, &mut rng);
    let physics = default_physics_scene(&mut rng);
    let sim = simulator();
    assert_eq!(sim.world.live_cells_in(-99, -99, 99, 99), world.live_cells_in(-99, -99, 99, 99));
    assert_eq!(sim.physics.cells_in(-99, -99, 99, 99), physics.cells_in(-99, -99, 99, 99));
}
