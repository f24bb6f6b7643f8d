use automata::rule::BsRule;
use automata::stack::{EditCommand, RuleStack, StackEditor, StackEntry};
use serde_json::Value;

fn entry(name: &str, notation: &str, generations: u32) -> StackEntry {
    StackEntry {
        name: name.to_string(),
        rule: BsRule::parse(notation).unwrap(),
        generations: Some(generations),
    }
}

fn editor_with(entries: &[(&str, &str, u32)]) -> StackEditor {
    let mut editor = StackEditor::default();
    for (i, &(name, notation, generations)) in entries.iter().enumerate() {
        editor.apply(EditCommand::Add {
            index: i,
            entry: entry(name, notation, generations),
        });
    }
    editor
}

#[test]
fn entry_at_walks_segments_and_loops() {
    let editor = editor_with(&[("Life", "B3/S23", 10), ("Seeds", "B2/S", 5)]);
    let stack = &editor.stack;
    assert_eq!(stack.entry_at(0).unwrap().0, 0);
    assert_eq!(stack.entry_at(9).unwrap().0, 0);
    assert_eq!(stack.entry_at(10).unwrap().0, 1);
    assert_eq!(stack.entry_at(14).unwrap().0, 1);
    assert_eq!(stack.entry_at(15).unwrap().0, 0); // wrapped
    assert_eq!(stack.entry_at(40).unwrap().0, 1);
}

#[test]
fn empty_stack_has_no_active_entry() {
    assert_eq!(RuleStack::default().entry_at(0), None);
}

#[test]
fn infinite_entry_stops_loopback() {
    let mut editor = editor_with(&[("Life", "B3/S23", 10)]);
    editor.apply(EditCommand::Add {
        index: 1,
        entry: StackEntry {
            name: "Seeds".to_string(),
            rule: BsRule::parse("B2/S").unwrap(),
            generations: None,
        },
    });
    let stack = &editor.stack;
    assert_eq!(stack.entry_at(9).unwrap().0, 0);
    assert_eq!(stack.entry_at(10).unwrap().0, 1);
    assert_eq!(stack.entry_at(1_000_000).unwrap().0, 1, "never loops back");
}

#[test]
fn lone_infinite_entry_is_always_active() {
    let mut editor = StackEditor::default();
    editor.apply(EditCommand::Add {
        index: 0,
        entry: StackEntry {
            name: "Life".to_string(),
            rule: BsRule::parse("B3/S23").unwrap(),
            generations: None,
        },
    });
    assert_eq!(editor.stack.entry_at(0).unwrap().0, 0);
    assert_eq!(editor.stack.entry_at(u64::MAX / 2).unwrap().0, 0);
}

#[test]
fn set_generations_to_infinite_round_trips_through_undo() {
    let mut editor = editor_with(&[("Life", "B3/S23", 10)]);
    editor.apply(EditCommand::SetGenerations {
        index: 0,
        old: Some(10),
        new: None,
    });
    assert_eq!(editor.stack.entries[0].generations, None);
    editor.undo();
    assert_eq!(editor.stack.entries[0].generations, Some(10));
    editor.redo();
    assert_eq!(editor.stack.entries[0].generations, None);
}

#[test]
fn undo_redo_round_trips_all_commands() {
    let mut editor = editor_with(&[("Life", "B3/S23", 10), ("Seeds", "B2/S", 5)]);
    editor.apply(EditCommand::SetGenerations {
        index: 1,
        old: Some(5),
        new: Some(50),
    });
    editor.apply(EditCommand::Move { from: 1, to: 0 });
    let removed = editor.stack.entries[1].clone();
    editor.apply(EditCommand::Remove {
        index: 1,
        entry: removed,
    });
    let final_state = editor.stack.clone();
    assert_eq!(final_state.entries.len(), 1);
    assert_eq!(final_state.entries[0].name, "Seeds");
    assert_eq!(final_state.entries[0].generations, Some(50));

    while editor.undo() {}
    assert!(editor.stack.is_empty());

    while editor.redo() {}
    assert_eq!(editor.stack, final_state);
}

#[test]
fn new_edit_clears_redo_history() {
    let mut editor = editor_with(&[("Life", "B3/S23", 10)]);
    editor.undo();
    assert!(editor.can_redo());
    editor.apply(EditCommand::Add {
        index: 0,
        entry: entry("Seeds", "B2/S", 5),
    });
    assert!(!editor.can_redo());
}

fn to_json(stack: &RuleStack) -> String {
    let entries: Vec<Value> = stack
        .entries
        .iter()
        .map(|entry| {
            let mut fields = serde_json::Map::new();
            fields.insert("name".to_string(), Value::from(entry.name.clone()));
            fields.insert("rule".to_string(), Value::from(String::from(entry.rule)));
            fields.insert("generations".to_string(), Value::from(entry.generations));
            Value::Object(fields)
        })
        .collect();
    let mut fields = serde_json::Map::new();
    fields.insert("entries".to_string(), Value::Array(entries));
    serde_json::to_string(&Value::Object(fields)).unwrap()
}

fn from_json(json: &str) -> RuleStack {
    let value: Value = serde_json::from_str(json).unwrap();
    let entries = value["entries"].as_array().unwrap();
    RuleStack {
        entries: entries
            .iter()
            .map(|entry| StackEntry {
                name: entry["name"].as_str().unwrap().to_string(),
                rule: BsRule::try_from(entry["rule"].as_str().unwrap().to_string()).unwrap(),
                generations: entry["generations"].as_u64().map(|n| n as u32),
            })
            .collect(),
    }
}

#[test]
fn stack_serializes_to_json_and_back() {
    let stack = editor_with(&[("Life", "B3/S23", 100), ("Day & Night", "B3678/S34678", 25)])
        .stack
        .clone();
    let json = to_json(&stack);
    assert!(
        json.contains("B3/S23"),
        "rules serialize as notation: {json}"
    );
    let back: RuleStack = from_json(&json);
    assert_eq!(back, stack);
}

#[test]
fn entries_that_run_for_no_time_are_passed_over() {
    let editor = editor_with(&[("Life", "B3/S23", 0), ("Seeds", "B2/S", 2), ("Maze", "B3/S12345", 0)]);
    for generation in 0..6 {
        assert_eq!(editor.stack.entry_at(generation).unwrap().0, 1);
    }
    let idle = editor_with(&[("Life", "B3/S23", 0)]);
    assert_eq!(idle.stack.entry_at(0), None);
}

#[test]
fn stack_repeats_after_a_full_pass() {
    let editor = editor_with(&[("Life", "B3/S23", 3), ("Seeds", "B2/S", 4), ("Maze", "B3/S12345", 2)]);
    for generation in 0..30 {
        assert_eq!(
            editor.stack.entry_at(generation).unwrap().0,
            editor.stack.entry_at(generation + 9).unwrap().0
        );
    }
}

#[test]
fn editor_tells_what_can_be_undone() {
    let mut editor = StackEditor::default();
    assert!(!editor.can_undo() && !editor.can_redo());
    assert!(!editor.undo() && !editor.redo());
    editor.apply(EditCommand::Add { index: 0, entry: entry("Life", "B3/S23", 10) });
    assert!(editor.can_undo());
    assert!(editor.undo());
    assert!(editor.stack().is_empty() && !editor.can_undo() && editor.can_redo());
    assert!(editor.redo());
    assert_eq!(editor.stack().entries.len(), 1);
}

#[test]
fn commands_are_taken_back_by_their_inverses() {
    let start = editor_with(&[("a", "B3/S23", 1), ("b", "B2/S", 2), ("c", "B1/S1", 3)])
        .stack
        .clone();
    let commands = [
        EditCommand::Add { index: 2, entry: entry("d", "B4/S4", 4) },
        EditCommand::Remove { index: 1, entry: entry("b", "B2/S", 2) },
        EditCommand::SetGenerations { index: 0, old: Some(1), new: Some(9) },
        EditCommand::Move { from: 0, to: 2 },
        EditCommand::Move { from: 2, to: 0 },
    ];
    for command in commands {
        let mut stack = start.clone();
        command.apply_to(&mut stack);
        assert_ne!(stack, start);
        command.inverted().apply_to(&mut stack);
        assert_eq!(stack, start);
    }
}

#[test]
fn ordinary_stacks_are_countable() {
    let editor = editor_with(&[("Life", "B3/S23", u32::MAX), ("Seeds", "B2/S", u32::MAX)]);
    assert!(editor.stack.is_countable() && RuleStack::default().is_countable());
}
