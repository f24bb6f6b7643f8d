use automata::pacing::{
    cap_rect, faster, next_preset, prev_preset, slower, DEFAULT_TICK_MS, DURATION_PRESETS,
    MAX_TICK_MS, MIN_TICK_MS,
};

#[test]
fn presets_are_stepped_through() {
    let mut current = Some(1);
    let mut seen = vec![1];
    while let Some(next) = next_preset(current) {
        seen.push(next);
        current = Some(next);
    }
    assert_eq!(seen, DURATION_PRESETS.to_vec());
    assert_eq!(next_preset(None), None);
    assert_eq!(prev_preset(None), Some(500));
    for pair in DURATION_PRESETS.windows(2) {
        assert_eq!(next_preset(Some(pair[0])), Some(pair[1]));
        assert_eq!(prev_preset(Some(pair[1])), Some(pair[0]));
    }
    assert_eq!(prev_preset(Some(1)), Some(1));
    assert_eq!(prev_preset(Some(0)), Some(0));
}

#[test]
fn durations_between_presets_go_to_the_nearest_one() {
    assert_eq!(next_preset(Some(0)), Some(1));
    assert_eq!(next_preset(Some(26)), Some(50));
    assert_eq!(prev_preset(Some(26)), Some(25));
    assert_eq!(next_preset(Some(600)), None);
    assert_eq!(prev_preset(Some(u32::MAX)), Some(500));
}

#[test]
fn speed_stays_within_its_limits() {
    let mut tick = DEFAULT_TICK_MS;
    let mut seen = vec![tick];
    for _ in 0..6 {
        tick = slower(tick);
        seen.push(tick);
    }
    assert_eq!(seen, vec![80, 160, 320, 640, 1280, 1280, 1280]);
    for _ in 0..10 {
        tick = faster(tick);
    }
    assert_eq!(tick, MIN_TICK_MS);
    assert_eq!(slower(MAX_TICK_MS), MAX_TICK_MS);
    assert_eq!(faster(25), 12);
    assert_eq!(slower(700), 1280);
}

#[test]
fn wide_rectangles_are_cut_down() {
    assert_eq!(cap_rect((-10, -20, 590, 30)), (-10, -20, 590, 30));
    assert_eq!(cap_rect((-1000, 0, 1001, 601)), (-300, 0, 300, 600));
    assert_eq!(cap_rect((0, -2001, 601, 0)), (0, -1300, 600, -700));
    assert_eq!(cap_rect((-1002, -1, -1, 1)), (-801, -1, -201, 1));
    let capped = cap_rect((-5_000, -5_000, 7_000, 9_000));
    assert_eq!(cap_rect(capped), capped);
}
