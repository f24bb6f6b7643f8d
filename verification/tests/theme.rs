use automata::theme::{themes, CellColor, CellStyle, HUE_PERIOD};

#[test]
fn theme_names_are_unique() {
    let names: Vec<_> = themes().iter().map(|t| t.name).collect();
    let mut deduped = names.clone();
    deduped.sort();
    deduped.dedup();
    assert_eq!(deduped.len(), names.len());
}

#[test]
fn rainbow_hue_stays_in_range() {
    let rainbow = themes()
        .into_iter()
        .find(|t| t.cell_style == CellStyle::Rainbow)
        .unwrap();
    for (x, y) in [(0, 0), (119, 79), (-500, 40), (i64::MAX / 4, -3)] {
        let hue = match rainbow.cell_color(x, y) {
            CellColor::Hue(hue) => hue as f32 / HUE_PERIOD as f32,
            CellColor::Rgb(_) => unreachable!(),
        };
        assert!((0.0..=1.0).contains(&hue), "hue {} out of range", hue);
    }
}

#[test]
fn hue_sweeps_along_the_diagonal() {
    let rainbow = themes()[3];
    assert_eq!(rainbow.name, "Rainbow");
    assert_eq!(rainbow.cell_color(0, 0), CellColor::Hue(0));
    assert_eq!(rainbow.cell_color(100, 59), CellColor::Hue(159));
    assert_eq!(rainbow.cell_color(100, 60), CellColor::Hue(0));
    assert_eq!(rainbow.cell_color(-1, 0), CellColor::Hue(159));
    assert_eq!(rainbow.cell_color(-500, 40), CellColor::Hue(20));
    assert_eq!(rainbow.cell_color(7, -7), rainbow.cell_color(-30, 30));
}

#[test]
fn solid_themes_use_their_accent() {
    let list = themes();
    let accents: Vec<(&str, u32)> = list.iter().map(|t| (t.name, t.accent)).collect();
    assert_eq!(
        accents,
        vec![
            ("Terminal", 0x5be37d),
            ("Ocean", 0x64b5f6),
            ("Grayscale", 0xe6e6e6),
            ("Rainbow", 0xff7ad9),
            ("Synthwave", 0xff4fd8),
            ("Amber", 0xffb74d),
            ("Paper", 0x3a6b35),
        ]
    );
    for theme in list {
        if theme.cell_style == CellStyle::Solid {
            assert_eq!(theme.cell_color(i64::MAX, i64::MAX), CellColor::Rgb(theme.accent));
        }
    }
}
