//! Color palettes of the user interface.
use vstd::prelude::*;

verus! {

/// How live cells are colored.
#[derive(Clone, Copy, PartialEq, Eq, Debug, Structural)]
pub enum CellStyle {
    /// Every live cell uses the theme accent color.
    Solid,
    /// Hue sweeps diagonally across the grid, so patterns shift color as
    /// they travel.
    Rainbow,
}

/// A complete UI palette. Colors are 0xRRGGBB.
#[derive(Clone, Copy)]
pub struct Theme {
    pub name: &'static str,
    pub bg: u32,
    pub canvas_bg: u32,
    pub panel_bg: u32,
    pub chip_bg: u32,
    pub hover_bg: u32,
    pub text: u32,
    pub text_dim: u32,
    /// Live cells (when solid), selection highlights, active accents.
    pub accent: u32,
    pub cell_style: CellStyle,
}

/// After how many diagonals the hue sweep repeats.
pub const HUE_PERIOD: i64 = 160;

/// How saturated the colors of the hue sweep are.
pub const HUE_SATURATION_PERCENT: u32 = 85;

/// How light the colors of the hue sweep are.
pub const HUE_LIGHTNESS_PERCENT: u32 = 62;

/// The color of a live cell.
#[derive(Clone, Copy, PartialEq, Eq, Debug, Structural)]
pub enum CellColor {
    /// 0xRRGGBB.
    Rgb(u32),
    /// The hue, counted from 0 up to `HUE_PERIOD` for a full turn, at
    /// `HUE_SATURATION_PERCENT` and `HUE_LIGHTNESS_PERCENT`.
    Hue(i64),
}

/// What color a theme gives to a live cell.
pub open spec fn color_of(theme: Theme, x: int, y: int) -> CellColor {
    match theme.cell_style {
        CellStyle::Solid => CellColor::Rgb(theme.accent),
        CellStyle::Rainbow => CellColor::Hue(((x + y) % 160) as i64),
    }
}

impl Theme {
    pub fn cell_color(&self, x: i64, y: i64) -> (r: CellColor)
        requires
            self.cell_style is Rainbow ==> i64::MIN <= x + y <= i64::MAX,
        ensures
            r == color_of(*self, x as int, y as int),
    {
        match self.cell_style {
            CellStyle::Solid => CellColor::Rgb(self.accent),
            CellStyle::Rainbow => {
                // Diagonal hue sweep, stable across the infinite plane
                // (the Euclidean remainder handles negatives).
                CellColor::Hue((x + y).checked_rem_euclid(HUE_PERIOD).unwrap())
            },
        }
    }
}

/// The hue sweep stays within a full turn, is the same along a diagonal, and
/// repeats every `HUE_PERIOD` cells.
pub proof fn law_hue_sweep(theme: Theme, x: int, y: int, n: int)
    requires
        theme.cell_style is Rainbow,
    ensures
        color_of(theme, x, y) matches CellColor::Hue(hue) && 0 <= hue < HUE_PERIOD,
        color_of(theme, x + n, y - n) == color_of(theme, x, y),
        color_of(theme, x + n * 160, y) == color_of(theme, x, y),
{
    vstd::arithmetic::div_mod::lemma_mod_multiples_vanish(n, x + y, 160);
    assert(x + n * 160 + y == 160 * n + (x + y));
}

/// The built-in themes.
pub open spec fn theme_list() -> Seq<Theme> {
    seq![
        Theme {
            name: "Terminal",
            bg: 0x14141a,
            canvas_bg: 0x0b0b10,
            panel_bg: 0x101016,
            chip_bg: 0x1d1d26,
            hover_bg: 0x232331,
            text: 0x9aa0b0,
            text_dim: 0x565c68,
            accent: 0x5be37d,
            cell_style: CellStyle::Solid,
        },
        Theme {
            name: "Ocean",
            bg: 0x0d1522,
            canvas_bg: 0x081020,
            panel_bg: 0x0b1220,
            chip_bg: 0x14203a,
            hover_bg: 0x1a2a4a,
            text: 0x92a8c8,
            text_dim: 0x4a5d7a,
            accent: 0x64b5f6,
            cell_style: CellStyle::Solid,
        },
        Theme {
            name: "Grayscale",
            bg: 0x171717,
            canvas_bg: 0x0d0d0d,
            panel_bg: 0x121212,
            chip_bg: 0x232323,
            hover_bg: 0x2e2e2e,
            text: 0x9e9e9e,
            text_dim: 0x5c5c5c,
            accent: 0xe6e6e6,
            cell_style: CellStyle::Solid,
        },
        Theme {
            name: "Rainbow",
            bg: 0x141218,
            canvas_bg: 0x0a090e,
            panel_bg: 0x100e14,
            chip_bg: 0x1e1a26,
            hover_bg: 0x282132,
            text: 0xa89fb8,
            text_dim: 0x5f5870,
            accent: 0xff7ad9,
            cell_style: CellStyle::Rainbow,
        },
        Theme {
            name: "Synthwave",
            bg: 0x1a1030,
            canvas_bg: 0x120a24,
            panel_bg: 0x160d2a,
            chip_bg: 0x271846,
            hover_bg: 0x32205a,
            text: 0xb39ddb,
            text_dim: 0x6a5490,
            accent: 0xff4fd8,
            cell_style: CellStyle::Solid,
        },
        Theme {
            name: "Amber",
            bg: 0x1a1410,
            canvas_bg: 0x100c08,
            panel_bg: 0x15100c,
            chip_bg: 0x261e14,
            hover_bg: 0x32281a,
            text: 0xc0a888,
            text_dim: 0x6e5f4a,
            accent: 0xffb74d,
            cell_style: CellStyle::Solid,
        },
        Theme {
            name: "Paper",
            bg: 0xece8de,
            canvas_bg: 0xf9f7f0,
            panel_bg: 0xe2ddd0,
            chip_bg: 0xd6d0c0,
            hover_bg: 0xc9c2b0,
            text: 0x5a5648,
            text_dim: 0x9a947f,
            accent: 0x3a6b35,
            cell_style: CellStyle::Solid,
        },
    ]
}

pub fn themes() -> (r: Vec<Theme>)
    ensures
        r@ == theme_list(),
{
    let mut list: Vec<Theme> = Vec::new();
    list.push(
        Theme {
            name: "Terminal",
            bg: 0x14141a,
            canvas_bg: 0x0b0b10,
            panel_bg: 0x101016,
            chip_bg: 0x1d1d26,
            hover_bg: 0x232331,
            text: 0x9aa0b0,
            text_dim: 0x565c68,
            accent: 0x5be37d,
            cell_style: CellStyle::Solid,
        },
    );
    list.push(
        Theme {
            name: "Ocean",
            bg: 0x0d1522,
            canvas_bg: 0x081020,
            panel_bg: 0x0b1220,
            chip_bg: 0x14203a,
            hover_bg: 0x1a2a4a,
            text: 0x92a8c8,
            text_dim: 0x4a5d7a,
            accent: 0x64b5f6,
            cell_style: CellStyle::Solid,
        },
    );
    list.push(
        Theme {
            name: "Grayscale",
            bg: 0x171717,
            canvas_bg: 0x0d0d0d,
            panel_bg: 0x121212,
            chip_bg: 0x232323,
            hover_bg: 0x2e2e2e,
            text: 0x9e9e9e,
            text_dim: 0x5c5c5c,
            accent: 0xe6e6e6,
            cell_style: CellStyle::Solid,
        },
    );
    list.push(
        Theme {
            name: "Rainbow",
            bg: 0x141218,
            canvas_bg: 0x0a090e,
            panel_bg: 0x100e14,
            chip_bg: 0x1e1a26,
            hover_bg: 0x282132,
            text: 0xa89fb8,
            text_dim: 0x5f5870,
            accent: 0xff7ad9,
            cell_style: CellStyle::Rainbow,
        },
    );
    list.push(
        Theme {
            name: "Synthwave",
            bg: 0x1a1030,
            canvas_bg: 0x120a24,
            panel_bg: 0x160d2a,
            chip_bg: 0x271846,
            hover_bg: 0x32205a,
            text: 0xb39ddb,
            text_dim: 0x6a5490,
            accent: 0xff4fd8,
            cell_style: CellStyle::Solid,
        },
    );
    list.push(
        Theme {
            name: "Amber",
            bg: 0x1a1410,
            canvas_bg: 0x100c08,
            panel_bg: 0x15100c,
            chip_bg: 0x261e14,
            hover_bg: 0x32281a,
            text: 0xc0a888,
            text_dim: 0x6e5f4a,
            accent: 0xffb74d,
            cell_style: CellStyle::Solid,
        },
    );
    list.push(
        Theme {
            name: "Paper",
            bg: 0xece8de,
            canvas_bg: 0xf9f7f0,
            panel_bg: 0xe2ddd0,
            chip_bg: 0xd6d0c0,
            hover_bg: 0xc9c2b0,
            text: 0x5a5648,
            text_dim: 0x9a947f,
            accent: 0x3a6b35,
            cell_style: CellStyle::Solid,
        },
    );
    list
}

/// No two themes share a name.
pub proof fn law_theme_names_are_unique(i: int, j: int)
    requires
        0 <= i < j < theme_list().len(),
    ensures
        theme_list()[i].name@ != theme_list()[j].name@,
{
    reveal_strlit("Terminal");
    reveal_strlit("Ocean");
    reveal_strlit("Grayscale");
    reveal_strlit("Rainbow");
    reveal_strlit("Synthwave");
    reveal_strlit("Amber");
    reveal_strlit("Paper");
    assert(theme_list()[i].name@[0] != theme_list()[j].name@[0]);
}

/// In the hue sweep each cell is one hue further on than the one to its left
/// and the one above, up to a full turn, and the sweep starts at the origin.
/// Every other theme gives all live cells its accent.
pub proof fn law_cell_colors(theme: Theme, x: int, y: int)
    ensures
        theme.cell_style is Solid ==> color_of(theme, x, y) == CellColor::Rgb(theme.accent),
        theme.cell_style is Rainbow ==> {
            &&& color_of(theme, 0, 0) == CellColor::Hue(0)
            &&& color_of(theme, x, y) matches CellColor::Hue(hue) && {
                let next = CellColor::Hue(
                    if hue == 159 {
                        0
                    } else {
                        (hue + 1) as i64
                    },
                );
                color_of(theme, x + 1, y) == next && color_of(theme, x, y + 1) == next
            }
        },
{
}

/// There are seven themes, of which one, the fourth, sweeps through the hues.
pub proof fn law_themes(i: int)
    ensures
        theme_list().len() == 7,
        0 <= i < 7 ==> (theme_list()[i].cell_style is Rainbow <==> i == 3),
{
}

/// The colors of the themes, from the first to the last: of the window, the
/// canvas, the panels, the chips and what the mouse is over, of the text and of
/// dim text, and the accents.
pub proof fn law_theme_colors()
    ensures
        theme_list().map_values(|t: Theme| t.bg) == seq![
            0x14141au32, 0x0d1522u32, 0x171717u32, 0x141218u32, 0x1a1030u32, 0x1a1410u32, 0xece8deu32,
        ],
        theme_list().map_values(|t: Theme| t.canvas_bg) == seq![
            0x0b0b10u32, 0x081020u32, 0x0d0d0du32, 0x0a090eu32, 0x120a24u32, 0x100c08u32, 0xf9f7f0u32,
        ],
        theme_list().map_values(|t: Theme| t.panel_bg) == seq![
            0x101016u32, 0x0b1220u32, 0x121212u32, 0x100e14u32, 0x160d2au32, 0x15100cu32, 0xe2ddd0u32,
        ],
        theme_list().map_values(|t: Theme| t.chip_bg) == seq![
            0x1d1d26u32, 0x14203au32, 0x232323u32, 0x1e1a26u32, 0x271846u32, 0x261e14u32, 0xd6d0c0u32,
        ],
        theme_list().map_values(|t: Theme| t.hover_bg) == seq![
            0x232331u32, 0x1a2a4au32, 0x2e2e2eu32, 0x282132u32, 0x32205au32, 0x32281au32, 0xc9c2b0u32,
        ],
        theme_list().map_values(|t: Theme| t.text) == seq![
            0x9aa0b0u32, 0x92a8c8u32, 0x9e9e9eu32, 0xa89fb8u32, 0xb39ddbu32, 0xc0a888u32, 0x5a5648u32,
        ],
        theme_list().map_values(|t: Theme| t.text_dim) == seq![
            0x565c68u32, 0x4a5d7au32, 0x5c5c5cu32, 0x5f5870u32, 0x6a5490u32, 0x6e5f4au32, 0x9a947fu32,
        ],
        theme_list().map_values(|t: Theme| t.accent) == seq![
            0x5be37du32, 0x64b5f6u32, 0xe6e6e6u32, 0xff7ad9u32, 0xff4fd8u32, 0xffb74du32, 0x3a6b35u32,
        ],
{
    assert(theme_list().map_values(|t: Theme| t.bg) =~= seq![0x14141au32, 0x0d1522u32, 0x171717u32, 0x141218u32, 0x1a1030u32, 0x1a1410u32, 0xece8deu32]);
    assert(theme_list().map_values(|t: Theme| t.canvas_bg) =~= seq![0x0b0b10u32, 0x081020u32, 0x0d0d0du32, 0x0a090eu32, 0x120a24u32, 0x100c08u32, 0xf9f7f0u32]);
    assert(theme_list().map_values(|t: Theme| t.panel_bg) =~= seq![0x101016u32, 0x0b1220u32, 0x121212u32, 0x100e14u32, 0x160d2au32, 0x15100cu32, 0xe2ddd0u32]);
    assert(theme_list().map_values(|t: Theme| t.chip_bg) =~= seq![0x1d1d26u32, 0x14203au32, 0x232323u32, 0x1e1a26u32, 0x271846u32, 0x261e14u32, 0xd6d0c0u32]);
    assert(theme_list().map_values(|t: Theme| t.hover_bg) =~= seq![0x232331u32, 0x1a2a4au32, 0x2e2e2eu32, 0x282132u32, 0x32205au32, 0x32281au32, 0xc9c2b0u32]);
    assert(theme_list().map_values(|t: Theme| t.text) =~= seq![0x9aa0b0u32, 0x92a8c8u32, 0x9e9e9eu32, 0xa89fb8u32, 0xb39ddbu32, 0xc0a888u32, 0x5a5648u32]);
    assert(theme_list().map_values(|t: Theme| t.text_dim) =~= seq![0x565c68u32, 0x4a5d7au32, 0x5c5c5cu32, 0x5f5870u32, 0x6a5490u32, 0x6e5f4au32, 0x9a947fu32]);
    assert(theme_list().map_values(|t: Theme| t.accent) =~= seq![0x5be37du32, 0x64b5f6u32, 0xe6e6e6u32, 0xff7ad9u32, 0xff4fd8u32, 0xffb74du32, 0x3a6b35u32]);
}

} // verus!
