//! The colors of the interface.
use crate::tui::style::{no_style, Color, Style};
use vstd::prelude::*;

verus! {

/// The colors that tables and inline code are drawn in.
#[derive(Debug, Clone, Copy)]
pub struct UiTheme {
    /// Ordinary text.
    pub foreground: Color,
    pub heading_1: Color,
    pub heading_2: Color,
    pub heading_3: Color,
    pub heading_4: Color,
    pub heading_5: Color,
    pub heading_6: Color,
    /// Inline code.
    pub inline_code_fg: Color,
    pub inline_code_bg: Color,
    /// The frame and the rules of a table.
    pub table_border: Color,
    /// The arrow in front of a selected element.
    pub selection_indicator_fg: Color,
    pub selection_indicator_bg: Color,
    /// A selected link or table cell.
    pub link_selected_fg: Color,
    pub link_selected_bg: Color,
}

impl UiTheme {
    pub open spec fn spec_heading_color(&self, level: usize) -> Color {
        if level == 1 {
            self.heading_1
        } else if level == 2 {
            self.heading_2
        } else if level == 3 {
            self.heading_3
        } else if level == 4 {
            self.heading_4
        } else if level == 5 {
            self.heading_5
        } else if level == 6 {
            self.heading_6
        } else {
            self.foreground
        }
    }

    /// The color of headings at `level`; a level without a color of its own is
    /// drawn as ordinary text.
    #[verifier::when_used_as_spec(spec_heading_color)]
    pub fn heading_color(&self, level: usize) -> (r: Color)
        ensures
            r == self.spec_heading_color(level),
    {
        match level {
            1 => self.heading_1,
            2 => self.heading_2,
            3 => self.heading_3,
            4 => self.heading_4,
            5 => self.heading_5,
            6 => self.heading_6,
            _ => self.foreground,
        }
    }

    pub open spec fn spec_text_style(&self) -> Style {
        Style { fg: Some(self.foreground), ..no_style() }
    }

    /// The style of ordinary text.
    #[verifier::when_used_as_spec(spec_text_style)]
    pub fn text_style(&self) -> (r: Style)
        ensures
            r == self.spec_text_style(),
    {
        Style::default().fg(self.foreground)
    }

    pub open spec fn spec_inline_code_style(&self) -> Style {
        Style { fg: Some(self.inline_code_fg), bg: Some(self.inline_code_bg), ..no_style() }
    }

    /// The style of inline code.
    #[verifier::when_used_as_spec(spec_inline_code_style)]
    pub fn inline_code_style(&self) -> (r: Style)
        ensures
            r == self.spec_inline_code_style(),
    {
        Style::default().fg(self.inline_code_fg).bg(self.inline_code_bg)
    }
}

/// The step of the color cube, 0 to 5, for one component.
pub open spec fn cube_step(c: u8) -> int {
    c as int * 5 / 255
}

/// The palette entry that stands for a 24-bit color: a gray on the gray ramp
/// (or at its ends the black and white of the color cube), any other color in
/// the color cube of six steps per component.
pub open spec fn palette_index(r: u8, g: u8, b: u8) -> int {
    if r == g && g == b {
        if r < 8 {
            16
        } else if r > 248 {
            231
        } else if (r - 8) / 10 < 23 {
            232 + (r - 8) / 10
        } else {
            255
        }
    } else {
        16 + 36 * cube_step(r) + 6 * cube_step(g) + cube_step(b)
    }
}

/// A 24-bit color as an entry of the 256-color palette; every other color as it
/// is.
pub open spec fn quantized(color: Color) -> Color {
    match color {
        Color::Rgb(r, g, b) => Color::Indexed(palette_index(r, g, b) as u8),
        other => other,
    }
}

/// Map a 24-bit color to the 256-color palette.
pub fn rgb_to_256(color: Color) -> (r: Color)
    ensures
        r == quantized(color),
{
    match color {
        Color::Rgb(r, g, b) => {
            let index: u8 = if r == g && g == b {
                if r < 8 {
                    16
                } else if r > 248 {
                    231
                } else {
                    let shade: u8 = (r - 8) / 10;
                    if shade < 23 {
                        232 + shade
                    } else {
                        255
                    }
                }
            } else {
                let red: u16 = r as u16 * 5 / 255;
                let green: u16 = g as u16 * 5 / 255;
                let blue: u16 = b as u16 * 5 / 255;
                (16 + 36 * red + 6 * green + blue) as u8
            };
            Color::Indexed(index)
        },
        other => other,
    }
}

// ---------- laws ----------

/// Each of the six heading levels has its own color; other levels have the color
/// of ordinary text.
pub proof fn law_every_level_has_its_color(theme: UiTheme, level: usize)
    ensures
        level == 0 || level > 6 ==> theme.heading_color(level) == theme.foreground,
        1 <= level <= 6 ==> theme.heading_color(level) == seq![
            theme.heading_1,
            theme.heading_2,
            theme.heading_3,
            theme.heading_4,
            theme.heading_5,
            theme.heading_6,
        ][level - 1],
{
}

/// The components of a color of the palette, from entry sixteen on: the color
/// cube, whose steps lie at 0, 95, 135, 175, 215 and 255, and the gray ramp from
/// 8 to 238.
pub open spec fn palette_color(index: int) -> (int, int, int) {
    if index >= 232 {
        let gray = 8 + 10 * (index - 232);
        (gray, gray, gray)
    } else {
        (
            step_value((index - 16) / 36),
            step_value((index - 16) / 6 % 6),
            step_value((index - 16) % 6),
        )
    }
}

/// The component at a step of the color cube.
pub open spec fn step_value(step: int) -> int {
    if step == 0 {
        0
    } else {
        55 + 40 * step
    }
}

/// `a` and `b` are at most `distance` apart.
pub open spec fn is_near(a: int, b: int, distance: int) -> bool {
    -distance <= a - b <= distance
}

proof fn lemma_cube_step(c: u8)
    ensures
        0 <= cube_step(c) <= 5,
        51 * cube_step(c) <= c < 51 * cube_step(c) + 51,
        is_near(step_value(cube_step(c)), c as int, 50),
{
}

/// A color of the palette is near the color that it stands for: no component is
/// more than 50 away, and for a gray no more than 10. Black and white are
/// themselves, and a gray stays a gray.
pub proof fn law_palette_color_is_near(r: u8, g: u8, b: u8) -> (index: u8)
    ensures
        quantized(Color::Rgb(r, g, b)) == Color::Indexed(index),
        index >= 16,
        ({
            let (red, green, blue) = palette_color(index as int);
            let distance: int = if r == g && g == b {
                10
            } else {
                50
            };
            &&& is_near(red, r as int, distance)
            &&& is_near(green, g as int, distance)
            &&& is_near(blue, b as int, distance)
            &&& r == g && g == b ==> red == green && green == blue
            &&& r == 0 && g == 0 && b == 0 ==> red == 0
            &&& r == 255 && g == 255 && b == 255 ==> red == 255
        }),
{
    lemma_cube_step(r);
    lemma_cube_step(g);
    lemma_cube_step(b);
    let index = palette_index(r, g, b);
    let (x, y, z) = (cube_step(r), cube_step(g), cube_step(b));
    if !(r == g && g == b) {
        assert((36 * x + 6 * y + z) / 36 == x);
        assert((36 * x + 6 * y + z) / 6 == 6 * x + y);
        assert((6 * x + y) % 6 == y);
        assert((36 * x + 6 * y + z) % 6 == z);
    }
    index as u8
}

/// The palette keeps the order of brightness: where two colors that are no grays
/// differ in one component only, the brighter one never has the lower entry. Nor
/// has the brighter of two grays of the gray ramp.
pub proof fn law_palette_keeps_the_order(r: u8, g: u8, b: u8, brighter: u8)
    ensures
        r <= brighter && !(r == g && g == b) && !(brighter == g && g == b) ==> palette_index(
            r,
            g,
            b,
        ) <= palette_index(brighter, g, b),
        8 <= r <= brighter <= 248 ==> palette_index(r, r, r) <= palette_index(
            brighter,
            brighter,
            brighter,
        ),
{
}

/// Colors that are not 24-bit colors stay as they are.
pub proof fn law_other_colors_are_kept(color: Color)
    requires
        !(color is Rgb),
    ensures
        quantized(color) == color,
{
}

} // verus!
