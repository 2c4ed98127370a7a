//! One palette for every platform. Dark, warm ⊤, cool ⊥ — readable at arm's
//! length on a 3.5" panel.

use crate::fb::Color;
use crate::game::Side;
use vstd::prelude::*;

verus! {

/// The palette entry `(r, g, b, a)` as a colour.
pub open spec fn shade(r: u8, g: u8, b: u8, a: u8) -> Color {
    Color { r, g, b, a }
}

pub fn bg() -> (c: Color)
    ensures
        c == shade(0x0E, 0x11, 0x16, 255),
{
    Color { r: 0x0E, g: 0x11, b: 0x16, a: 255 }
}

pub fn panel() -> (c: Color)
    ensures
        c == shade(0x16, 0x1B, 0x22, 255),
{
    Color { r: 0x16, g: 0x1B, b: 0x22, a: 255 }
}

pub fn panel_edge() -> (c: Color)
    ensures
        c == shade(0x2A, 0x33, 0x40, 255),
{
    Color { r: 0x2A, g: 0x33, b: 0x40, a: 255 }
}

pub fn text() -> (c: Color)
    ensures
        c == shade(0xE6, 0xED, 0xF3, 255),
{
    Color { r: 0xE6, g: 0xED, b: 0xF3, a: 255 }
}

pub fn dim() -> (c: Color)
    ensures
        c == shade(0x8B, 0x94, 0x9E, 255),
{
    Color { r: 0x8B, g: 0x94, b: 0x9E, a: 255 }
}

pub fn faint() -> (c: Color)
    ensures
        c == shade(0x4A, 0x53, 0x5E, 255),
{
    Color { r: 0x4A, g: 0x53, b: 0x5E, a: 255 }
}

/// Amber: ⊤.
pub fn top() -> (c: Color)
    ensures
        c == shade(255, 0xC5, 0x3D, 255),
{
    Color { r: 255, g: 0xC5, b: 0x3D, a: 255 }
}

/// Cyan: ⊥.
pub fn bot() -> (c: Color)
    ensures
        c == shade(0x4D, 0xC4, 255, 255),
{
    Color { r: 0x4D, g: 0xC4, b: 255, a: 255 }
}

pub fn glow_bg() -> (c: Color)
    ensures
        c == shade(0x3A, 0x46, 0x63, 0xB4),
{
    Color { r: 0x3A, g: 0x46, b: 0x63, a: 0xB4 }
}

pub fn cursor() -> (c: Color)
    ensures
        c == shade(0xF0, 0xF6, 0xFC, 255),
{
    Color { r: 0xF0, g: 0xF6, b: 0xFC, a: 255 }
}

pub fn redex_bg() -> (c: Color)
    ensures
        c == shade(0x5A, 0x46, 0x14, 0xC8),
{
    Color { r: 0x5A, g: 0x46, b: 0x14, a: 0xC8 }
}

pub fn redex_edge() -> (c: Color)
    ensures
        c == shade(0xC8, 0x9B, 0x2D, 255),
{
    Color { r: 0xC8, g: 0x9B, b: 0x2D, a: 255 }
}

/// Green: what a rewrite left behind.
pub fn rewrite_bg() -> (c: Color)
    ensures
        c == shade(0x17, 0x46, 0x26, 0xC8),
{
    Color { r: 0x17, g: 0x46, b: 0x26, a: 0xC8 }
}

pub fn good() -> (c: Color)
    ensures
        c == shade(0x3F, 0xB9, 0x50, 255),
{
    Color { r: 0x3F, g: 0xB9, b: 0x50, a: 255 }
}

pub fn bad() -> (c: Color)
    ensures
        c == shade(0xF8, 0x51, 0x49, 255),
{
    Color { r: 0xF8, g: 0x51, b: 0x49, a: 255 }
}

/// The colour of a side's constant.
pub open spec fn side_color_of(s: Side) -> Color {
    match s {
        Side::Top => shade(0xFF, 0xC5, 0x3D, 255),
        Side::Bot => shade(0x4D, 0xC4, 0xFF, 255),
    }
}

pub fn side_color(s: Side) -> (c: Color)
    ensures
        c == side_color_of(s),
{
    match s {
        Side::Top => top(),
        Side::Bot => bot(),
    }
}

pub open spec fn text_shade() -> Color {
    shade(0xE6, 0xED, 0xF3, 255)
}

pub open spec fn dim_shade() -> Color {
    shade(0x8B, 0x94, 0x9E, 255)
}

pub open spec fn faint_shade() -> Color {
    shade(0x4A, 0x53, 0x5E, 255)
}

pub open spec fn good_shade() -> Color {
    shade(0x3F, 0xB9, 0x50, 255)
}

pub open spec fn bad_shade() -> Color {
    shade(0xF8, 0x51, 0x49, 255)
}

/// The colour a board glyph is drawn in: constants in their side's colour,
/// brackets faint, connectives dim, the hovered atom's name in the cursor
/// colour, other atom names in the text colour.
pub open spec fn glyph_color_of(ch: char, hovered: Option<char>) -> Color {
    if ch == '⊤' {
        shade(255, 0xC5, 0x3D, 255)
    } else if ch == '⊥' {
        shade(0x4D, 0xC4, 255, 255)
    } else if ch == '(' || ch == ')' {
        shade(0x4A, 0x53, 0x5E, 255)
    } else if ch == '∧' || ch == '∨' || ch == '⇒' || ch == '=' || ch == '¬' {
        shade(0x8B, 0x94, 0x9E, 255)
    } else if hovered == Some(ch) {
        shade(0xF0, 0xF6, 0xFC, 255)
    } else {
        shade(0xE6, 0xED, 0xF3, 255)
    }
}

pub fn glyph_color(ch: char, hovered: Option<char>) -> (c: Color)
    ensures
        c == glyph_color_of(ch, hovered),
{
    if ch == '⊤' {
        top()
    } else if ch == '⊥' {
        bot()
    } else if ch == '(' || ch == ')' {
        faint()
    } else if ch == '∧' || ch == '∨' || ch == '⇒' || ch == '=' || ch == '¬' {
        dim()
    } else if hovered == Some(ch) {
        cursor()
    } else {
        text()
    }
}

} // verus!
