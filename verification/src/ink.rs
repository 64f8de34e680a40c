//! Pens, tools and ink colours.

use vstd::prelude::*;

verus! {

/// The four pen nibs a stroke can be drawn with.
#[derive(Clone, Copy, Debug, PartialEq, Eq, Structural)]
pub enum Nib {
    Fineliner,
    Brush,
    Pencil,
    Highlighter,
}

/// What a press on the page does.
#[derive(Clone, Copy, Debug, PartialEq, Eq, Structural)]
pub enum Tool {
    Fineliner,
    Brush,
    Pencil,
    Highlighter,
    EraserStroke,
    EraserArea,
    Lasso,
    Text,
    Image,
}

impl Tool {
    /// The nib a drawing tool lays ink with.
    pub open spec fn nib_of(self) -> Option<Nib> {
        match self {
            Tool::Fineliner => Some(Nib::Fineliner),
            Tool::Brush => Some(Nib::Brush),
            Tool::Pencil => Some(Nib::Pencil),
            Tool::Highlighter => Some(Nib::Highlighter),
            _ => None,
        }
    }

    pub fn nib(self) -> (r: Option<Nib>)
        ensures
            r == self.nib_of(),
    {
        match self {
            Tool::Fineliner => Some(Nib::Fineliner),
            Tool::Brush => Some(Nib::Brush),
            Tool::Pencil => Some(Nib::Pencil),
            Tool::Highlighter => Some(Nib::Highlighter),
            _ => None,
        }
    }

    pub fn is_ink(self) -> (r: bool)
        ensures
            r == self.nib_of().is_some(),
    {
        self.nib().is_some()
    }

    /// An eraser.
    pub open spec fn erases(self) -> bool {
        self == Tool::EraserStroke || self == Tool::EraserArea
    }

    pub fn is_eraser(self) -> (r: bool)
        ensures
            r == self.erases(),
    {
        matches!(self, Tool::EraserStroke | Tool::EraserArea)
    }

    pub fn label(self) -> (r: &'static str)
        ensures
            r@ == match self {
                Tool::Fineliner => "Pen"@,
                Tool::Brush => "Brush"@,
                Tool::Pencil => "Pencil"@,
                Tool::Highlighter => "Highlighter"@,
                Tool::EraserStroke => "stroke"@,
                Tool::EraserArea => "area"@,
                Tool::Lasso => "Lasso"@,
                Tool::Text => "Text"@,
                Tool::Image => "Image"@,
            },
    {
        match self {
            Tool::Fineliner => "Pen",
            Tool::Brush => "Brush",
            Tool::Pencil => "Pencil",
            Tool::Highlighter => "Highlighter",
            Tool::EraserStroke => "stroke",
            Tool::EraserArea => "area",
            Tool::Lasso => "Lasso",
            Tool::Text => "Text",
            Tool::Image => "Image",
        }
    }
}

} // verus!

verus! {

/// A colour: red, green, blue and alpha bytes.
#[derive(Clone, Copy, Debug, PartialEq, Eq, Structural)]
pub struct Rgba {
    pub r: u8,
    pub g: u8,
    pub b: u8,
    pub a: u8,
}

impl Rgba {
    /// An opaque colour.
    pub fn rgb(r: u8, g: u8, b: u8) -> (c: Rgba)
        ensures
            c == (Rgba { r, g, b, a: 255 }),
    {
        Rgba { r, g, b, a: 255 }
    }
}

/// A channel scaled by alpha, rounded down.
pub open spec fn scaled(v: u8, a: u8) -> u8 {
    (v * a / 255) as u8
}

fn scale(v: u8, a: u8) -> (r: u8)
    ensures
        r == scaled(v, a),
{
    assert(v as u16 * a as u16 <= 65025) by (nonlinear_arith)
        requires
            v <= 255,
            a <= 255,
    ;
    let p: u16 = v as u16 * a as u16;
    assert(p / 255 <= 255) by (nonlinear_arith)
        requires
            p == v * a,
            v <= 255,
            a <= 255,
    ;
    (p / 255) as u8
}

/// The colour with its channels multiplied by its alpha.
pub fn premultiply(c: Rgba) -> (r: Rgba)
    ensures
        r == (Rgba { r: scaled(c.r, c.a), g: scaled(c.g, c.a), b: scaled(c.b, c.a), a: c.a }),
{
    Rgba { r: scale(c.r, c.a), g: scale(c.g, c.a), b: scale(c.b, c.a), a: c.a }
}

/// Two channel values closer than 8 apart.
pub open spec fn close_channels(a: u8, b: u8) -> bool {
    -8 < a - b < 8
}

fn close(x: u8, y: u8) -> (n: bool)
    ensures
        n == close_channels(x, y),
{
    if x >= y {
        x - y < 8
    } else {
        y - x < 8
    }
}

/// Two colours that read as the same ink: red, green and blue each closer
/// than 8 apart; alpha does not count.
pub fn same_rgb(a: Rgba, b: Rgba) -> (r: bool)
    ensures
        r == (close_channels(a.r, b.r) && close_channels(a.g, b.g) && close_channels(a.b, b.b)),
{
    close(a.r, b.r) && close(a.g, b.g) && close(a.b, b.b)
}

} // verus!
