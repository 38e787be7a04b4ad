//! An RGBA color with a name, plus the usual preset palette.

use vstd::prelude::*;

verus! {

/// A color with RGBA channel values in `0..=255` and a display name.
#[derive(Debug, Clone)]
pub struct Color {
    pub guid: String,
    pub name: String,
    pub r: u8,
    pub g: u8,
    pub b: u8,
    pub a: u8,
}

impl Color {
    /// Create a new color with the given channels and the default name.
    pub fn new(r: u8, g: u8, b: u8, a: u8) -> (c: Color)
        ensures
            c.r == r && c.g == g && c.b == b && c.a == a,
            c.name@ == "Color"@,
            c.guid@.len() == 36,
    {
        Color { guid: crate::guid::new_guid(), name: "Color".to_owned(), r, g, b, a }
    }

    /// Create the white preset.
    pub fn white() -> (c: Color)
        ensures
            c.r == 255 && c.g == 255 && c.b == 255 && c.a == 255,
            c.name@ == "white"@,
            c.guid@.len() == 36,
    {
        let mut color = Color::new(255, 255, 255, 255);
        color.name = "white".to_owned();
        color
    }

    /// Create the black preset.
    pub fn black() -> (c: Color)
        ensures
            c.r == 0 && c.g == 0 && c.b == 0 && c.a == 255,
            c.name@ == "black"@,
            c.guid@.len() == 36,
    {
        let mut color = Color::new(0, 0, 0, 255);
        color.name = "black".to_owned();
        color
    }

    /// Create the grey preset.
    pub fn grey() -> (c: Color)
        ensures
            c.r == 128 && c.g == 128 && c.b == 128 && c.a == 255,
            c.name@ == "grey"@,
            c.guid@.len() == 36,
    {
        let mut color = Color::new(128, 128, 128, 255);
        color.name = "grey".to_owned();
        color
    }

    /// Create the red preset.
    pub fn red() -> (c: Color)
        ensures
            c.r == 255 && c.g == 0 && c.b == 0 && c.a == 255,
            c.name@ == "red"@,
            c.guid@.len() == 36,
    {
        let mut color = Color::new(255, 0, 0, 255);
        color.name = "red".to_owned();
        color
    }

    /// Create the orange preset.
    pub fn orange() -> (c: Color)
        ensures
            c.r == 255 && c.g == 128 && c.b == 0 && c.a == 255,
            c.name@ == "orange"@,
            c.guid@.len() == 36,
    {
        let mut color = Color::new(255, 128, 0, 255);
        color.name = "orange".to_owned();
        color
    }

    /// Create the yellow preset.
    pub fn yellow() -> (c: Color)
        ensures
            c.r == 255 && c.g == 255 && c.b == 0 && c.a == 255,
            c.name@ == "yellow"@,
            c.guid@.len() == 36,
    {
        let mut color = Color::new(255, 255, 0, 255);
        color.name = "yellow".to_owned();
        color
    }

    /// Create the lime preset.
    pub fn lime() -> (c: Color)
        ensures
            c.r == 128 && c.g == 255 && c.b == 0 && c.a == 255,
            c.name@ == "lime"@,
            c.guid@.len() == 36,
    {
        let mut color = Color::new(128, 255, 0, 255);
        color.name = "lime".to_owned();
        color
    }

    /// Create the green preset.
    pub fn green() -> (c: Color)
        ensures
            c.r == 0 && c.g == 255 && c.b == 0 && c.a == 255,
            c.name@ == "green"@,
            c.guid@.len() == 36,
    {
        let mut color = Color::new(0, 255, 0, 255);
        color.name = "green".to_owned();
        color
    }

    /// Create the mint preset.
    pub fn mint() -> (c: Color)
        ensures
            c.r == 0 && c.g == 255 && c.b == 128 && c.a == 255,
            c.name@ == "mint"@,
            c.guid@.len() == 36,
    {
        let mut color = Color::new(0, 255, 128, 255);
        color.name = "mint".to_owned();
        color
    }

    /// Create the cyan preset.
    pub fn cyan() -> (c: Color)
        ensures
            c.r == 0 && c.g == 255 && c.b == 255 && c.a == 255,
            c.name@ == "cyan"@,
            c.guid@.len() == 36,
    {
        let mut color = Color::new(0, 255, 255, 255);
        color.name = "cyan".to_owned();
        color
    }

    /// Create the azure preset.
    pub fn azure() -> (c: Color)
        ensures
            c.r == 0 && c.g == 128 && c.b == 255 && c.a == 255,
            c.name@ == "azure"@,
            c.guid@.len() == 36,
    {
        let mut color = Color::new(0, 128, 255, 255);
        color.name = "azure".to_owned();
        color
    }

    /// Create the blue preset.
    pub fn blue() -> (c: Color)
        ensures
            c.r == 0 && c.g == 0 && c.b == 255 && c.a == 255,
            c.name@ == "blue"@,
            c.guid@.len() == 36,
    {
        let mut color = Color::new(0, 0, 255, 255);
        color.name = "blue".to_owned();
        color
    }

    /// Create the violet preset.
    pub fn violet() -> (c: Color)
        ensures
            c.r == 128 && c.g == 0 && c.b == 255 && c.a == 255,
            c.name@ == "violet"@,
            c.guid@.len() == 36,
    {
        let mut color = Color::new(128, 0, 255, 255);
        color.name = "violet".to_owned();
        color
    }

    /// Create the magenta preset.
    pub fn magenta() -> (c: Color)
        ensures
            c.r == 255 && c.g == 0 && c.b == 255 && c.a == 255,
            c.name@ == "magenta"@,
            c.guid@.len() == 36,
    {
        let mut color = Color::new(255, 0, 255, 255);
        color.name = "magenta".to_owned();
        color
    }

    /// Create the pink preset.
    pub fn pink() -> (c: Color)
        ensures
            c.r == 255 && c.g == 0 && c.b == 128 && c.a == 255,
            c.name@ == "pink"@,
            c.guid@.len() == 36,
    {
        let mut color = Color::new(255, 0, 128, 255);
        color.name = "pink".to_owned();
        color
    }

    /// Create the maroon preset.
    pub fn maroon() -> (c: Color)
        ensures
            c.r == 128 && c.g == 0 && c.b == 0 && c.a == 255,
            c.name@ == "maroon"@,
            c.guid@.len() == 36,
    {
        let mut color = Color::new(128, 0, 0, 255);
        color.name = "maroon".to_owned();
        color
    }

    /// Create the brown preset.
    pub fn brown() -> (c: Color)
        ensures
            c.r == 128 && c.g == 64 && c.b == 0 && c.a == 255,
            c.name@ == "brown"@,
            c.guid@.len() == 36,
    {
        let mut color = Color::new(128, 64, 0, 255);
        color.name = "brown".to_owned();
        color
    }

    /// Create the olive preset.
    pub fn olive() -> (c: Color)
        ensures
            c.r == 128 && c.g == 128 && c.b == 0 && c.a == 255,
            c.name@ == "olive"@,
            c.guid@.len() == 36,
    {
        let mut color = Color::new(128, 128, 0, 255);
        color.name = "olive".to_owned();
        color
    }

    /// Create the teal preset.
    pub fn teal() -> (c: Color)
        ensures
            c.r == 0 && c.g == 128 && c.b == 128 && c.a == 255,
            c.name@ == "teal"@,
            c.guid@.len() == 36,
    {
        let mut color = Color::new(0, 128, 128, 255);
        color.name = "teal".to_owned();
        color
    }

    /// Create the navy preset.
    pub fn navy() -> (c: Color)
        ensures
            c.r == 0 && c.g == 0 && c.b == 128 && c.a == 255,
            c.name@ == "navy"@,
            c.guid@.len() == 36,
    {
        let mut color = Color::new(0, 0, 128, 255);
        color.name = "navy".to_owned();
        color
    }

    /// Create the purple preset.
    pub fn purple() -> (c: Color)
        ensures
            c.r == 128 && c.g == 0 && c.b == 128 && c.a == 255,
            c.name@ == "purple"@,
            c.guid@.len() == 36,
    {
        let mut color = Color::new(128, 0, 128, 255);
        color.name = "purple".to_owned();
        color
    }

    /// Create the silver preset.
    pub fn silver() -> (c: Color)
        ensures
            c.r == 192 && c.g == 192 && c.b == 192 && c.a == 255,
            c.name@ == "silver"@,
            c.guid@.len() == 36,
    {
        let mut color = Color::new(192, 192, 192, 255);
        color.name = "silver".to_owned();
        color
    }
}

impl PartialEq for Color {
    /// Two colors are equal when their names and all four channels agree;
    /// the identifier is deliberately left out.
    fn eq(&self, other: &Color) -> (r: bool) {
        self.name == other.name && self.r == other.r && self.g == other.g && self.b == other.b
            && self.a == other.a
    }
}

impl vstd::std_specs::cmp::PartialEqSpecImpl for Color {
    open spec fn obeys_eq_spec() -> bool {
        true
    }

    open spec fn eq_spec(&self, other: &Color) -> bool {
        self.name@ == other.name@ && self.r == other.r && self.g == other.g && self.b == other.b
            && self.a == other.a
    }
}

} // verus!
