//! Colour names and the colour maps that resolve them.
use vstd::prelude::*;

use crate::board::PieceColor;

verus! {

pub open spec fn red_name() -> Seq<char> {
    seq!['R', 'E', 'D']
}

pub open spec fn blue_name() -> Seq<char> {
    seq!['B', 'L', 'U', 'E']
}

pub open spec fn green_name() -> Seq<char> {
    seq!['G', 'R', 'E', 'E', 'N']
}

pub open spec fn yellow_name() -> Seq<char> {
    seq!['Y', 'E', 'L', 'L', 'O', 'W']
}

/// A map from colour names to colours: always RED, BLUE and GREEN, and
/// YELLOW when `with_yellow` is set.
#[derive(Clone, Copy, PartialEq, Eq, Structural, Debug)]
pub struct ColorMap {
    pub with_yellow: bool,
}

/// The colour a name resolves to in the map.
pub open spec fn lookup_color(map: ColorMap, name: Seq<char>) -> Option<PieceColor> {
    if name == red_name() {
        Some(PieceColor::Red)
    } else if name == blue_name() {
        Some(PieceColor::Blue)
    } else if name == green_name() {
        Some(PieceColor::Green)
    } else if map.with_yellow && name == yellow_name() {
        Some(PieceColor::Yellow)
    } else {
        None
    }
}

/// The colour a name resolves to, white when the map does not know it.
pub open spec fn color_or_white(map: ColorMap, name: Seq<char>) -> PieceColor {
    match lookup_color(map, name) {
        Some(c) => c,
        None => PieceColor::White,
    }
}

/// The names of the colours that random pieces can take.
pub open spec fn available_color_names() -> Seq<Seq<char>> {
    seq![red_name(), blue_name(), green_name()]
}

/// The map of the three standard colours.
pub fn get_color_map() -> (m: ColorMap)
    ensures
        m.with_yellow == false,
{
    ColorMap { with_yellow: false }
}

/// The standard colours plus YELLOW.
pub fn color_map_with_yellow() -> (m: ColorMap)
    ensures
        m.with_yellow == true,
{
    ColorMap { with_yellow: true }
}

/// The name of a colour as a string.
pub fn color_name_string(c: PieceColor) -> (s: String)
    ensures
        c == PieceColor::Red ==> s@ == red_name(),
        c == PieceColor::Blue ==> s@ == blue_name(),
        c == PieceColor::Green ==> s@ == green_name(),
        c == PieceColor::Yellow ==> s@ == yellow_name(),
        c == PieceColor::White ==> s@ == seq!['W', 'H', 'I', 'T', 'E'],
{
    proof {
        reveal_strlit("RED");
        reveal_strlit("BLUE");
        reveal_strlit("GREEN");
        reveal_strlit("YELLOW");
        reveal_strlit("WHITE");
    }
    match c {
        PieceColor::Red => "RED".to_owned(),
        PieceColor::Blue => "BLUE".to_owned(),
        PieceColor::Green => "GREEN".to_owned(),
        PieceColor::Yellow => "YELLOW".to_owned(),
        PieceColor::White => "WHITE".to_owned(),
    }
}

/// The names of the colours that random pieces can take: RED, BLUE, GREEN.
pub fn available_colors() -> (v: Vec<String>)
    ensures
        v@.len() == 3,
        forall|i: int| 0 <= i < 3 ==> (#[trigger] v@[i])@ == available_color_names()[i],
{
    let mut v: Vec<String> = Vec::new();
    v.push(color_name_string(PieceColor::Red));
    v.push(color_name_string(PieceColor::Blue));
    v.push(color_name_string(PieceColor::Green));
    v
}

/// The name shown for a colour: RED, BLUE or GREEN, and UNKNOWN for any
/// other colour.
pub fn color_name(c: PieceColor) -> (s: String)
    ensures
        c == PieceColor::Red ==> s@ == red_name(),
        c == PieceColor::Blue ==> s@ == blue_name(),
        c == PieceColor::Green ==> s@ == green_name(),
        c == PieceColor::Yellow || c == PieceColor::White ==> s@ == seq!['U', 'N', 'K', 'N', 'O', 'W', 'N'],
{
    proof {
        reveal_strlit("UNKNOWN");
    }
    match c {
        PieceColor::Red | PieceColor::Blue | PieceColor::Green => color_name_string(c),
        _ => "UNKNOWN".to_owned(),
    }
}

impl ColorMap {
    /// The colour a name resolves to in this map.
    pub fn get(&self, name: &String) -> (r: Option<PieceColor>)
        ensures
            r == lookup_color(*self, name@),
    {
        let red = color_name_string(PieceColor::Red);
        let blue = color_name_string(PieceColor::Blue);
        let green = color_name_string(PieceColor::Green);
        let yellow = color_name_string(PieceColor::Yellow);
        if *name == red {
            Some(PieceColor::Red)
        } else if *name == blue {
            Some(PieceColor::Blue)
        } else if *name == green {
            Some(PieceColor::Green)
        } else if self.with_yellow && *name == yellow {
            Some(PieceColor::Yellow)
        } else {
            None
        }
    }

    /// The colour a name resolves to, or white.
    pub fn get_or_white(&self, name: &String) -> (c: PieceColor)
        ensures
            c == color_or_white(*self, name@),
    {
        match self.get(name) {
            Some(c) => c,
            None => PieceColor::White,
        }
    }
}

} // verus!
