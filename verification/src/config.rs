//! Piece definitions as the piece library describes them.
use vstd::prelude::*;

use crate::board::Coord;

verus! {

/// Static pieces keep the colour and effects of their definition; dynamic
/// pieces get a random colour and one random variant of their effects.
#[derive(Clone, Copy, PartialEq, Eq, Structural, Debug)]
pub enum PieceType {
    Static,
    Dynamic,
}

/// The piece type of a definition that names none.
pub fn default_piece_type() -> (t: PieceType)
    ensures
        t == PieceType::Static,
{
    PieceType::Static
}

impl Default for PieceType {
    fn default() -> (t: PieceType)
        ensures
            t == PieceType::Static,
    {
        PieceType::Static
    }
}

/// An effect condition as written in a definition, with colours by name.
#[derive(Clone, Debug)]
pub enum RawEffectCondition {
    MatchesColor(String),
    IsEmpty,
    NoColorOnBoard(String),
    MatchesSize(u32),
}

/// The mathematical value of a written condition.
pub enum RawConditionView {
    MatchesColor(Seq<char>),
    IsEmpty,
    NoColorOnBoard(Seq<char>),
    MatchesSize(u32),
}

impl View for RawEffectCondition {
    type V = RawConditionView;

    open spec fn view(&self) -> RawConditionView {
        match self {
            RawEffectCondition::MatchesColor(s) => RawConditionView::MatchesColor(s@),
            RawEffectCondition::IsEmpty => RawConditionView::IsEmpty,
            RawEffectCondition::NoColorOnBoard(s) => RawConditionView::NoColorOnBoard(s@),
            RawEffectCondition::MatchesSize(n) => RawConditionView::MatchesSize(*n),
        }
    }
}

/// An effect as written in a definition; no offsets means a board-wide effect.
#[derive(Clone, Debug)]
pub struct RawGameEffect {
    pub condition: RawEffectCondition,
    pub points: i32,
    pub offsets: Vec<Coord>,
}

pub struct RawEffectView {
    pub condition: RawConditionView,
    pub points: i32,
    pub offsets: Seq<Coord>,
}

impl View for RawGameEffect {
    type V = RawEffectView;

    open spec fn view(&self) -> RawEffectView {
        RawEffectView { condition: self.condition@, points: self.points, offsets: self.offsets@ }
    }
}

pub open spec fn raw_effects_view(v: Seq<RawGameEffect>) -> Seq<RawEffectView> {
    v.map_values(|e: RawGameEffect| e@)
}

/// A piece definition.
#[derive(Clone, Debug)]
pub struct RawPieceConfig {
    pub shape: Vec<Coord>,
    pub color: String,
    pub points: i32,
    pub effects: Vec<RawGameEffect>,
    pub piece_type: PieceType,
}

/// The list of piece definitions.
#[derive(Clone, Debug)]
pub struct RawPieceLibrary {
    pub pieces: Vec<RawPieceConfig>,
}

} // verus!
