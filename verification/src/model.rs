//! Pieces, their effects, board state, bounds and rotation.
use vstd::prelude::*;

use crate::board::{pt, within, within_exec, CellMap, CellSet, Coord, PieceColor};

verus! {

/// Which board a piece belongs to: the single board, or a duel side.
#[derive(Clone, Copy, PartialEq, Eq, Structural, Debug, Hash)]
pub enum BoardSide {
    Single,
    Left,
    Right,
}

/// What must hold for an effect to earn its points.
#[derive(Clone, Copy, PartialEq, Eq, Structural, Debug, Hash)]
pub enum EffectCondition {
    /// The target cell is occupied by this colour.
    MatchesColor(PieceColor),
    /// The target cell is free.
    IsEmpty,
    /// No cell of the board (other than the piece's own) has this colour.
    NoColorOnBoard(PieceColor),
    /// The piece covering the target cell has this many cells.
    MatchesSize(usize),
}

/// An effect of a piece: a condition checked at each offset (relative to the
/// piece's origin), or once for the whole board when there are no offsets.
#[derive(Clone, Debug)]
pub struct GameEffect {
    pub condition: EffectCondition,
    pub points: i32,
    pub offsets: Option<Vec<Coord>>,
}

/// The mathematical value of an effect.
pub struct EffectView {
    pub condition: EffectCondition,
    pub points: i32,
    pub offsets: Option<Seq<Coord>>,
}

impl View for GameEffect {
    type V = EffectView;

    open spec fn view(&self) -> EffectView {
        EffectView {
            condition: self.condition,
            points: self.points,
            offsets: match self.offsets {
                Some(v) => Some(v@),
                None => None,
            },
        }
    }
}

pub open spec fn effects_view(v: Seq<GameEffect>) -> Seq<EffectView> {
    v.map_values(|e: GameEffect| e@)
}

/// A piece: its current (possibly rotated) shape and effects, the shape and
/// effects it started with, its colour and points, and where it is placed.
#[derive(Clone, Debug)]
pub struct Piece {
    pub type_id: usize,
    pub shape: Vec<Coord>,
    pub original_shape: Vec<Coord>,
    pub color: PieceColor,
    pub points: i32,
    pub effects: Vec<GameEffect>,
    pub original_effects: Vec<GameEffect>,
    pub placed_at: Option<Coord>,
    pub board_side: BoardSide,
}

/// The mathematical value of a piece.
pub struct PieceView {
    pub type_id: usize,
    pub shape: Seq<Coord>,
    pub original_shape: Seq<Coord>,
    pub color: PieceColor,
    pub points: i32,
    pub effects: Seq<EffectView>,
    pub original_effects: Seq<EffectView>,
    pub placed_at: Option<Coord>,
    pub board_side: BoardSide,
}

impl View for Piece {
    type V = PieceView;

    open spec fn view(&self) -> PieceView {
        PieceView {
            type_id: self.type_id,
            shape: self.shape@,
            original_shape: self.original_shape@,
            color: self.color,
            points: self.points,
            effects: effects_view(self.effects@),
            original_effects: effects_view(self.original_effects@),
            placed_at: self.placed_at,
            board_side: self.board_side,
        }
    }
}

pub open spec fn pieces_view(v: Seq<Piece>) -> Seq<PieceView> {
    v.map_values(|p: Piece| p@)
}

/// The board of one player: occupied cells, disabled cells, and the score.
pub struct GameState {
    pub board_cells: CellMap,
    pub disabled_cells: CellSet,
    pub score: i32,
}

impl GameState {
    /// An empty board with score 0.
    pub fn new() -> (s: GameState)
        ensures
            s.board_cells@ == Map::<(int, int), PieceColor>::empty(),
            s.disabled_cells@ == Set::<(int, int)>::empty(),
            s.score == 0,
    {
        GameState { board_cells: CellMap::new(), disabled_cells: CellSet::new(), score: 0 }
    }
}

/// A cell is available when it is on the board, free, and not disabled.
pub open spec fn available(
    cells: Map<(int, int), PieceColor>,
    disabled: Set<(int, int)>,
    size: Coord,
    p: (int, int),
) -> bool {
    within(p, size) && !cells.contains_key(p) && !disabled.contains(p)
}

/// Whether a cell lies on a board of the given size.
pub fn is_in_bounds(grid: Coord, board_size: Coord) -> (r: bool)
    ensures
        r == within(pt(grid), board_size),
{
    grid.x >= 0 && grid.x < board_size.x && grid.y >= 0 && grid.y < board_size.y
}

/// Whether a point given as 64-bit integers is available.
pub fn point_available(
    px: i64,
    py: i64,
    board_cells: &CellMap,
    disabled_cells: &CellSet,
    board_size: Coord,
) -> (r: bool)
    ensures
        r == available(board_cells@, disabled_cells@, board_size, (px as int, py as int)),
{
    within_exec(px, py, board_size) && board_cells.get_point(px, py).is_none()
        && !disabled_cells.contains_point(px, py)
}

/// Whether a cell is on the board, free, and not disabled.
pub fn is_cell_available(
    grid: Coord,
    board_cells: &CellMap,
    disabled_cells: &CellSet,
    board_size: Coord,
) -> (r: bool)
    ensures
        r == available(board_cells@, disabled_cells@, board_size, pt(grid)),
{
    is_in_bounds(grid, board_size) && !board_cells.contains_key(grid) && !disabled_cells.contains(
        grid,
    )
}

// ---------------------------------------------------------------------------
// Rotation
// ---------------------------------------------------------------------------
/// A coordinate can be turned a quarter when its `x` can be negated.
pub open spec fn rotatable(c: Coord) -> bool {
    c.x != i32::MIN
}

/// Both components can be negated, so any number of quarter turns is possible.
pub open spec fn freely_rotatable(c: Coord) -> bool {
    c.x != i32::MIN && c.y != i32::MIN
}

/// A quarter turn clockwise: (x, y) becomes (y, -x).
pub open spec fn rot(c: Coord) -> Coord {
    Coord { x: c.y, y: (-c.x) as i32 }
}

/// `n` quarter turns.
pub open spec fn rot_n(c: Coord, n: nat) -> Coord
    decreases n,
{
    if n == 0 {
        c
    } else {
        rot(rot_n(c, (n - 1) as nat))
    }
}

pub open spec fn shape_rotatable(s: Seq<Coord>) -> bool {
    forall|i: int| 0 <= i < s.len() ==> rotatable(#[trigger] s[i])
}

pub open spec fn shape_freely_rotatable(s: Seq<Coord>) -> bool {
    forall|i: int| 0 <= i < s.len() ==> freely_rotatable(#[trigger] s[i])
}

pub open spec fn rotated(s: Seq<Coord>) -> Seq<Coord> {
    s.map_values(|c: Coord| rot(c))
}

pub open spec fn rotated_n(s: Seq<Coord>, n: nat) -> Seq<Coord> {
    s.map_values(|c: Coord| rot_n(c, n))
}

pub open spec fn effect_rotatable(e: EffectView) -> bool {
    match e.offsets {
        Some(o) => shape_rotatable(o),
        None => true,
    }
}

pub open spec fn effect_freely_rotatable(e: EffectView) -> bool {
    match e.offsets {
        Some(o) => shape_freely_rotatable(o),
        None => true,
    }
}

pub open spec fn effects_rotatable(es: Seq<EffectView>) -> bool {
    forall|i: int| 0 <= i < es.len() ==> effect_rotatable(#[trigger] es[i])
}

pub open spec fn effects_freely_rotatable(es: Seq<EffectView>) -> bool {
    forall|i: int| 0 <= i < es.len() ==> effect_freely_rotatable(#[trigger] es[i])
}

pub open spec fn rotated_effect(e: EffectView) -> EffectView {
    EffectView {
        condition: e.condition,
        points: e.points,
        offsets: match e.offsets {
            Some(o) => Some(rotated(o)),
            None => None,
        },
    }
}

pub open spec fn rotated_effect_n(e: EffectView, n: nat) -> EffectView {
    EffectView {
        condition: e.condition,
        points: e.points,
        offsets: match e.offsets {
            Some(o) => Some(rotated_n(o, n)),
            None => None,
        },
    }
}

pub open spec fn rotated_effects(es: Seq<EffectView>) -> Seq<EffectView> {
    es.map_values(|e: EffectView| rotated_effect(e))
}

pub open spec fn rotated_effects_n(es: Seq<EffectView>, n: nat) -> Seq<EffectView> {
    es.map_values(|e: EffectView| rotated_effect_n(e, n))
}

/// Turn one offset a quarter clockwise.
pub fn rotate_coord(c: Coord) -> (r: Coord)
    requires
        rotatable(c),
    ensures
        r == rot(c),
{
    Coord { x: c.y, y: -c.x }
}

/// The shape turned a quarter clockwise.
pub fn rotate_shape(shape: &Vec<Coord>) -> (r: Vec<Coord>)
    requires
        shape_rotatable(shape@),
    ensures
        r@ == rotated(shape@),
{
    let mut out: Vec<Coord> = Vec::new();
    let mut i: usize = 0;
    while i < shape.len()
        invariant
            i <= shape@.len(),
            shape_rotatable(shape@),
            out@ == rotated(shape@.subrange(0, i as int)),
        decreases shape@.len() - i,
    {
        out.push(rotate_coord(shape[i]));
        i = i + 1;
        assert(out@ =~= rotated(shape@.subrange(0, i as int)));
    }
    assert(shape@.subrange(0, i as int) =~= shape@);
    out
}

/// The shape can be given `n` quarter turns one after another.
pub open spec fn turnable(s: Seq<Coord>, n: nat) -> bool {
    forall|t: nat| t < n ==> shape_rotatable(#[trigger] rotated_n(s, t))
}

/// The effect offsets can be given `n` quarter turns one after another.
pub open spec fn effects_turnable(es: Seq<EffectView>, n: nat) -> bool {
    forall|t: nat| t < n ==> effects_rotatable(#[trigger] rotated_effects_n(es, t))
}

/// The shape and effects given `turns` quarter turns.
pub fn turn_shape_and_effects(shape: &Vec<Coord>, effects: &Vec<GameEffect>, turns: u32) -> (r: (Vec<Coord>, Vec<GameEffect>))
    requires
        turnable(shape@, turns as nat),
        effects_turnable(effects_view(effects@), turns as nat),
    ensures
        r.0@ == rotated_n(shape@, turns as nat),
        effects_view(r.1@) == rotated_effects_n(effects_view(effects@), turns as nat),
{
    let mut s = copy_coords(shape);
    let mut es = copy_effects(effects);
    proof {
        lemma_rotated_n_zero(shape@, effects_view(effects@));
    }
    let mut t: u32 = 0;
    while t < turns
        invariant
            t <= turns,
            turnable(shape@, turns as nat),
            effects_turnable(effects_view(effects@), turns as nat),
            s@ == rotated_n(shape@, t as nat),
            effects_view(es@) == rotated_effects_n(effects_view(effects@), t as nat),
        decreases turns - t,
    {
        assert(shape_rotatable(rotated_n(shape@, t as nat)));
        assert(effects_rotatable(rotated_effects_n(effects_view(effects@), t as nat)));
        s = rotate_shape(&s);
        rotate_effects(&mut es);
        proof {
            lemma_rotated_n_succ(shape@, t as nat);
            lemma_rotated_effects_n_succ(effects_view(effects@), t as nat);
        }
        t = t + 1;
    }
    (s, es)
}

/// Whether the shape can be turned a quarter.
pub fn shape_can_rotate(shape: &Vec<Coord>) -> (r: bool)
    ensures
        r == shape_rotatable(shape@),
{
    let mut i: usize = 0;
    while i < shape.len()
        invariant
            i <= shape@.len(),
            forall|j: int| 0 <= j < i ==> rotatable(#[trigger] shape@[j]),
        decreases shape@.len() - i,
    {
        if shape[i].x == i32::MIN {
            return false;
        }
        i = i + 1;
    }
    true
}

/// Whether the offsets of every effect can be turned a quarter.
pub fn effects_can_rotate(effects: &Vec<GameEffect>) -> (r: bool)
    ensures
        r == effects_rotatable(effects_view(effects@)),
{
    let ghost es = effects_view(effects@);
    let mut i: usize = 0;
    while i < effects.len()
        invariant
            i <= effects@.len(),
            es == effects_view(effects@),
            forall|j: int| 0 <= j < i ==> effect_rotatable(#[trigger] es[j]),
        decreases effects@.len() - i,
    {
        assert(es[i as int] == effects@[i as int]@);
        match &effects[i].offsets {
            Some(o) => {
                if !shape_can_rotate(o) {
                    assert(!effect_rotatable(es[i as int]));
                    return false;
                }
            },
            None => {},
        }
        i = i + 1;
    }
    true
}

/// Whether the shape and the effects can be given `turns` quarter turns.
pub fn can_turn(shape: &Vec<Coord>, effects: &Vec<GameEffect>, turns: u32) -> (r: bool)
    ensures
        r == (turnable(shape@, turns as nat) && effects_turnable(effects_view(effects@), turns as nat)),
{
    let mut s = copy_coords(shape);
    let mut es = copy_effects(effects);
    proof {
        lemma_rotated_n_zero(shape@, effects_view(effects@));
    }
    let mut t: u32 = 0;
    while t < turns
        invariant
            t <= turns,
            s@ == rotated_n(shape@, t as nat),
            effects_view(es@) == rotated_effects_n(effects_view(effects@), t as nat),
            turnable(shape@, t as nat),
            effects_turnable(effects_view(effects@), t as nat),
        decreases turns - t,
    {
        if !shape_can_rotate(&s) {
            assert(!shape_rotatable(rotated_n(shape@, t as nat)));
            return false;
        }
        if !effects_can_rotate(&es) {
            assert(!effects_rotatable(rotated_effects_n(effects_view(effects@), t as nat)));
            return false;
        }
        s = rotate_shape(&s);
        rotate_effects(&mut es);
        proof {
            lemma_rotated_n_succ(shape@, t as nat);
            lemma_rotated_effects_n_succ(effects_view(effects@), t as nat);
            assert forall|u: nat| u < t + 1 implies shape_rotatable(#[trigger] rotated_n(shape@, u)) by {
                if u < t {
                    assert(turnable(shape@, t as nat));
                }
            }
            assert forall|u: nat| u < t + 1 implies effects_rotatable(
                #[trigger] rotated_effects_n(effects_view(effects@), u),
            ) by {
                if u < t {
                    assert(effects_turnable(effects_view(effects@), t as nat));
                }
            }
        }
        t = t + 1;
    }
    true
}

/// An exact copy of a list of offsets.
pub fn copy_coords(v: &Vec<Coord>) -> (r: Vec<Coord>)
    ensures
        r@ == v@,
{
    let mut out: Vec<Coord> = Vec::new();
    let mut i: usize = 0;
    while i < v.len()
        invariant
            i <= v@.len(),
            out@ == v@.subrange(0, i as int),
        decreases v@.len() - i,
    {
        out.push(v[i]);
        i = i + 1;
    }
    assert(out@ =~= v@);
    out
}

/// An exact copy of an effect.
pub fn copy_effect(e: &GameEffect) -> (r: GameEffect)
    ensures
        r@ == e@,
{
    GameEffect {
        condition: e.condition,
        points: e.points,
        offsets: match &e.offsets {
            Some(o) => Some(copy_coords(o)),
            None => None,
        },
    }
}

/// An exact copy of a list of effects.
pub fn copy_effects(v: &Vec<GameEffect>) -> (r: Vec<GameEffect>)
    ensures
        effects_view(r@) == effects_view(v@),
{
    let mut out: Vec<GameEffect> = Vec::new();
    let mut i: usize = 0;
    while i < v.len()
        invariant
            i <= v@.len(),
            out@.len() == i,
            forall|j: int| 0 <= j < i ==> (#[trigger] out@[j])@ == v@[j]@,
        decreases v@.len() - i,
    {
        out.push(copy_effect(&v[i]));
        i = i + 1;
    }
    assert(effects_view(out@) =~= effects_view(v@));
    out
}

/// An exact copy of a piece.
pub fn copy_piece(p: &Piece) -> (r: Piece)
    ensures
        r@ == p@,
{
    Piece {
        type_id: p.type_id,
        shape: copy_coords(&p.shape),
        original_shape: copy_coords(&p.original_shape),
        color: p.color,
        points: p.points,
        effects: copy_effects(&p.effects),
        original_effects: copy_effects(&p.original_effects),
        placed_at: p.placed_at,
        board_side: p.board_side,
    }
}

/// An exact copy of a list of pieces.
pub fn copy_pieces(v: &Vec<Piece>) -> (r: Vec<Piece>)
    ensures
        pieces_view(r@) == pieces_view(v@),
{
    let mut out: Vec<Piece> = Vec::new();
    let mut i: usize = 0;
    while i < v.len()
        invariant
            i <= v@.len(),
            out@.len() == i,
            forall|j: int| 0 <= j < i ==> (#[trigger] out@[j])@ == v@[j]@,
        decreases v@.len() - i,
    {
        out.push(copy_piece(&v[i]));
        i = i + 1;
    }
    assert(pieces_view(out@) =~= pieces_view(v@));
    out
}

/// The effect with its offsets turned a quarter clockwise.
pub fn rotate_effect(e: &GameEffect) -> (r: GameEffect)
    requires
        effect_rotatable(e@),
    ensures
        r@ == rotated_effect(e@),
{
    GameEffect {
        condition: e.condition,
        points: e.points,
        offsets: match &e.offsets {
            Some(o) => Some(rotate_shape(o)),
            None => None,
        },
    }
}

/// Turn the offsets of every effect a quarter clockwise.
pub fn rotate_effects(effects: &mut Vec<GameEffect>)
    requires
        effects_rotatable(effects_view(old(effects)@)),
    ensures
        effects_view(final(effects)@) == rotated_effects(effects_view(old(effects)@)),
{
    let mut out: Vec<GameEffect> = Vec::new();
    let mut i: usize = 0;
    while i < effects.len()
        invariant
            i <= effects@.len(),
            effects_rotatable(effects_view(effects@)),
            out@.len() == i,
            forall|j: int| 0 <= j < i ==> (#[trigger] out@[j])@ == rotated_effect(effects@[j]@),
        decreases effects@.len() - i,
    {
        assert(effect_rotatable(effects_view(effects@)[i as int]));
        out.push(rotate_effect(&effects[i]));
        i = i + 1;
    }
    assert(effects_view(out@) =~= rotated_effects(effects_view(effects@)));
    *effects = out;
}

/// Turn a piece a quarter clockwise: its shape and its effect offsets.
pub fn rotate_piece(piece: &mut Piece)
    requires
        shape_rotatable(old(piece)@.shape),
        effects_rotatable(old(piece)@.effects),
    ensures
        final(piece)@ == (PieceView {
            shape: rotated(old(piece)@.shape),
            effects: rotated_effects(old(piece)@.effects),
            ..old(piece)@
        }),
{
    let shape = rotate_shape(&piece.shape);
    piece.shape = shape;
    rotate_effects(&mut piece.effects);
}

/// Put back the shape and effects the piece started with.
pub fn reset_piece(piece: &mut Piece)
    ensures
        final(piece)@ == (PieceView {
            shape: old(piece)@.original_shape,
            effects: old(piece)@.original_effects,
            ..old(piece)@
        }),
{
    piece.shape = copy_coords(&piece.original_shape);
    piece.effects = copy_effects(&piece.original_effects);
}

/// Four quarter turns bring every offset back to where it was.
pub proof fn lemma_rot_four(c: Coord)
    requires
        freely_rotatable(c),
    ensures
        rot_n(c, 4) == c,
        rotatable(c),
        rotatable(rot_n(c, 1)),
        rotatable(rot_n(c, 2)),
        rotatable(rot_n(c, 3)),
{
    reveal_with_fuel(rot_n, 5);
    assert(rot_n(c, 1) == rot(c));
    assert(rot_n(c, 2) == rot(rot(c)));
    assert(rot_n(c, 3) == rot(rot(rot(c))));
    assert(rot_n(c, 4) == rot(rot(rot(rot(c)))));
}

/// Rotating a shape four times, one quarter turn at a time, gives back the
/// shape (when no coordinate is `i32::MIN`).
pub proof fn lemma_shape_rotates_back(s: Seq<Coord>)
    requires
        shape_freely_rotatable(s),
    ensures
        shape_rotatable(s),
        shape_rotatable(rotated(s)),
        shape_rotatable(rotated(rotated(s))),
        shape_rotatable(rotated(rotated(rotated(s)))),
        rotated(rotated(rotated(rotated(s)))) == s,
{
    assert forall|i: int| 0 <= i < s.len() implies rotated(rotated(rotated(rotated(s))))[i]
        == s[i] && rotatable(#[trigger] s[i]) && rotatable(rotated(s)[i]) && rotatable(
        rotated(rotated(s))[i],
    ) && rotatable(rotated(rotated(rotated(s)))[i]) by {
        lemma_rot_four(s[i]);
    }
    assert(rotated(rotated(rotated(rotated(s)))) =~= s);
}

/// Rotating a piece four times restores its shape and effects.
pub proof fn lemma_piece_rotates_back(p: PieceView)
    requires
        shape_freely_rotatable(p.shape),
        effects_freely_rotatable(p.effects),
    ensures
        shape_rotatable(p.shape),
        effects_rotatable(p.effects),
        shape_rotatable(rotated(p.shape)),
        effects_rotatable(rotated_effects(p.effects)),
        shape_rotatable(rotated(rotated(p.shape))),
        effects_rotatable(rotated_effects(rotated_effects(p.effects))),
        shape_rotatable(rotated(rotated(rotated(p.shape)))),
        effects_rotatable(rotated_effects(rotated_effects(rotated_effects(p.effects)))),
        rotated(rotated(rotated(rotated(p.shape)))) == p.shape,
        rotated_effects(rotated_effects(rotated_effects(rotated_effects(p.effects)))) == p.effects,
{
    lemma_shape_rotates_back(p.shape);
    let es = p.effects;
    let r1 = rotated_effects(es);
    let r2 = rotated_effects(r1);
    let r3 = rotated_effects(r2);
    let r4 = rotated_effects(r3);
    assert forall|i: int| 0 <= i < es.len() implies r4[i] == es[i] && effect_rotatable(
        #[trigger] es[i],
    ) && effect_rotatable(r1[i]) && effect_rotatable(r2[i]) && effect_rotatable(r3[i]) by {
        match es[i].offsets {
            Some(o) => {
                lemma_shape_rotates_back(o);
            },
            None => {},
        }
    }
    assert(r4 =~= es);
}

/// One more quarter turn of an already turned shape.
pub proof fn lemma_rotated_n_succ(s: Seq<Coord>, n: nat)
    ensures
        rotated_n(s, n + 1) == rotated(rotated_n(s, n)),
{
    assert(rotated_n(s, n + 1) =~= rotated(rotated_n(s, n)));
}

pub proof fn lemma_rotated_effects_n_succ(es: Seq<EffectView>, n: nat)
    ensures
        rotated_effects_n(es, n + 1) == rotated_effects(rotated_effects_n(es, n)),
{
    assert forall|i: int| 0 <= i < es.len() implies rotated_effects_n(es, n + 1)[i] == rotated_effects(
        rotated_effects_n(es, n),
    )[i] by {
        match es[i].offsets {
            Some(o) => {
                lemma_rotated_n_succ(o, n);
            },
            None => {},
        }
    }
    assert(rotated_effects_n(es, n + 1) =~= rotated_effects(rotated_effects_n(es, n)));
}

pub proof fn lemma_rotated_n_zero(s: Seq<Coord>, es: Seq<EffectView>)
    ensures
        rotated_n(s, 0) == s,
        rotated_effects_n(es, 0) == es,
{
    assert(rotated_n(s, 0) =~= s);
    assert forall|i: int| 0 <= i < es.len() implies rotated_effects_n(es, 0)[i] == es[i] by {
        match es[i].offsets {
            Some(o) => {
                assert(rotated_n(o, 0) =~= o);
            },
            None => {},
        }
    }
    assert(rotated_effects_n(es, 0) =~= es);
}

/// Up to three quarter turns of a freely rotatable shape can be turned again.
pub proof fn lemma_rotated_n_rotatable(s: Seq<Coord>, es: Seq<EffectView>, n: nat)
    requires
        shape_freely_rotatable(s),
        effects_freely_rotatable(es),
        n < 4,
    ensures
        shape_rotatable(rotated_n(s, n)),
        effects_rotatable(rotated_effects_n(es, n)),
{
    assert forall|i: int| 0 <= i < s.len() implies rotatable(#[trigger] rotated_n(s, n)[i]) by {
        lemma_rot_four(s[i]);
    }
    assert forall|i: int| 0 <= i < es.len() implies effect_rotatable(
        #[trigger] rotated_effects_n(es, n)[i],
    ) by {
        assert(effect_freely_rotatable(es[i]));
        match es[i].offsets {
            Some(o) => {
                assert forall|j: int| 0 <= j < o.len() implies rotatable(
                    #[trigger] rotated_n(o, n)[j],
                ) by {
                    lemma_rot_four(o[j]);
                }
            },
            None => {},
        }
    }
}

} // verus!
