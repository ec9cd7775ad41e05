//! Scoring: what each effect earns, what each piece contributes, and the
//! board's total.
//!
//! Two rule sets are used. `ScoreRules::Board` is the score shown during
//! play: offset effects may use any condition (a no-colour condition at an
//! offset looks at the whole board), and effects without offsets check a
//! colour or emptiness condition at the piece's origin. `ScoreRules::Lookahead`
//! is the score the computer opponent and the puzzle checker compute: a
//! no-colour condition at an offset never holds, and effects without offsets
//! only count when they are no-colour conditions.
use vstd::prelude::*;

use crate::board::{covers, pt, shape_covers, shift, shift_exec, within, within_exec, CellMap, CellSet, Coord, PieceColor};
use crate::model::{EffectCondition, EffectView, GameEffect, GameState, Piece, PieceView, pieces_view};

verus! {

/// Which of the two scoring rule sets applies.
#[derive(Clone, Copy, PartialEq, Eq, Structural, Debug)]
pub enum ScoreRules {
    Board,
    Lookahead,
}

/// Everything a score depends on: the rules, the occupied cells, all pieces
/// (for size conditions), and the board size.
pub struct ScoreCtx {
    pub rules: ScoreRules,
    pub cells: Map<(int, int), PieceColor>,
    pub ps: Seq<PieceView>,
    pub size: Coord,
}

pub open spec fn ctx_of(rules: ScoreRules, cells: &CellMap, pieces: &Vec<Piece>, size: Coord) -> ScoreCtx {
    ScoreCtx { rules, cells: cells@, ps: pieces_view(pieces@), size }
}

pub open spec fn fits_i32(v: int) -> bool {
    i32::MIN <= v <= i32::MAX
}

/// A placed piece covers the point.
pub open spec fn piece_covers(pc: PieceView, p: (int, int)) -> bool {
    match pc.placed_at {
        Some(pos) => covers(pos, pc.shape, p),
        None => false,
    }
}

/// The size of the first piece from index `i` on that covers the point.
pub open spec fn covering_from(ps: Seq<PieceView>, p: (int, int), i: int) -> Option<nat>
    decreases ps.len() - i,
{
    if i < 0 || i >= ps.len() {
        None
    } else if piece_covers(ps[i], p) {
        Some(ps[i].shape.len())
    } else {
        covering_from(ps, p, i + 1)
    }
}

/// The size (cell count) of the first placed piece that covers the point.
pub open spec fn covering_size(ps: Seq<PieceView>, p: (int, int)) -> Option<nat> {
    covering_from(ps, p, 0)
}

pub open spec fn has_color(cells: Map<(int, int), PieceColor>, c: PieceColor) -> bool {
    exists|p: (int, int)| #[trigger] cells.contains_key(p) && cells[p] == c
}

pub open spec fn has_color_outside(
    cells: Map<(int, int), PieceColor>,
    c: PieceColor,
    pos: Coord,
    shape: Seq<Coord>,
) -> bool {
    exists|p: (int, int)| #[trigger] cells.contains_key(p) && !covers(pos, shape, p) && cells[p] == c
}

/// Whether a condition holds at an optional target cell.
pub open spec fn condition_holds(
    rules: ScoreRules,
    cond: EffectCondition,
    target: Option<(int, int)>,
    cells: Map<(int, int), PieceColor>,
    ps: Seq<PieceView>,
) -> bool {
    match cond {
        EffectCondition::MatchesColor(c) => match target {
            Some(p) => cells.contains_key(p) && cells[p] == c,
            None => false,
        },
        EffectCondition::IsEmpty => match target {
            Some(p) => !cells.contains_key(p),
            None => false,
        },
        EffectCondition::NoColorOnBoard(c) => rules == ScoreRules::Board && !has_color(cells, c),
        EffectCondition::MatchesSize(n) => match target {
            Some(p) => covering_size(ps, p) == Some(n as nat),
            None => false,
        },
    }
}

/// Whether an effect without offsets holds for the piece placed at `pos`.
pub open spec fn untargeted_met(
    ctx: ScoreCtx,
    cond: EffectCondition,
    pos: Coord,
    shape: Seq<Coord>,
) -> bool {
    match cond {
        EffectCondition::NoColorOnBoard(c) => !has_color_outside(ctx.cells, c, pos, shape),
        EffectCondition::MatchesSize(_) => false,
        _ => ctx.rules == ScoreRules::Board && condition_holds(
            ctx.rules,
            cond,
            Some(pt(pos)),
            ctx.cells,
            ctx.ps,
        ),
    }
}

/// Running total after the first `k` offsets of an effect.
pub open spec fn offsets_total(
    ctx: ScoreCtx,
    acc: int,
    pos: Coord,
    e: EffectView,
    offs: Seq<Coord>,
    k: int,
) -> int
    decreases k,
{
    if k <= 0 {
        acc
    } else {
        let a = offsets_total(ctx, acc, pos, e, offs, k - 1);
        let p = shift(pos, offs[k - 1]);
        if within(p, ctx.size) && condition_holds(ctx.rules, e.condition, Some(p), ctx.cells, ctx.ps) {
            a + e.points
        } else {
            a
        }
    }
}

/// Every running total over the first `k` offsets fits in an `i32`.
pub open spec fn offsets_in_range(
    ctx: ScoreCtx,
    acc: int,
    pos: Coord,
    e: EffectView,
    offs: Seq<Coord>,
    k: int,
) -> bool
    decreases k,
{
    if k <= 0 {
        true
    } else {
        offsets_in_range(ctx, acc, pos, e, offs, k - 1) && fits_i32(
            offsets_total(ctx, acc, pos, e, offs, k),
        )
    }
}

/// Running total after one effect of the piece placed at `pos`.
pub open spec fn effect_total(ctx: ScoreCtx, acc: int, pos: Coord, shape: Seq<Coord>, e: EffectView) -> int {
    match e.offsets {
        Some(o) => offsets_total(ctx, acc, pos, e, o, o.len() as int),
        None => if untargeted_met(ctx, e.condition, pos, shape) {
            acc + e.points
        } else {
            acc
        },
    }
}

pub open spec fn effect_in_range(
    ctx: ScoreCtx,
    acc: int,
    pos: Coord,
    shape: Seq<Coord>,
    e: EffectView,
) -> bool {
    match e.offsets {
        Some(o) => offsets_in_range(ctx, acc, pos, e, o, o.len() as int),
        None => fits_i32(effect_total(ctx, acc, pos, shape, e)),
    }
}

/// Running total after the first `k` effects of the piece placed at `pos`.
pub open spec fn effects_total(
    ctx: ScoreCtx,
    acc: int,
    pos: Coord,
    shape: Seq<Coord>,
    es: Seq<EffectView>,
    k: int,
) -> int
    decreases k,
{
    if k <= 0 {
        acc
    } else {
        effect_total(ctx, effects_total(ctx, acc, pos, shape, es, k - 1), pos, shape, es[k - 1])
    }
}

pub open spec fn effects_in_range(
    ctx: ScoreCtx,
    acc: int,
    pos: Coord,
    shape: Seq<Coord>,
    es: Seq<EffectView>,
    k: int,
) -> bool
    decreases k,
{
    if k <= 0 {
        true
    } else {
        effects_in_range(ctx, acc, pos, shape, es, k - 1) && effect_in_range(
            ctx,
            effects_total(ctx, acc, pos, shape, es, k - 1),
            pos,
            shape,
            es[k - 1],
        )
    }
}

/// Running total after a piece: unplaced pieces add nothing; placed pieces
/// add their points and then their effects.
pub open spec fn piece_total(ctx: ScoreCtx, acc: int, pc: PieceView) -> int {
    match pc.placed_at {
        Some(pos) => effects_total(ctx, acc + pc.points, pos, pc.shape, pc.effects, pc.effects.len() as int),
        None => acc,
    }
}

pub open spec fn piece_in_range(ctx: ScoreCtx, acc: int, pc: PieceView) -> bool {
    match pc.placed_at {
        Some(pos) => fits_i32(acc + pc.points) && effects_in_range(
            ctx,
            acc + pc.points,
            pos,
            pc.shape,
            pc.effects,
            pc.effects.len() as int,
        ),
        None => true,
    }
}

/// Running total after the first `k` pieces of the context.
pub open spec fn pieces_total(ctx: ScoreCtx, k: int) -> int
    decreases k,
{
    if k <= 0 {
        0
    } else {
        piece_total(ctx, pieces_total(ctx, k - 1), ctx.ps[k - 1])
    }
}

pub open spec fn pieces_in_range(ctx: ScoreCtx, k: int) -> bool
    decreases k,
{
    if k <= 0 {
        true
    } else {
        pieces_in_range(ctx, k - 1) && piece_in_range(ctx, pieces_total(ctx, k - 1), ctx.ps[k - 1])
    }
}

/// The score of the board: the sum over placed pieces.
pub open spec fn board_score(ctx: ScoreCtx) -> int {
    pieces_total(ctx, ctx.ps.len() as int)
}

/// Computing the board score never leaves the `i32` range.
pub open spec fn score_in_range(ctx: ScoreCtx) -> bool {
    pieces_in_range(ctx, ctx.ps.len() as int)
}

/// What one piece contributes: its points, plus its effects when placed.
pub open spec fn contribution(ctx: ScoreCtx, pc: PieceView) -> int {
    match pc.placed_at {
        Some(pos) => effects_total(ctx, pc.points as int, pos, pc.shape, pc.effects, pc.effects.len() as int),
        None => pc.points as int,
    }
}

pub open spec fn contribution_in_range(ctx: ScoreCtx, pc: PieceView) -> bool {
    match pc.placed_at {
        Some(pos) => effects_in_range(ctx, pc.points as int, pos, pc.shape, pc.effects, pc.effects.len() as int),
        None => true,
    }
}

// ---------------------------------------------------------------------------
// Range lemmas: a range condition on a whole loop covers each of its prefixes.
// ---------------------------------------------------------------------------
proof fn lemma_offsets_prefix(ctx: ScoreCtx, acc: int, pos: Coord, e: EffectView, offs: Seq<Coord>, k: int, n: int)
    requires
        0 <= k <= n,
        offsets_in_range(ctx, acc, pos, e, offs, n),
    ensures
        offsets_in_range(ctx, acc, pos, e, offs, k),
    decreases n - k,
{
    if k < n {
        lemma_offsets_prefix(ctx, acc, pos, e, offs, k, n - 1);
    }
}

proof fn lemma_effects_prefix(ctx: ScoreCtx, acc: int, pos: Coord, shape: Seq<Coord>, es: Seq<EffectView>, k: int, n: int)
    requires
        0 <= k <= n,
        effects_in_range(ctx, acc, pos, shape, es, n),
    ensures
        effects_in_range(ctx, acc, pos, shape, es, k),
    decreases n - k,
{
    if k < n {
        lemma_effects_prefix(ctx, acc, pos, shape, es, k, n - 1);
    }
}

proof fn lemma_pieces_prefix(ctx: ScoreCtx, k: int, n: int)
    requires
        0 <= k <= n,
        pieces_in_range(ctx, n),
    ensures
        pieces_in_range(ctx, k),
    decreases n - k,
{
    if k < n {
        lemma_pieces_prefix(ctx, k, n - 1);
    }
}

/// When every running total stays in range, so does the result.
proof fn lemma_offsets_result(ctx: ScoreCtx, acc: int, pos: Coord, e: EffectView, offs: Seq<Coord>, k: int)
    requires
        fits_i32(acc),
        offsets_in_range(ctx, acc, pos, e, offs, k),
    ensures
        fits_i32(offsets_total(ctx, acc, pos, e, offs, k)),
    decreases k,
{
}

proof fn lemma_effects_result(ctx: ScoreCtx, acc: int, pos: Coord, shape: Seq<Coord>, es: Seq<EffectView>, k: int)
    requires
        fits_i32(acc),
        effects_in_range(ctx, acc, pos, shape, es, k),
    ensures
        fits_i32(effects_total(ctx, acc, pos, shape, es, k)),
    decreases k,
{
    if k > 0 {
        lemma_effects_result(ctx, acc, pos, shape, es, k - 1);
        let a = effects_total(ctx, acc, pos, shape, es, k - 1);
        let e = es[k - 1];
        match e.offsets {
            Some(o) => {
                lemma_offsets_result(ctx, a, pos, e, o, o.len() as int);
            },
            None => {},
        }
    }
}

proof fn lemma_pieces_result(ctx: ScoreCtx, k: int)
    requires
        pieces_in_range(ctx, k),
    ensures
        fits_i32(pieces_total(ctx, k)),
    decreases k,
{
    if k > 0 {
        lemma_pieces_result(ctx, k - 1);
        let a = pieces_total(ctx, k - 1);
        let pc = ctx.ps[k - 1];
        match pc.placed_at {
            Some(pos) => {
                lemma_effects_result(ctx, a + pc.points, pos, pc.shape, pc.effects, pc.effects.len() as int);
            },
            None => {},
        }
    }
}

// ---------------------------------------------------------------------------
// Conditions
// ---------------------------------------------------------------------------
proof fn lemma_covering_skip(ps: Seq<PieceView>, p: (int, int), i: int)
    requires
        0 <= i <= ps.len(),
        forall|k: int| 0 <= k < i ==> !piece_covers(#[trigger] ps[k], p),
    ensures
        covering_size(ps, p) == covering_from(ps, p, i),
    decreases i,
{
    if i > 0 {
        lemma_covering_skip(ps, p, i - 1);
        assert(!piece_covers(ps[i - 1], p));
    }
}

/// The size of the first placed piece covering the point, if any.
pub fn covering_piece_size(pieces: &Vec<Piece>, px: i64, py: i64) -> (r: Option<usize>)
    ensures
        match r {
            Some(n) => covering_size(pieces_view(pieces@), (px as int, py as int)) == Some(n as nat),
            None => covering_size(pieces_view(pieces@), (px as int, py as int)) is None,
        },
{
    let ghost ps = pieces_view(pieces@);
    let ghost p = (px as int, py as int);
    let mut i: usize = 0;
    while i < pieces.len()
        invariant
            i <= pieces@.len(),
            ps == pieces_view(pieces@),
            p == (px as int, py as int),
            forall|k: int| 0 <= k < i ==> !piece_covers(#[trigger] ps[k], p),
        decreases pieces@.len() - i,
    {
        let piece = &pieces[i];
        assert(ps[i as int] == piece@);
        match piece.placed_at {
            Some(pos) => {
                if shape_covers(pos, &piece.shape, px, py) {
                    proof {
                        lemma_covering_skip(ps, p, i as int);
                        assert(piece_covers(ps[i as int], p));
                        assert(covering_from(ps, p, i as int) == Some(ps[i as int].shape.len()));
                    }
                    return Some(piece.shape.len());
                }
                assert(!piece_covers(ps[i as int], p));
            },
            None => {
                assert(!piece_covers(ps[i as int], p));
            },
        }
        i = i + 1;
    }
    proof {
        lemma_covering_skip(ps, p, i as int);
    }
    None
}


/// Whether a condition holds at a target point given as 64-bit integers.
fn condition_at(
    rules: ScoreRules,
    cond: EffectCondition,
    px: i64,
    py: i64,
    board_cells: &CellMap,
    pieces: &Vec<Piece>,
) -> (r: bool)
    ensures
        r == condition_holds(rules, cond, Some((px as int, py as int)), board_cells@, pieces_view(pieces@)),
{
    match cond {
        EffectCondition::MatchesColor(c) => match board_cells.get_point(px, py) {
            Some(bc) => bc == c,
            None => false,
        },
        EffectCondition::IsEmpty => board_cells.get_point(px, py).is_none(),
        EffectCondition::NoColorOnBoard(c) => rules == ScoreRules::Board && !board_cells.has_color(c),
        EffectCondition::MatchesSize(n) => match covering_piece_size(pieces, px, py) {
            Some(s) => s == n,
            None => false,
        },
    }
}

/// Whether a condition holds at an optional target cell, without piece sizes:
/// a size condition never holds here.
pub fn check_condition(cond: &EffectCondition, target: Option<Coord>, board_cells: &CellMap) -> (r: bool)
    ensures
        r == match *cond {
            EffectCondition::MatchesSize(_) => false,
            _ => condition_holds(
                ScoreRules::Board,
                *cond,
                match target {
                    Some(t) => Some(pt(t)),
                    None => None,
                },
                board_cells@,
                Seq::empty(),
            ),
        },
{
    match *cond {
        EffectCondition::MatchesColor(c) => match target {
            Some(cell) => match board_cells.get(cell) {
                Some(bc) => bc == c,
                None => false,
            },
            None => false,
        },
        EffectCondition::IsEmpty => match target {
            Some(cell) => !board_cells.contains_key(cell),
            None => false,
        },
        EffectCondition::NoColorOnBoard(c) => !board_cells.has_color(c),
        EffectCondition::MatchesSize(_) => false,
    }
}

/// Whether a condition holds at an optional target cell; size conditions
/// look at the first placed piece covering the target.
pub fn check_condition_with_sizes(
    cond: &EffectCondition,
    target: Option<Coord>,
    board_cells: &CellMap,
    pieces: &Vec<Piece>,
) -> (r: bool)
    ensures
        r == condition_holds(
            ScoreRules::Board,
            *cond,
            match target {
                Some(t) => Some(pt(t)),
                None => None,
            },
            board_cells@,
            pieces_view(pieces@),
        ),
{
    match target {
        Some(cell) => condition_at(ScoreRules::Board, *cond, cell.x as i64, cell.y as i64, board_cells, pieces),
        None => match *cond {
            EffectCondition::NoColorOnBoard(c) => !board_cells.has_color(c),
            _ => false,
        },
    }
}

/// Whether no cell outside `exclude_cells` has the colour.
pub fn no_color_on_board_excluding(board_cells: &CellMap, color: &PieceColor, exclude_cells: &CellSet) -> (r: bool)
    ensures
        r == !exists|p: (int, int)|
            #[trigger] board_cells@.contains_key(p) && !exclude_cells@.contains(p) && board_cells@[p]
                == *color,
{
    !board_cells.has_color_outside(*color, exclude_cells)
}

// ---------------------------------------------------------------------------
// Totals
// ---------------------------------------------------------------------------
fn offsets_points(
    rules: ScoreRules,
    e: &GameEffect,
    offs: &Vec<Coord>,
    pos: Coord,
    board_cells: &CellMap,
    pieces: &Vec<Piece>,
    board_size: Coord,
    acc: i32,
) -> (r: i32)
    requires
        e@.offsets == Some(offs@),
        offsets_in_range(ctx_of(rules, board_cells, pieces, board_size), acc as int, pos, e@, offs@, offs@.len() as int),
    ensures
        r == offsets_total(ctx_of(rules, board_cells, pieces, board_size), acc as int, pos, e@, offs@, offs@.len() as int),
{
    let ghost ctx = ctx_of(rules, board_cells, pieces, board_size);
    let mut total = acc;
    let mut k: usize = 0;
    while k < offs.len()
        invariant
            k <= offs@.len(),
            ctx == ctx_of(rules, board_cells, pieces, board_size),
            offsets_in_range(ctx, acc as int, pos, e@, offs@, offs@.len() as int),
            total == offsets_total(ctx, acc as int, pos, e@, offs@, k as int),
        decreases offs@.len() - k,
    {
        proof {
            lemma_offsets_prefix(ctx, acc as int, pos, e@, offs@, k + 1, offs@.len() as int);
        }
        let (px, py) = shift_exec(pos, offs[k]);
        if within_exec(px, py, board_size) && condition_at(rules, e.condition, px, py, board_cells, pieces) {
            total = total + e.points;
        }
        k = k + 1;
    }
    total
}

fn untargeted_at(
    rules: ScoreRules,
    cond: EffectCondition,
    pos: Coord,
    shape: &Vec<Coord>,
    board_cells: &CellMap,
    pieces: &Vec<Piece>,
    board_size: Coord,
) -> (r: bool)
    ensures
        r == untargeted_met(ctx_of(rules, board_cells, pieces, board_size), cond, pos, shape@),
{
    match cond {
        EffectCondition::NoColorOnBoard(c) => !board_cells.has_color_outside_shape(c, pos, shape),
        EffectCondition::MatchesSize(_) => false,
        _ => rules == ScoreRules::Board && condition_at(rules, cond, pos.x as i64, pos.y as i64, board_cells, pieces),
    }
}

fn effect_points(
    rules: ScoreRules,
    e: &GameEffect,
    pos: Coord,
    shape: &Vec<Coord>,
    board_cells: &CellMap,
    pieces: &Vec<Piece>,
    board_size: Coord,
    acc: i32,
) -> (r: i32)
    requires
        effect_in_range(ctx_of(rules, board_cells, pieces, board_size), acc as int, pos, shape@, e@),
    ensures
        r == effect_total(ctx_of(rules, board_cells, pieces, board_size), acc as int, pos, shape@, e@),
{
    match &e.offsets {
        Some(offs) => offsets_points(rules, e, offs, pos, board_cells, pieces, board_size, acc),
        None => {
            if untargeted_at(rules, e.condition, pos, shape, board_cells, pieces, board_size) {
                acc + e.points
            } else {
                acc
            }
        },
    }
}

fn effects_points(
    rules: ScoreRules,
    effects: &Vec<GameEffect>,
    pos: Coord,
    shape: &Vec<Coord>,
    board_cells: &CellMap,
    pieces: &Vec<Piece>,
    board_size: Coord,
    acc: i32,
) -> (r: i32)
    requires
        effects_in_range(
            ctx_of(rules, board_cells, pieces, board_size),
            acc as int,
            pos,
            shape@,
            crate::model::effects_view(effects@),
            effects@.len() as int,
        ),
    ensures
        r == effects_total(
            ctx_of(rules, board_cells, pieces, board_size),
            acc as int,
            pos,
            shape@,
            crate::model::effects_view(effects@),
            effects@.len() as int,
        ),
{
    let ghost ctx = ctx_of(rules, board_cells, pieces, board_size);
    let ghost es = crate::model::effects_view(effects@);
    let mut total = acc;
    let mut k: usize = 0;
    while k < effects.len()
        invariant
            k <= effects@.len(),
            ctx == ctx_of(rules, board_cells, pieces, board_size),
            es == crate::model::effects_view(effects@),
            effects_in_range(ctx, acc as int, pos, shape@, es, effects@.len() as int),
            total == effects_total(ctx, acc as int, pos, shape@, es, k as int),
        decreases effects@.len() - k,
    {
        proof {
            lemma_effects_prefix(ctx, acc as int, pos, shape@, es, k + 1, effects@.len() as int);
        }
        assert(es[k as int] == effects@[k as int]@);
        total = effect_points(rules, &effects[k], pos, shape, board_cells, pieces, board_size, total);
        k = k + 1;
    }
    total
}

fn piece_points(
    rules: ScoreRules,
    piece: &Piece,
    board_cells: &CellMap,
    pieces: &Vec<Piece>,
    board_size: Coord,
    acc: i32,
) -> (r: i32)
    requires
        piece_in_range(ctx_of(rules, board_cells, pieces, board_size), acc as int, piece@),
    ensures
        r == piece_total(ctx_of(rules, board_cells, pieces, board_size), acc as int, piece@),
{
    match piece.placed_at {
        Some(pos) => {
            let start = acc + piece.points;
            effects_points(rules, &piece.effects, pos, &piece.shape, board_cells, pieces, board_size, start)
        },
        None => acc,
    }
}

/// The board score under the given rules.
pub fn score_total(rules: ScoreRules, board_cells: &CellMap, pieces: &Vec<Piece>, board_size: Coord) -> (r: i32)
    requires
        score_in_range(ctx_of(rules, board_cells, pieces, board_size)),
    ensures
        r == board_score(ctx_of(rules, board_cells, pieces, board_size)),
{
    let ghost ctx = ctx_of(rules, board_cells, pieces, board_size);
    let mut total: i32 = 0;
    let mut i: usize = 0;
    while i < pieces.len()
        invariant
            i <= pieces@.len(),
            ctx == ctx_of(rules, board_cells, pieces, board_size),
            ctx.ps.len() == pieces@.len(),
            pieces_in_range(ctx, pieces@.len() as int),
            total == pieces_total(ctx, i as int),
        decreases pieces@.len() - i,
    {
        proof {
            lemma_pieces_prefix(ctx, i + 1, pieces@.len() as int);
        }
        assert(ctx.ps[i as int] == pieces@[i as int]@);
        total = piece_points(rules, &pieces[i], board_cells, pieces, board_size, total);
        i = i + 1;
    }
    total
}

/// The score shown on a board: every placed piece's points, plus the points
/// of each of its effects that holds.
pub fn recalculate_score_with_size(board_cells: &CellMap, pieces: &Vec<Piece>, board_size: Coord) -> (r: i32)
    requires
        score_in_range(ctx_of(ScoreRules::Board, board_cells, pieces, board_size)),
    ensures
        r == board_score(ctx_of(ScoreRules::Board, board_cells, pieces, board_size)),
{
    score_total(ScoreRules::Board, board_cells, pieces, board_size)
}

/// The score as the computer opponent and the puzzle checker compute it.
pub fn recalculate_score_from_vectors(board_cells: &CellMap, pieces: &Vec<Piece>, board_size: Coord) -> (r: i32)
    requires
        score_in_range(ctx_of(ScoreRules::Lookahead, board_cells, pieces, board_size)),
    ensures
        r == board_score(ctx_of(ScoreRules::Lookahead, board_cells, pieces, board_size)),
{
    score_total(ScoreRules::Lookahead, board_cells, pieces, board_size)
}

/// Store the board score of a single-board game in its state.
pub fn recalculate_score_system(state: &mut GameState, pieces: &Vec<Piece>, board_size: Coord)
    requires
        score_in_range(ctx_of(ScoreRules::Board, &old(state).board_cells, pieces, board_size)),
    ensures
        final(state).score == board_score(ctx_of(ScoreRules::Board, &old(state).board_cells, pieces, board_size)),
        final(state).board_cells@ == old(state).board_cells@,
        final(state).disabled_cells@ == old(state).disabled_cells@,
{
    let s = recalculate_score_with_size(&state.board_cells, pieces, board_size);
    state.score = s;
}

/// What one piece contributes to the board score: its points, plus, when it
/// is placed, the points of each of its effects that holds.
pub fn compute_piece_contribution(piece: &Piece, board_cells: &CellMap, pieces: &Vec<Piece>, board_size: Coord) -> (r: i32)
    requires
        contribution_in_range(ctx_of(ScoreRules::Board, board_cells, pieces, board_size), piece@),
    ensures
        r == contribution(ctx_of(ScoreRules::Board, board_cells, pieces, board_size), piece@),
{
    match piece.placed_at {
        Some(pos) => effects_points(
            ScoreRules::Board,
            &piece.effects,
            pos,
            &piece.shape,
            board_cells,
            pieces,
            board_size,
            piece.points,
        ),
        None => piece.points,
    }
}

// ---------------------------------------------------------------------------
// The board score is the sum of the contributions of the placed pieces.
// ---------------------------------------------------------------------------
proof fn lemma_offsets_shift(ctx: ScoreCtx, acc: int, pos: Coord, e: EffectView, offs: Seq<Coord>, k: int)
    ensures
        offsets_total(ctx, acc, pos, e, offs, k) == acc + offsets_total(ctx, 0, pos, e, offs, k),
    decreases k,
{
    if k > 0 {
        lemma_offsets_shift(ctx, acc, pos, e, offs, k - 1);
    }
}

proof fn lemma_effect_shift(ctx: ScoreCtx, acc: int, pos: Coord, shape: Seq<Coord>, e: EffectView)
    ensures
        effect_total(ctx, acc, pos, shape, e) == acc + effect_total(ctx, 0, pos, shape, e),
{
    match e.offsets {
        Some(o) => lemma_offsets_shift(ctx, acc, pos, e, o, o.len() as int),
        None => {},
    }
}

proof fn lemma_effects_shift(ctx: ScoreCtx, acc: int, pos: Coord, shape: Seq<Coord>, es: Seq<EffectView>, k: int)
    ensures
        effects_total(ctx, acc, pos, shape, es, k) == acc + effects_total(ctx, 0, pos, shape, es, k),
    decreases k,
{
    if k > 0 {
        lemma_effects_shift(ctx, acc, pos, shape, es, k - 1);
        let a = effects_total(ctx, acc, pos, shape, es, k - 1);
        let z = effects_total(ctx, 0, pos, shape, es, k - 1);
        lemma_effect_shift(ctx, a, pos, shape, es[k - 1]);
        lemma_effect_shift(ctx, z, pos, shape, es[k - 1]);
    }
}

/// Sum of the contributions of the placed pieces among the first `k`.
pub open spec fn placed_contributions(ctx: ScoreCtx, k: int) -> int
    decreases k,
{
    if k <= 0 {
        0
    } else {
        placed_contributions(ctx, k - 1) + if ctx.ps[k - 1].placed_at is Some {
            contribution(ctx, ctx.ps[k - 1])
        } else {
            0
        }
    }
}

/// The board score equals the sum of what the placed pieces contribute (the
/// numbers shown next to each placed piece add up to the score).
pub proof fn lemma_score_is_sum_of_contributions(ctx: ScoreCtx)
    ensures
        board_score(ctx) == placed_contributions(ctx, ctx.ps.len() as int),
{
    lemma_pieces_sum(ctx, ctx.ps.len() as int);
}

proof fn lemma_pieces_sum(ctx: ScoreCtx, k: int)
    ensures
        pieces_total(ctx, k) == placed_contributions(ctx, k),
    decreases k,
{
    if k > 0 {
        lemma_pieces_sum(ctx, k - 1);
        let pc = ctx.ps[k - 1];
        let a = pieces_total(ctx, k - 1);
        match pc.placed_at {
            Some(pos) => {
                lemma_effects_shift(ctx, a + pc.points, pos, pc.shape, pc.effects, pc.effects.len() as int);
                lemma_effects_shift(ctx, pc.points as int, pos, pc.shape, pc.effects, pc.effects.len() as int);
            },
            None => {},
        }
    }
}


// ---------------------------------------------------------------------------
// The board score does not depend on the order of the pieces.
// ---------------------------------------------------------------------------
/// No point is covered by two placed pieces.
pub open spec fn placed_disjoint(ps: Seq<PieceView>) -> bool {
    forall|i: int, j: int, p: (int, int)|
        0 <= i < ps.len() && 0 <= j < ps.len() && i != j && #[trigger] piece_covers(ps[i], p) ==> !#[trigger] piece_covers(
            ps[j],
            p,
        )
}

/// The scoring context with another list of pieces.
pub open spec fn with_pieces(ctx: ScoreCtx, ps: Seq<PieceView>) -> ScoreCtx {
    ScoreCtx { rules: ctx.rules, cells: ctx.cells, ps, size: ctx.size }
}

/// What a piece adds to the score: its contribution when placed, else nothing.
pub open spec fn worth(ctx: ScoreCtx, pc: PieceView) -> int {
    if pc.placed_at is Some {
        contribution(ctx, pc)
    } else {
        0
    }
}

/// The sum of what the pieces of `s` add, all scored in `ctx`.
pub open spec fn worth_sum(ctx: ScoreCtx, s: Seq<PieceView>) -> int
    decreases s.len(),
{
    if s.len() == 0 {
        0
    } else {
        worth_sum(ctx, s.drop_last()) + worth(ctx, s.last())
    }
}

proof fn lemma_placed_contributions_worth(ctx: ScoreCtx, k: int)
    requires
        0 <= k <= ctx.ps.len(),
    ensures
        placed_contributions(ctx, k) == worth_sum(ctx, ctx.ps.take(k)),
    decreases k,
{
    if k > 0 {
        lemma_placed_contributions_worth(ctx, k - 1);
        assert(ctx.ps.take(k).drop_last() =~= ctx.ps.take(k - 1));
    }
}

proof fn lemma_covering_from(s: Seq<PieceView>, p: (int, int), i: int)
    requires
        0 <= i <= s.len(),
    ensures
        covering_from(s, p, i) is None <==> forall|k: int| i <= k < s.len() ==> !#[trigger] piece_covers(s[k], p),
        covering_from(s, p, i) matches Some(n) ==> exists|k: int|
            i <= k < s.len() && #[trigger] piece_covers(s[k], p) && s[k].shape.len() == n,
    decreases s.len() - i,
{
    if i < s.len() && !piece_covers(s[i], p) {
        lemma_covering_from(s, p, i + 1);
    }
}

/// With disjoint pieces, the piece covering a point is found whatever the
/// order, and pieces that cover nothing there change nothing.
proof fn lemma_same_covering(ps1: Seq<PieceView>, ps2: Seq<PieceView>, p: (int, int))
    requires
        placed_disjoint(ps1),
        forall|x: PieceView| #[trigger] ps2.contains(x) && piece_covers(x, p) ==> ps1.contains(x),
        forall|i: int| 0 <= i < ps1.len() && #[trigger] piece_covers(ps1[i], p) ==> ps2.contains(ps1[i]),
    ensures
        covering_size(ps1, p) == covering_size(ps2, p),
{
    lemma_covering_from(ps1, p, 0);
    lemma_covering_from(ps2, p, 0);
    match covering_size(ps1, p) {
        None => {
            if covering_size(ps2, p) is Some {
                let j = choose|k: int| 0 <= k < ps2.len() && #[trigger] piece_covers(ps2[k], p) && ps2[k].shape.len()
                    == covering_size(ps2, p)->Some_0;
                assert(ps2.contains(ps2[j]));
                let k = choose|k: int| 0 <= k < ps1.len() && ps1[k] == ps2[j];
                assert(piece_covers(ps1[k], p));
            }
        },
        Some(n) => {
            let i0 = choose|k: int| 0 <= k < ps1.len() && #[trigger] piece_covers(ps1[k], p) && ps1[k].shape.len() == n;
            assert(ps2.contains(ps1[i0]));
            let j0 = choose|k: int| 0 <= k < ps2.len() && ps2[k] == ps1[i0];
            assert(piece_covers(ps2[j0], p));
            let j = choose|k: int| 0 <= k < ps2.len() && #[trigger] piece_covers(ps2[k], p) && ps2[k].shape.len()
                == covering_size(ps2, p)->Some_0;
            assert(ps2.contains(ps2[j]));
            let k = choose|k: int| 0 <= k < ps1.len() && ps1[k] == ps2[j];
            assert(piece_covers(ps1[k], p));
            assert(k == i0);
        },
    }
}

proof fn lemma_offsets_same(c1: ScoreCtx, c2: ScoreCtx, acc: int, pos: Coord, e: EffectView, offs: Seq<Coord>, k: int)
    requires
        c1.rules == c2.rules,
        c1.cells == c2.cells,
        c1.size == c2.size,
        forall|p: (int, int)| #[trigger] covering_size(c1.ps, p) == covering_size(c2.ps, p),
    ensures
        offsets_total(c1, acc, pos, e, offs, k) == offsets_total(c2, acc, pos, e, offs, k),
    decreases k,
{
    if k > 0 {
        lemma_offsets_same(c1, c2, acc, pos, e, offs, k - 1);
        assert(covering_size(c1.ps, shift(pos, offs[k - 1])) == covering_size(c2.ps, shift(pos, offs[k - 1])));
    }
}

proof fn lemma_effects_same(
    c1: ScoreCtx,
    c2: ScoreCtx,
    acc: int,
    pos: Coord,
    shape: Seq<Coord>,
    es: Seq<EffectView>,
    k: int,
)
    requires
        c1.rules == c2.rules,
        c1.cells == c2.cells,
        c1.size == c2.size,
        forall|p: (int, int)| #[trigger] covering_size(c1.ps, p) == covering_size(c2.ps, p),
    ensures
        effects_total(c1, acc, pos, shape, es, k) == effects_total(c2, acc, pos, shape, es, k),
    decreases k,
{
    if k > 0 {
        lemma_effects_same(c1, c2, acc, pos, shape, es, k - 1);
        let a = effects_total(c1, acc, pos, shape, es, k - 1);
        let e = es[k - 1];
        match e.offsets {
            Some(o) => lemma_offsets_same(c1, c2, a, pos, e, o, o.len() as int),
            None => {
                assert(covering_size(c1.ps, pt(pos)) == covering_size(c2.ps, pt(pos)));
            },
        }
    }
}

proof fn lemma_worth_sum_same(c1: ScoreCtx, c2: ScoreCtx, s: Seq<PieceView>)
    requires
        c1.rules == c2.rules,
        c1.cells == c2.cells,
        c1.size == c2.size,
        forall|p: (int, int)| #[trigger] covering_size(c1.ps, p) == covering_size(c2.ps, p),
    ensures
        worth_sum(c1, s) == worth_sum(c2, s),
    decreases s.len(),
{
    if s.len() > 0 {
        lemma_worth_sum_same(c1, c2, s.drop_last());
        let pc = s.last();
        match pc.placed_at {
            Some(pos) => lemma_effects_same(c1, c2, pc.points as int, pos, pc.shape, pc.effects, pc.effects.len() as int),
            None => {},
        }
    }
}

proof fn lemma_worth_sum_remove(ctx: ScoreCtx, s: Seq<PieceView>, j: int)
    requires
        0 <= j < s.len(),
    ensures
        worth_sum(ctx, s) == worth_sum(ctx, s.remove(j)) + worth(ctx, s[j]),
    decreases s.len(),
{
    if j == s.len() - 1 {
        assert(s.remove(j) =~= s.drop_last());
    } else {
        lemma_worth_sum_remove(ctx, s.drop_last(), j);
        assert(s.remove(j).drop_last() =~= s.drop_last().remove(j));
        assert(s.remove(j).last() == s.last());
    }
}

proof fn lemma_worth_sum_permuted(ctx: ScoreCtx, s1: Seq<PieceView>, s2: Seq<PieceView>)
    requires
        s1.to_multiset() == s2.to_multiset(),
    ensures
        worth_sum(ctx, s1) == worth_sum(ctx, s2),
    decreases s1.len(),
{
    broadcast use vstd::seq_lib::to_multiset_contains, vstd::seq_lib::to_multiset_len;

    if s1.len() == 0 {
        assert(s1.to_multiset().len() == s1.len());
        assert(s2.to_multiset().len() == s2.len());
    } else {
        let x = s1.last();
        assert(s1.to_multiset().contains(x)) by {
            assert(s1.contains(x));
        }
        assert(s2.contains(x));
        let j = choose|j: int| 0 <= j < s2.len() && s2[j] == x;
        vstd::seq_lib::to_multiset_remove(s1, s1.len() - 1);
        vstd::seq_lib::to_multiset_remove(s2, j);
        assert(s1.remove(s1.len() - 1) =~= s1.drop_last());
        lemma_worth_sum_permuted(ctx, s1.drop_last(), s2.remove(j));
        lemma_worth_sum_remove(ctx, s2, j);
    }
}

/// The board score does not depend on the order of the pieces, nor on pieces
/// that are not placed: when no point is covered by two placed pieces,
/// listing the same pieces in any order, or adding an unplaced piece, gives
/// the same score.
pub proof fn lemma_score_ignores_order(ctx: ScoreCtx, reordered: Seq<PieceView>, unplaced: PieceView)
    requires
        placed_disjoint(ctx.ps),
        reordered.to_multiset() == ctx.ps.to_multiset(),
        unplaced.placed_at is None,
    ensures
        board_score(with_pieces(ctx, reordered)) == board_score(ctx),
        board_score(with_pieces(ctx, ctx.ps.push(unplaced))) == board_score(ctx),
{
    broadcast use vstd::seq_lib::to_multiset_contains;

    let c2 = with_pieces(ctx, reordered);
    let c3 = with_pieces(ctx, ctx.ps.push(unplaced));
    assert forall|p: (int, int)| #[trigger] covering_size(ctx.ps, p) == covering_size(c2.ps, p) by {
        assert forall|x: PieceView| #[trigger] reordered.contains(x) && piece_covers(x, p) implies ctx.ps.contains(x) by {
            assert(reordered.to_multiset().contains(x));
        }
        assert forall|i: int| 0 <= i < ctx.ps.len() && #[trigger] piece_covers(ctx.ps[i], p) implies reordered.contains(
            ctx.ps[i],
        ) by {
            assert(ctx.ps.contains(ctx.ps[i]));
            assert(ctx.ps.to_multiset().contains(ctx.ps[i]));
        }
        lemma_same_covering(ctx.ps, reordered, p);
    }
    assert forall|p: (int, int)| #[trigger] covering_size(ctx.ps, p) == covering_size(c3.ps, p) by {
        assert forall|x: PieceView| #[trigger] c3.ps.contains(x) && piece_covers(x, p) implies ctx.ps.contains(x) by {
            let k = choose|k: int| 0 <= k < c3.ps.len() && c3.ps[k] == x;
            if k == ctx.ps.len() {
                assert(!piece_covers(unplaced, p));
            } else {
                assert(ctx.ps[k] == x);
            }
        }
        assert forall|i: int| 0 <= i < ctx.ps.len() && #[trigger] piece_covers(ctx.ps[i], p) implies c3.ps.contains(
            ctx.ps[i],
        ) by {
            assert(c3.ps[i] == ctx.ps[i]);
        }
        lemma_same_covering(ctx.ps, c3.ps, p);
    }
    lemma_score_is_sum_of_contributions(ctx);
    lemma_score_is_sum_of_contributions(c2);
    lemma_score_is_sum_of_contributions(c3);
    lemma_placed_contributions_worth(ctx, ctx.ps.len() as int);
    lemma_placed_contributions_worth(c2, c2.ps.len() as int);
    lemma_placed_contributions_worth(c3, c3.ps.len() as int);
    assert(ctx.ps.take(ctx.ps.len() as int) =~= ctx.ps);
    assert(c2.ps.take(c2.ps.len() as int) =~= c2.ps);
    assert(c3.ps.take(c3.ps.len() as int) =~= c3.ps);
    lemma_worth_sum_same(ctx, c2, reordered);
    lemma_worth_sum_permuted(ctx, reordered, ctx.ps);
    lemma_worth_sum_same(ctx, c3, c3.ps);
    assert(c3.ps.drop_last() =~= ctx.ps);
}


// ---------------------------------------------------------------------------
// Size conditions
// ---------------------------------------------------------------------------
/// Piece `i` is the first placed piece of `ps` that covers `p`.
pub open spec fn first_cover(ps: Seq<PieceView>, p: (int, int), i: int) -> bool {
    &&& 0 <= i < ps.len()
    &&& piece_covers(ps[i], p)
    &&& forall|j: int| 0 <= j < i ==> !#[trigger] piece_covers(ps[j], p)
}

proof fn lemma_covering_from_first(s: Seq<PieceView>, p: (int, int), i: int)
    requires
        0 <= i <= s.len(),
    ensures
        covering_from(s, p, i) matches Some(m) ==> exists|k: int|
            i <= k < s.len() && #[trigger] piece_covers(s[k], p) && s[k].shape.len() == m && forall|j: int|
                i <= j < k ==> !piece_covers(s[j], p),
    decreases s.len() - i,
{
    if i < s.len() && !piece_covers(s[i], p) {
        lemma_covering_from_first(s, p, i + 1);
        if covering_from(s, p, i + 1) is Some {
            let m = covering_from(s, p, i + 1)->Some_0;
            let k = choose|k: int|
                i + 1 <= k < s.len() && #[trigger] piece_covers(s[k], p) && s[k].shape.len() == m && forall|j: int|
                    i + 1 <= j < k ==> !piece_covers(s[j], p);
            assert(forall|j: int| i <= j < k ==> !piece_covers(s[j], p));
        }
    }
}

/// A size condition `MatchesSize(n)` holds at a target exactly when the
/// first placed piece covering the target has exactly `n` cells; a target
/// covered by no placed piece, or first by a piece of any other size, fails.
pub proof fn lemma_size_condition_exact(
    rules: ScoreRules,
    n: usize,
    p: (int, int),
    cells: Map<(int, int), PieceColor>,
    ps: Seq<PieceView>,
)
    ensures
        condition_holds(rules, EffectCondition::MatchesSize(n), Some(p), cells, ps) <==> exists|i: int|
            #[trigger] first_cover(ps, p, i) && ps[i].shape.len() == n,
{
    lemma_covering_from_first(ps, p, 0);
    if exists|i: int| #[trigger] first_cover(ps, p, i) && ps[i].shape.len() == n {
        let i = choose|i: int| #[trigger] first_cover(ps, p, i) && ps[i].shape.len() == n;
        lemma_covering_skip(ps, p, i);
    }
    if condition_holds(rules, EffectCondition::MatchesSize(n), Some(p), cells, ps) {
        let k = choose|k: int|
            0 <= k < ps.len() && #[trigger] piece_covers(ps[k], p) && ps[k].shape.len() == n && forall|j: int|
                0 <= j < k ==> !piece_covers(ps[j], p);
        assert(first_cover(ps, p, k));
    }
}

/// A placed piece whose one effect is `MatchesSize(n)` at one offset aiming
/// on the board contributes its points, plus the effect's points exactly
/// when the first placed piece covering the target has exactly `n` cells.
pub proof fn lemma_size_effect_contribution(ctx: ScoreCtx, pc: PieceView, pos: Coord, e: EffectView, off: Coord, n: usize)
    requires
        pc.placed_at == Some(pos),
        pc.effects == seq![e],
        e.condition == EffectCondition::MatchesSize(n),
        e.offsets == Some(seq![off]),
        within(shift(pos, off), ctx.size),
    ensures
        contribution(ctx, pc) == pc.points + if exists|i: int|
            #[trigger] first_cover(ctx.ps, shift(pos, off), i) && ctx.ps[i].shape.len() == n {
            e.points as int
        } else {
            0
        },
{
    lemma_size_condition_exact(ctx.rules, n, shift(pos, off), ctx.cells, ctx.ps);
    let o = seq![off];
    assert(o[0] == off);
    assert(offsets_total(ctx, pc.points as int, pos, e, o, 0) == pc.points);
    assert(effects_total(ctx, pc.points as int, pos, pc.shape, pc.effects, 0) == pc.points);
}


// ---------------------------------------------------------------------------
// Effect previews and stash labels
// ---------------------------------------------------------------------------
/// Whether the preview of an effect offset lights up: the piece is placed,
/// the target cell lies on the board, and the condition holds there (size
/// conditions look at the pieces).
pub fn effect_preview_active(
    placed_at: Option<Coord>,
    offset: Coord,
    cond: &EffectCondition,
    board_cells: &CellMap,
    pieces: &Vec<Piece>,
    board_size: Coord,
) -> (r: bool)
    ensures
        r == match placed_at {
            Some(pos) => within(shift(pos, offset), board_size) && condition_holds(
                ScoreRules::Board,
                *cond,
                Some(shift(pos, offset)),
                board_cells@,
                pieces_view(pieces@),
            ),
            None => false,
        },
{
    match placed_at {
        Some(pos) => {
            let (px, py) = shift_exec(pos, offset);
            if within_exec(px, py, board_size) {
                let target = crate::board::coord_from(px, py, board_size);
                check_condition_with_sizes(cond, Some(target), board_cells, pieces)
            } else {
                false
            }
        },
        None => false,
    }
}

/// Whether the preview of an effect offset of a puzzle piece lights up: as
/// above, except that size conditions never do.
pub fn puzzle_effect_preview_active(
    placed_at: Option<Coord>,
    offset: Coord,
    cond: &EffectCondition,
    board_cells: &CellMap,
    board_size: Coord,
) -> (r: bool)
    ensures
        r == match placed_at {
            Some(pos) => within(shift(pos, offset), board_size) && match *cond {
                EffectCondition::MatchesSize(_) => false,
                _ => condition_holds(ScoreRules::Board, *cond, Some(shift(pos, offset)), board_cells@, Seq::empty()),
            },
            None => false,
        },
{
    match placed_at {
        Some(pos) => {
            let (px, py) = shift_exec(pos, offset);
            if within_exec(px, py, board_size) {
                let target = crate::board::coord_from(px, py, board_size);
                check_condition(cond, Some(target), board_cells)
            } else {
                false
            }
        },
        None => false,
    }
}

/// Which player a piece or a stash label belongs to.
#[derive(Clone, Copy, PartialEq, Eq, Structural, Debug)]
pub enum Owner {
    Player,
    Opponent,
    Unowned,
}

/// A piece counts for a stash label: same piece type, not placed, resting in
/// the stash (not lifted), and of the label's owner (a label without owner
/// counts pieces of any owner).
pub open spec fn counts_for_label(pc: PieceView, owner: Owner, lifted: bool, type_id: usize, label_owner: Owner) -> bool {
    &&& pc.type_id == type_id
    &&& pc.placed_at is None
    &&& !lifted
    &&& (label_owner == Owner::Player && owner == Owner::Player) || (label_owner == Owner::Opponent && owner
        == Owner::Opponent) || label_owner == Owner::Unowned
}

/// How many of the first `k` pieces count for the label.
pub open spec fn label_count(
    ps: Seq<PieceView>,
    owners: Seq<Owner>,
    lifted: Seq<bool>,
    type_id: usize,
    label_owner: Owner,
    k: int,
) -> nat
    decreases k,
{
    if k <= 0 {
        0
    } else {
        label_count(ps, owners, lifted, type_id, label_owner, k - 1) + if counts_for_label(
            ps[k - 1],
            owners[k - 1],
            lifted[k - 1],
            type_id,
            label_owner,
        ) {
            1nat
        } else {
            0nat
        }
    }
}

/// The number a stash label shows: how many pieces of its type wait in the
/// stash for its owner.
pub fn update_stash_labels(
    type_id: usize,
    label_owner: Owner,
    pieces: &Vec<Piece>,
    owners: &Vec<Owner>,
    lifted: &Vec<bool>,
) -> (n: usize)
    requires
        owners@.len() == pieces@.len(),
        lifted@.len() == pieces@.len(),
    ensures
        n as nat == label_count(pieces_view(pieces@), owners@, lifted@, type_id, label_owner, pieces@.len() as int),
{
    let mut n: usize = 0;
    let mut j: usize = 0;
    while j < pieces.len()
        invariant
            j <= pieces@.len(),
            owners@.len() == pieces@.len(),
            lifted@.len() == pieces@.len(),
            n <= j,
            n as nat == label_count(pieces_view(pieces@), owners@, lifted@, type_id, label_owner, j as int),
        decreases pieces@.len() - j,
    {
        let p = &pieces[j];
        assert(pieces_view(pieces@)[j as int] == p@);
        let owner = owners[j];
        if p.type_id == type_id && p.placed_at.is_none() && !lifted[j] && ((label_owner == Owner::Player && owner
            == Owner::Player) || (label_owner == Owner::Opponent && owner == Owner::Opponent) || label_owner
            == Owner::Unowned) {
            n = n + 1;
        }
        j = j + 1;
    }
    n
}


// ---------------------------------------------------------------------------
// Checking that a score stays in range
// ---------------------------------------------------------------------------
fn offsets_checked(
    rules: ScoreRules,
    e: &GameEffect,
    offs: &Vec<Coord>,
    pos: Coord,
    board_cells: &CellMap,
    pieces: &Vec<Piece>,
    board_size: Coord,
    acc: i32,
) -> (r: Option<i32>)
    requires
        e@.offsets == Some(offs@),
    ensures
        (r is Some) == offsets_in_range(ctx_of(rules, board_cells, pieces, board_size), acc as int, pos, e@, offs@, offs@.len() as int),
        r matches Some(v) ==> v == offsets_total(ctx_of(rules, board_cells, pieces, board_size), acc as int, pos, e@, offs@, offs@.len() as int),
{
    let ghost ctx = ctx_of(rules, board_cells, pieces, board_size);
    let mut total = acc;
    let mut k: usize = 0;
    while k < offs.len()
        invariant
            k <= offs@.len(),
            ctx == ctx_of(rules, board_cells, pieces, board_size),
            offsets_in_range(ctx, acc as int, pos, e@, offs@, k as int),
            total == offsets_total(ctx, acc as int, pos, e@, offs@, k as int),
        decreases offs@.len() - k,
    {
        let (px, py) = shift_exec(pos, offs[k]);
        if within_exec(px, py, board_size) && condition_at(rules, e.condition, px, py, board_cells, pieces) {
            let t = total as i64 + e.points as i64;
            if t < i32::MIN as i64 || t > i32::MAX as i64 {
                proof {
                    if offsets_in_range(ctx, acc as int, pos, e@, offs@, offs@.len() as int) {
                        lemma_offsets_prefix(ctx, acc as int, pos, e@, offs@, k + 1, offs@.len() as int);
                    }
                }
                return None;
            }
            total = t as i32;
        }
        k = k + 1;
    }
    Some(total)
}

fn effect_checked(
    rules: ScoreRules,
    e: &GameEffect,
    pos: Coord,
    shape: &Vec<Coord>,
    board_cells: &CellMap,
    pieces: &Vec<Piece>,
    board_size: Coord,
    acc: i32,
) -> (r: Option<i32>)
    ensures
        (r is Some) == effect_in_range(ctx_of(rules, board_cells, pieces, board_size), acc as int, pos, shape@, e@),
        r matches Some(v) ==> v == effect_total(ctx_of(rules, board_cells, pieces, board_size), acc as int, pos, shape@, e@),
{
    match &e.offsets {
        Some(offs) => offsets_checked(rules, e, offs, pos, board_cells, pieces, board_size, acc),
        None => {
            if untargeted_at(rules, e.condition, pos, shape, board_cells, pieces, board_size) {
                let t = acc as i64 + e.points as i64;
                if t < i32::MIN as i64 || t > i32::MAX as i64 {
                    None
                } else {
                    Some(t as i32)
                }
            } else {
                Some(acc)
            }
        },
    }
}

fn effects_checked(
    rules: ScoreRules,
    effects: &Vec<GameEffect>,
    pos: Coord,
    shape: &Vec<Coord>,
    board_cells: &CellMap,
    pieces: &Vec<Piece>,
    board_size: Coord,
    acc: i32,
) -> (r: Option<i32>)
    ensures
        (r is Some) == effects_in_range(
            ctx_of(rules, board_cells, pieces, board_size),
            acc as int,
            pos,
            shape@,
            crate::model::effects_view(effects@),
            effects@.len() as int,
        ),
        r matches Some(v) ==> v == effects_total(
            ctx_of(rules, board_cells, pieces, board_size),
            acc as int,
            pos,
            shape@,
            crate::model::effects_view(effects@),
            effects@.len() as int,
        ),
{
    let ghost ctx = ctx_of(rules, board_cells, pieces, board_size);
    let ghost es = crate::model::effects_view(effects@);
    let mut total = acc;
    let mut k: usize = 0;
    while k < effects.len()
        invariant
            k <= effects@.len(),
            ctx == ctx_of(rules, board_cells, pieces, board_size),
            es == crate::model::effects_view(effects@),
            effects_in_range(ctx, acc as int, pos, shape@, es, k as int),
            total == effects_total(ctx, acc as int, pos, shape@, es, k as int),
        decreases effects@.len() - k,
    {
        assert(es[k as int] == effects@[k as int]@);
        match effect_checked(rules, &effects[k], pos, shape, board_cells, pieces, board_size, total) {
            Some(t) => {
                total = t;
            },
            None => {
                proof {
                    if effects_in_range(ctx, acc as int, pos, shape@, es, effects@.len() as int) {
                        lemma_effects_prefix(ctx, acc as int, pos, shape@, es, k + 1, effects@.len() as int);
                    }
                }
                return None;
            },
        }
        k = k + 1;
    }
    Some(total)
}

/// The board score under the given rules, or `None` when a running total
/// leaves the `i32` range.
pub fn checked_score(rules: ScoreRules, board_cells: &CellMap, pieces: &Vec<Piece>, board_size: Coord) -> (r: Option<i32>)
    ensures
        (r is Some) == score_in_range(ctx_of(rules, board_cells, pieces, board_size)),
        r matches Some(v) ==> v == board_score(ctx_of(rules, board_cells, pieces, board_size)),
{
    let ghost ctx = ctx_of(rules, board_cells, pieces, board_size);
    let mut total: i32 = 0;
    let mut i: usize = 0;
    while i < pieces.len()
        invariant
            i <= pieces@.len(),
            ctx == ctx_of(rules, board_cells, pieces, board_size),
            ctx.ps.len() == pieces@.len(),
            pieces_in_range(ctx, i as int),
            total == pieces_total(ctx, i as int),
        decreases pieces@.len() - i,
    {
        let piece = &pieces[i];
        assert(ctx.ps[i as int] == piece@);
        match piece.placed_at {
            Some(pos) => {
                let t = total as i64 + piece.points as i64;
                if t < i32::MIN as i64 || t > i32::MAX as i64 {
                    proof {
                        if pieces_in_range(ctx, pieces@.len() as int) {
                            lemma_pieces_prefix(ctx, i + 1, pieces@.len() as int);
                        }
                    }
                    return None;
                }
                match effects_checked(rules, &piece.effects, pos, &piece.shape, board_cells, pieces, board_size, t as i32) {
                    Some(v) => {
                        total = v;
                    },
                    None => {
                        proof {
                            if pieces_in_range(ctx, pieces@.len() as int) {
                                lemma_pieces_prefix(ctx, i + 1, pieces@.len() as int);
                            }
                        }
                        return None;
                    },
                }
            },
            None => {},
        }
        i = i + 1;
    }
    Some(total)
}

/// Whether computing the board score stays within `i32`.
pub fn score_fits(rules: ScoreRules, board_cells: &CellMap, pieces: &Vec<Piece>, board_size: Coord) -> (r: bool)
    ensures
        r == score_in_range(ctx_of(rules, board_cells, pieces, board_size)),
{
    checked_score(rules, board_cells, pieces, board_size).is_some()
}

/// Whether computing what the piece contributes stays within `i32`.
pub fn contribution_fits(piece: &Piece, board_cells: &CellMap, pieces: &Vec<Piece>, board_size: Coord) -> (r: bool)
    ensures
        r == contribution_in_range(ctx_of(ScoreRules::Board, board_cells, pieces, board_size), piece@),
{
    match piece.placed_at {
        Some(pos) => effects_checked(
            ScoreRules::Board,
            &piece.effects,
            pos,
            &piece.shape,
            board_cells,
            pieces,
            board_size,
            piece.points,
        ).is_some(),
        None => true,
    }
}

} // verus!
