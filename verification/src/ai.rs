//! The computer opponent of a duel: where it places a piece and which cell
//! of the player it blocks.
//!
//! Candidate placements are tried piece by piece, then by number of quarter
//! turns (0 to 3), then row by row (`y`), then column by column (`x`).
use vstd::prelude::*;

use crate::board::{pt, shift, shift_exec, within, within_exec, CellMap, CellSet, Coord, PieceColor};
use crate::config::{PieceType, RawPieceConfig};
use crate::model::{
    available, copy_coords, copy_effects, copy_pieces, effects_freely_rotatable, effects_view, lemma_rotated_effects_n_succ,
    lemma_rotated_n_rotatable, lemma_rotated_n_succ, lemma_rotated_n_zero, pieces_view, rotate_effects,
    effects_rotatable, rotate_shape, rotated_effects_n, rotated_n, shape_freely_rotatable, shape_rotatable, EffectView, GameEffect, GameState,
    Piece, PieceView,
};
use crate::placement::{add_piece_cells, fits, placement_fits, with_cells};
use crate::scoring::{
    board_score, checked_score, ctx_of, fits_i32, recalculate_score_from_vectors, score_in_range, ScoreCtx, ScoreRules,
};

verus! {

/// Where the computer opponent puts a piece, in which orientation.
pub struct AIPlacement {
    pub raw_config: RawPieceConfig,
    pub origin: Coord,
    pub shape: Vec<Coord>,
    pub effects: Vec<GameEffect>,
    pub color: PieceColor,
}

pub open spec fn origin_at(x: int, y: int) -> Coord {
    Coord { x: x as i32, y: y as i32 }
}

/// The candidate (piece `i`, `r` quarter turns, origin `(x, y)`) is on the board.
pub open spec fn cand_valid(n: int, size: Coord, i: int, r: int, y: int, x: int) -> bool {
    0 <= i < n && 0 <= r < 4 && 0 <= y < size.y && 0 <= x < size.x
}

/// The candidate's cells are all available.
pub open spec fn cand_fits(
    ps: Seq<PieceView>,
    cells: Map<(int, int), PieceColor>,
    disabled: Set<(int, int)>,
    size: Coord,
    i: int,
    r: int,
    y: int,
    x: int,
) -> bool {
    fits(cells, disabled, size, origin_at(x, y), rotated_n(ps[i].shape, r as nat))
}

/// No candidate tried before (i, r, y, x) fits.
pub open spec fn none_fit_before(
    ps: Seq<PieceView>,
    cells: Map<(int, int), PieceColor>,
    disabled: Set<(int, int)>,
    size: Coord,
    i: int,
    r: int,
    y: int,
    x: int,
) -> bool {
    &&& forall|i2: int, r2: int, y2: int, x2: int|
        cand_valid(i, size, i2, r2, y2, x2) ==> !#[trigger] cand_fits(ps, cells, disabled, size, i2, r2, y2, x2)
    &&& forall|r2: int, y2: int, x2: int|
        0 <= r2 < r && 0 <= y2 < size.y && 0 <= x2 < size.x ==> !#[trigger] cand_fits(
            ps,
            cells,
            disabled,
            size,
            i,
            r2,
            y2,
            x2,
        )
    &&& forall|y2: int, x2: int|
        0 <= y2 < y && 0 <= x2 < size.x ==> !#[trigger] cand_fits(ps, cells, disabled, size, i, r, y2, x2)
    &&& forall|x2: int| 0 <= x2 < x ==> !#[trigger] cand_fits(ps, cells, disabled, size, i, r, y, x2)
}

/// The candidate (i, r, y, x) is the first one that fits.
pub open spec fn first_fit_at(
    ps: Seq<PieceView>,
    cells: Map<(int, int), PieceColor>,
    disabled: Set<(int, int)>,
    size: Coord,
    i: int,
    r: int,
    y: int,
    x: int,
) -> bool {
    cand_valid(ps.len() as int, size, i, r, y, x) && cand_fits(ps, cells, disabled, size, i, r, y, x)
        && none_fit_before(ps, cells, disabled, size, i, r, y, x)
}

/// The placement puts piece `pc`, turned `r` times, at `(x, y)`.
pub open spec fn placement_matches(pl: AIPlacement, pc: PieceView, r: int, y: int, x: int) -> bool {
    &&& pl.origin == origin_at(x, y)
    &&& pl.shape@ == rotated_n(pc.shape, r as nat)
    &&& effects_view(pl.effects@) == rotated_effects_n(pc.effects, r as nat)
    &&& pl.color == pc.color
    &&& pl.raw_config.points == pc.points
    &&& pl.raw_config.shape@ == pl.shape@
    &&& pl.raw_config.color@ == Seq::<char>::empty()
    &&& pl.raw_config.effects@.len() == 0
    &&& pl.raw_config.piece_type == PieceType::Static
}

/// Every piece (shape and effect offsets) can be turned any number of times.
pub open spec fn pieces_freely_rotatable(ps: Seq<PieceView>) -> bool {
    forall|i: int|
        0 <= i < ps.len() ==> shape_freely_rotatable(#[trigger] ps[i].shape) && effects_freely_rotatable(
            ps[i].effects,
        )
}

/// Whether every cell of `shape` at `origin` is available on the board of `state`.
fn can_place(shape: &Vec<Coord>, origin: Coord, state: &GameState, board_size: Coord) -> (r: bool)
    ensures
        r == fits(state.board_cells@, state.disabled_cells@, board_size, origin, shape@),
{
    placement_fits(shape, origin, &state.board_cells, &state.disabled_cells, board_size)
}

fn make_placement(shape: &Vec<Coord>, effects: &Vec<GameEffect>, origin: Coord, piece: &Piece) -> (pl: AIPlacement)
    ensures
        pl.origin == origin,
        pl.shape@ == shape@,
        effects_view(pl.effects@) == effects_view(effects@),
        pl.color == piece.color,
        pl.raw_config.points == piece.points,
        pl.raw_config.shape@ == shape@,
        pl.raw_config.color@ == Seq::<char>::empty(),
        pl.raw_config.effects@.len() == 0,
        pl.raw_config.piece_type == PieceType::Static,
{
    AIPlacement {
        raw_config: RawPieceConfig {
            shape: copy_coords(shape),
            color: String::new(),
            points: piece.points,
            effects: Vec::new(),
            piece_type: PieceType::Static,
        },
        origin,
        shape: copy_coords(shape),
        effects: copy_effects(effects),
        color: piece.color,
    }
}

/// Every turn that the first-fit scan makes can be made: before trying
/// piece `i` with `r` turns (which happens only when no earlier candidate
/// fits), its shape and effect offsets after `r - 1` turns can be turned once
/// more.
pub open spec fn scan_turnable(
    ps: Seq<PieceView>,
    cells: Map<(int, int), PieceColor>,
    disabled: Set<(int, int)>,
    size: Coord,
) -> bool {
    forall|i: int, r: int|
        0 <= i < ps.len() && 1 <= r < 4 && #[trigger] none_fit_before(ps, cells, disabled, size, i, r, 0, 0)
            ==> shape_rotatable(rotated_n(ps[i].shape, (r - 1) as nat)) && effects_rotatable(
            rotated_effects_n(ps[i].effects, (r - 1) as nat),
        )
}

/// Pieces that can be turned freely can be turned by any scan.
pub proof fn lemma_free_pieces_scan_turnable(
    ps: Seq<PieceView>,
    cells: Map<(int, int), PieceColor>,
    disabled: Set<(int, int)>,
    size: Coord,
)
    requires
        pieces_freely_rotatable(ps),
    ensures
        scan_turnable(ps, cells, disabled, size),
{
    assert forall|i: int, r: int|
        0 <= i < ps.len() && 1 <= r < 4 && #[trigger] none_fit_before(ps, cells, disabled, size, i, r, 0, 0)
            implies shape_rotatable(rotated_n(ps[i].shape, (r - 1) as nat)) && effects_rotatable(
        rotated_effects_n(ps[i].effects, (r - 1) as nat),
    ) by {
        lemma_rotated_n_rotatable(ps[i].shape, ps[i].effects, (r - 1) as nat);
    }
}

/// The first candidate placement (in the order described above) whose cells
/// are all available on the opponent's board.
pub fn first_free_placement(draft_pieces: &Vec<Piece>, opponent_state: &GameState, board_size: Coord) -> (r: Option<AIPlacement>)
    requires
        scan_turnable(
            pieces_view(draft_pieces@),
            opponent_state.board_cells@,
            opponent_state.disabled_cells@,
            board_size,
        ),
    ensures
        match r {
            Some(pl) => exists|i: int, rr: int, y: int, x: int|
                #[trigger] first_fit_at(
                    pieces_view(draft_pieces@),
                    opponent_state.board_cells@,
                    opponent_state.disabled_cells@,
                    board_size,
                    i,
                    rr,
                    y,
                    x,
                ) && placement_matches(pl, pieces_view(draft_pieces@)[i], rr, y, x),
            None => forall|i: int, rr: int, y: int, x: int|
                cand_valid(draft_pieces@.len() as int, board_size, i, rr, y, x) ==> !#[trigger] cand_fits(
                    pieces_view(draft_pieces@),
                    opponent_state.board_cells@,
                    opponent_state.disabled_cells@,
                    board_size,
                    i,
                    rr,
                    y,
                    x,
                ),
        },
{
    let ghost ps = pieces_view(draft_pieces@);
    let ghost cells = opponent_state.board_cells@;
    let ghost dis = opponent_state.disabled_cells@;
    let mut i: usize = 0;
    while i < draft_pieces.len()
        invariant
            i <= draft_pieces@.len(),
            ps == pieces_view(draft_pieces@),
            cells == opponent_state.board_cells@,
            dis == opponent_state.disabled_cells@,
            scan_turnable(ps, cells, dis, board_size),
            none_fit_before(ps, cells, dis, board_size, i as int, 0, 0, 0),
        decreases draft_pieces@.len() - i,
    {
        let piece = &draft_pieces[i];
        assert(ps[i as int] == piece@);
        let ghost pc = piece@;
        let mut shape = copy_coords(&piece.shape);
        let mut effects = copy_effects(&piece.effects);
        proof {
            lemma_rotated_n_zero(pc.shape, pc.effects);
        }
        let mut rot: usize = 0;
        while rot < 4
            invariant
                i < draft_pieces@.len(),
                rot <= 4,
                ps == pieces_view(draft_pieces@),
                pc == ps[i as int],
                pc == piece@,
                cells == opponent_state.board_cells@,
                dis == opponent_state.disabled_cells@,
                scan_turnable(ps, cells, dis, board_size),
                rot == 0 ==> shape@ == rotated_n(pc.shape, 0),
                rot == 0 ==> effects_view(effects@) == rotated_effects_n(pc.effects, 0),
                rot > 0 ==> shape@ == rotated_n(pc.shape, (rot - 1) as nat),
                rot > 0 ==> effects_view(effects@) == rotated_effects_n(pc.effects, (rot - 1) as nat),
                none_fit_before(ps, cells, dis, board_size, i as int, rot as int, 0, 0),
            decreases 4 - rot,
        {
            if rot > 0 {
                proof {
                    assert(none_fit_before(ps, cells, dis, board_size, i as int, rot as int, 0, 0));
                    lemma_rotated_n_succ(pc.shape, (rot - 1) as nat);
                    lemma_rotated_effects_n_succ(pc.effects, (rot - 1) as nat);
                }
                shape = rotate_shape(&shape);
                rotate_effects(&mut effects);
            }
            let mut y: i32 = 0;
            while y < board_size.y
                invariant
                    i < draft_pieces@.len(),
                    rot < 4,
                    0 <= y,
                    y <= board_size.y || board_size.y <= 0,
                    ps == pieces_view(draft_pieces@),
                    pc == ps[i as int],
                    pc == piece@,
                pc == piece@,
                    cells == opponent_state.board_cells@,
                    dis == opponent_state.disabled_cells@,
                    shape@ == rotated_n(pc.shape, rot as nat),
                    effects_view(effects@) == rotated_effects_n(pc.effects, rot as nat),
                    none_fit_before(ps, cells, dis, board_size, i as int, rot as int, y as int, 0),
                decreases board_size.y - y,
            {
                let mut x: i32 = 0;
                while x < board_size.x
                    invariant
                        i < draft_pieces@.len(),
                        rot < 4,
                        0 <= y < board_size.y,
                        0 <= x,
                        x <= board_size.x || board_size.x <= 0,
                        ps == pieces_view(draft_pieces@),
                        pc == ps[i as int],
                        pc == piece@,
                    pc == piece@,
                pc == piece@,
                        cells == opponent_state.board_cells@,
                        dis == opponent_state.disabled_cells@,
                        shape@ == rotated_n(pc.shape, rot as nat),
                        effects_view(effects@) == rotated_effects_n(pc.effects, rot as nat),
                        none_fit_before(ps, cells, dis, board_size, i as int, rot as int, y as int, x as int),
                    decreases board_size.x - x,
                {
                    let origin = Coord { x, y };
                    assert(origin == origin_at(x as int, y as int));
                    if can_place(&shape, origin, opponent_state, board_size) {
                        let pl = make_placement(&shape, &effects, origin, piece);
                        assert(first_fit_at(ps, cells, dis, board_size, i as int, rot as int, y as int, x as int));
                        assert(placement_matches(pl, ps[i as int], rot as int, y as int, x as int));
                        return Some(pl);
                    }
                    x = x + 1;
                }
                proof {
                    assert forall|y2: int, x2: int|
                        0 <= y2 < y + 1 && 0 <= x2 < board_size.x implies !#[trigger] cand_fits(
                        ps,
                        cells,
                        dis,
                        board_size,
                        i as int,
                        rot as int,
                        y2,
                        x2,
                    ) by {
                        if y2 == y {
                            assert(x2 < x);
                        }
                    }
                }
                y = y + 1;
            }
            proof {
                assert forall|r2: int, y2: int, x2: int|
                    0 <= r2 < rot + 1 && 0 <= y2 < board_size.y && 0 <= x2 < board_size.x implies !#[trigger] cand_fits(
                    ps,
                    cells,
                    dis,
                    board_size,
                    i as int,
                    r2,
                    y2,
                    x2,
                ) by {
                    if r2 == rot {
                        assert(y2 < y);
                    }
                }
            }
            rot = rot + 1;
        }
        proof {
            assert forall|i2: int, r2: int, y2: int, x2: int|
                cand_valid(i + 1, board_size, i2, r2, y2, x2) implies !#[trigger] cand_fits(
                ps,
                cells,
                dis,
                board_size,
                i2,
                r2,
                y2,
                x2,
            ) by {
                if i2 == i {
                    assert(r2 < rot);
                }
            }
        }
        i = i + 1;
    }
    None
}

// ---------------------------------------------------------------------------
// Row-major scans over the cells of a board
// ---------------------------------------------------------------------------
/// Cell `(x2, y2)` comes before `(x, y)` in a row-major scan.
pub open spec fn scan_before(y2: int, x2: int, y: int, x: int) -> bool {
    y2 < y || (y2 == y && x2 < x)
}

pub open spec fn on_board(size: Coord, y: int, x: int) -> bool {
    0 <= y < size.y && 0 <= x < size.x
}

/// The cell is neither occupied nor disabled.
pub open spec fn cell_free(cells: Map<(int, int), PieceColor>, disabled: Set<(int, int)>, y: int, x: int) -> bool {
    !cells.contains_key((x, y)) && !disabled.contains((x, y))
}

/// The first cell, in row-major order, that is neither occupied nor disabled.
pub fn pick_first_free(board_cells: &CellMap, disabled: &CellSet, board_size: Coord) -> (r: Option<Coord>)
    ensures
        match r {
            Some(c) => on_board(board_size, c.y as int, c.x as int) && cell_free(
                board_cells@,
                disabled@,
                c.y as int,
                c.x as int,
            ) && forall|y2: int, x2: int|
                on_board(board_size, y2, x2) && scan_before(y2, x2, c.y as int, c.x as int) ==> !#[trigger] cell_free(
                    board_cells@,
                    disabled@,
                    y2,
                    x2,
                ),
            None => forall|y2: int, x2: int|
                on_board(board_size, y2, x2) ==> !#[trigger] cell_free(board_cells@, disabled@, y2, x2),
        },
{
    let mut y: i32 = 0;
    while y < board_size.y
        invariant
            0 <= y,
            y <= board_size.y || board_size.y <= 0,
            forall|y2: int, x2: int|
                on_board(board_size, y2, x2) && y2 < y ==> !#[trigger] cell_free(board_cells@, disabled@, y2, x2),
        decreases board_size.y - y,
    {
        let mut x: i32 = 0;
        while x < board_size.x
            invariant
                0 <= y < board_size.y,
                0 <= x,
                x <= board_size.x || board_size.x <= 0,
                forall|y2: int, x2: int|
                    on_board(board_size, y2, x2) && scan_before(y2, x2, y as int, x as int) ==> !#[trigger] cell_free(
                        board_cells@,
                        disabled@,
                        y2,
                        x2,
                    ),
            decreases board_size.x - x,
        {
            let grid = Coord { x, y };
            if !board_cells.contains_key(grid) && !disabled.contains(grid) {
                return Some(grid);
            }
            x = x + 1;
        }
        y = y + 1;
    }
    None
}

// ---------------------------------------------------------------------------
// Blocking a cell of the player
// ---------------------------------------------------------------------------
/// Running sum, over the first `k` offsets of an effect with `pts` points of
/// the piece at `pos`, of the points aimed at `cell`.
pub open spec fn block_offsets(acc: int, pos: Coord, pts: i32, offs: Seq<Coord>, k: int, cell: (int, int)) -> int
    decreases k,
{
    if k <= 0 {
        acc
    } else {
        let a = block_offsets(acc, pos, pts, offs, k - 1, cell);
        if shift(pos, offs[k - 1]) == cell {
            a + pts
        } else {
            a
        }
    }
}

pub open spec fn block_offsets_ok(acc: int, pos: Coord, pts: i32, offs: Seq<Coord>, k: int, cell: (int, int)) -> bool
    decreases k,
{
    if k <= 0 {
        true
    } else {
        block_offsets_ok(acc, pos, pts, offs, k - 1, cell) && fits_i32(block_offsets(acc, pos, pts, offs, k, cell))
    }
}

pub open spec fn block_effect(acc: int, pos: Coord, e: EffectView, cell: (int, int)) -> int {
    match e.offsets {
        Some(o) => block_offsets(acc, pos, e.points, o, o.len() as int, cell),
        None => acc,
    }
}

pub open spec fn block_effect_ok(acc: int, pos: Coord, e: EffectView, cell: (int, int)) -> bool {
    match e.offsets {
        Some(o) => block_offsets_ok(acc, pos, e.points, o, o.len() as int, cell),
        None => true,
    }
}

pub open spec fn block_effects(acc: int, pos: Coord, es: Seq<EffectView>, k: int, cell: (int, int)) -> int
    decreases k,
{
    if k <= 0 {
        acc
    } else {
        block_effect(block_effects(acc, pos, es, k - 1, cell), pos, es[k - 1], cell)
    }
}

pub open spec fn block_effects_ok(acc: int, pos: Coord, es: Seq<EffectView>, k: int, cell: (int, int)) -> bool
    decreases k,
{
    if k <= 0 {
        true
    } else {
        block_effects_ok(acc, pos, es, k - 1, cell) && block_effect_ok(
            block_effects(acc, pos, es, k - 1, cell),
            pos,
            es[k - 1],
            cell,
        )
    }
}

pub open spec fn block_pieces(ps: Seq<PieceView>, k: int, cell: (int, int)) -> int
    decreases k,
{
    if k <= 0 {
        0
    } else {
        let a = block_pieces(ps, k - 1, cell);
        match ps[k - 1].placed_at {
            Some(pos) => block_effects(a, pos, ps[k - 1].effects, ps[k - 1].effects.len() as int, cell),
            None => a,
        }
    }
}

pub open spec fn block_pieces_ok(ps: Seq<PieceView>, k: int, cell: (int, int)) -> bool
    decreases k,
{
    if k <= 0 {
        true
    } else {
        block_pieces_ok(ps, k - 1, cell) && match ps[k - 1].placed_at {
            Some(pos) => block_effects_ok(
                block_pieces(ps, k - 1, cell),
                pos,
                ps[k - 1].effects,
                ps[k - 1].effects.len() as int,
                cell,
            ),
            None => true,
        }
    }
}

/// The points of all effect offsets of the placed pieces that aim at the cell.
pub open spec fn blocked_value(ps: Seq<PieceView>, cell: (int, int)) -> int {
    block_pieces(ps, ps.len() as int, cell)
}

/// Summing those points never leaves the `i32` range.
pub open spec fn blocked_in_range(ps: Seq<PieceView>, cell: (int, int)) -> bool {
    block_pieces_ok(ps, ps.len() as int, cell)
}

proof fn lemma_block_offsets_prefix(acc: int, pos: Coord, pts: i32, offs: Seq<Coord>, k: int, n: int, cell: (int, int))
    requires
        0 <= k <= n,
        block_offsets_ok(acc, pos, pts, offs, n, cell),
    ensures
        block_offsets_ok(acc, pos, pts, offs, k, cell),
    decreases n - k,
{
    if k < n {
        lemma_block_offsets_prefix(acc, pos, pts, offs, k, n - 1, cell);
    }
}

proof fn lemma_block_effects_prefix(acc: int, pos: Coord, es: Seq<EffectView>, k: int, n: int, cell: (int, int))
    requires
        0 <= k <= n,
        block_effects_ok(acc, pos, es, n, cell),
    ensures
        block_effects_ok(acc, pos, es, k, cell),
    decreases n - k,
{
    if k < n {
        lemma_block_effects_prefix(acc, pos, es, k, n - 1, cell);
    }
}

proof fn lemma_block_pieces_prefix(ps: Seq<PieceView>, k: int, n: int, cell: (int, int))
    requires
        0 <= k <= n,
        block_pieces_ok(ps, n, cell),
    ensures
        block_pieces_ok(ps, k, cell),
    decreases n - k,
{
    if k < n {
        lemma_block_pieces_prefix(ps, k, n - 1, cell);
    }
}

fn block_offsets_exec(acc: i32, pos: Coord, pts: i32, offs: &Vec<Coord>, cx: i64, cy: i64) -> (r: i32)
    requires
        block_offsets_ok(acc as int, pos, pts, offs@, offs@.len() as int, (cx as int, cy as int)),
    ensures
        r == block_offsets(acc as int, pos, pts, offs@, offs@.len() as int, (cx as int, cy as int)),
{
    let mut total = acc;
    let mut k: usize = 0;
    while k < offs.len()
        invariant
            k <= offs@.len(),
            block_offsets_ok(acc as int, pos, pts, offs@, offs@.len() as int, (cx as int, cy as int)),
            total == block_offsets(acc as int, pos, pts, offs@, k as int, (cx as int, cy as int)),
        decreases offs@.len() - k,
    {
        proof {
            lemma_block_offsets_prefix(acc as int, pos, pts, offs@, k + 1, offs@.len() as int, (cx as int, cy as int));
        }
        let (px, py) = shift_exec(pos, offs[k]);
        if px == cx && py == cy {
            total = total + pts;
        }
        k = k + 1;
    }
    total
}

fn block_effects_exec(acc: i32, pos: Coord, effects: &Vec<GameEffect>, cx: i64, cy: i64) -> (r: i32)
    requires
        block_effects_ok(acc as int, pos, effects_view(effects@), effects@.len() as int, (cx as int, cy as int)),
    ensures
        r == block_effects(acc as int, pos, effects_view(effects@), effects@.len() as int, (cx as int, cy as int)),
{
    let ghost es = effects_view(effects@);
    let mut total = acc;
    let mut k: usize = 0;
    while k < effects.len()
        invariant
            k <= effects@.len(),
            es == effects_view(effects@),
            block_effects_ok(acc as int, pos, es, effects@.len() as int, (cx as int, cy as int)),
            total == block_effects(acc as int, pos, es, k as int, (cx as int, cy as int)),
        decreases effects@.len() - k,
    {
        proof {
            lemma_block_effects_prefix(acc as int, pos, es, k + 1, effects@.len() as int, (cx as int, cy as int));
        }
        let e = &effects[k];
        assert(es[k as int] == e@);
        match &e.offsets {
            Some(offs) => {
                total = block_offsets_exec(total, pos, e.points, offs, cx, cy);
            },
            None => {},
        }
        k = k + 1;
    }
    total
}

/// The points of all effect offsets of the placed pieces that aim at the cell.
fn blocked_points(pieces: &Vec<Piece>, cx: i64, cy: i64) -> (r: i32)
    requires
        blocked_in_range(pieces_view(pieces@), (cx as int, cy as int)),
    ensures
        r == blocked_value(pieces_view(pieces@), (cx as int, cy as int)),
{
    let ghost ps = pieces_view(pieces@);
    let mut total: i32 = 0;
    let mut i: usize = 0;
    while i < pieces.len()
        invariant
            i <= pieces@.len(),
            ps == pieces_view(pieces@),
            block_pieces_ok(ps, pieces@.len() as int, (cx as int, cy as int)),
            total == block_pieces(ps, i as int, (cx as int, cy as int)),
        decreases pieces@.len() - i,
    {
        proof {
            lemma_block_pieces_prefix(ps, i + 1, pieces@.len() as int, (cx as int, cy as int));
        }
        let piece = &pieces[i];
        assert(ps[i as int] == piece@);
        match piece.placed_at {
            Some(pos) => {
                total = block_effects_exec(total, pos, &piece.effects, cx, cy);
            },
            None => {},
        }
        i = i + 1;
    }
    total
}

proof fn lemma_block_offsets_moved(
    acc: int,
    pos: Coord,
    pos2: Coord,
    pts: i32,
    offs: Seq<Coord>,
    k: int,
    cell: (int, int),
    dx: int,
    dy: int,
)
    requires
        pos2.x == pos.x + dx,
        pos2.y == pos.y + dy,
    ensures
        block_offsets(acc, pos2, pts, offs, k, (cell.0 + dx, cell.1 + dy)) == block_offsets(acc, pos, pts, offs, k, cell),
    decreases k,
{
    if k > 0 {
        lemma_block_offsets_moved(acc, pos, pos2, pts, offs, k - 1, cell, dx, dy);
    }
}

proof fn lemma_block_effects_moved(
    acc: int,
    pos: Coord,
    pos2: Coord,
    es: Seq<EffectView>,
    k: int,
    cell: (int, int),
    dx: int,
    dy: int,
)
    requires
        pos2.x == pos.x + dx,
        pos2.y == pos.y + dy,
    ensures
        block_effects(acc, pos2, es, k, (cell.0 + dx, cell.1 + dy)) == block_effects(acc, pos, es, k, cell),
    decreases k,
{
    if k > 0 {
        lemma_block_effects_moved(acc, pos, pos2, es, k - 1, cell, dx, dy);
        let a = block_effects(acc, pos, es, k - 1, cell);
        match es[k - 1].offsets {
            Some(o) => lemma_block_offsets_moved(a, pos, pos2, es[k - 1].points, o, o.len() as int, cell, dx, dy),
            None => {},
        }
    }
}

proof fn lemma_block_pieces_moved(ps: Seq<PieceView>, ps2: Seq<PieceView>, k: int, cell: (int, int), dx: int, dy: int)
    requires
        0 <= k <= ps.len(),
        ps2.len() == ps.len(),
        forall|j: int| 0 <= j < ps.len() ==> (#[trigger] ps2[j]).effects == ps[j].effects,
        forall|j: int| 0 <= j < ps.len() ==> ((#[trigger] ps2[j]).placed_at is None <==> ps[j].placed_at is None),
        forall|j: int|
            0 <= j < ps.len() && (#[trigger] ps[j]).placed_at is Some ==> ps2[j].placed_at->Some_0.x
                == ps[j].placed_at->Some_0.x + dx && ps2[j].placed_at->Some_0.y == ps[j].placed_at->Some_0.y + dy,
    ensures
        block_pieces(ps2, k, (cell.0 + dx, cell.1 + dy)) == block_pieces(ps, k, cell),
    decreases k,
{
    if k > 0 {
        lemma_block_pieces_moved(ps, ps2, k - 1, cell, dx, dy);
        let j = k - 1;
        assert(ps2[j].effects == ps[j].effects);
        assert(ps2[j].placed_at is None <==> ps[j].placed_at is None);
        if ps[j].placed_at is Some {
            let a = block_pieces(ps, k - 1, cell);
            lemma_block_effects_moved(
                a,
                ps[j].placed_at->Some_0,
                ps2[j].placed_at->Some_0,
                ps[j].effects,
                ps[j].effects.len() as int,
                cell,
                dx,
                dy,
            );
        }
    }
}

/// Moving every placed piece by the same vector `(dx, dy)` (effects kept)
/// moves every blocked value by that vector: the points an effect offset
/// blocks land on the piece's position plus the offset.
pub proof fn lemma_blocked_value_moves(ps: Seq<PieceView>, ps2: Seq<PieceView>, dx: int, dy: int, cell: (int, int))
    requires
        ps2.len() == ps.len(),
        forall|j: int| 0 <= j < ps.len() ==> (#[trigger] ps2[j]).effects == ps[j].effects,
        forall|j: int| 0 <= j < ps.len() ==> ((#[trigger] ps2[j]).placed_at is None <==> ps[j].placed_at is None),
        forall|j: int|
            0 <= j < ps.len() && (#[trigger] ps[j]).placed_at is Some ==> ps2[j].placed_at->Some_0.x
                == ps[j].placed_at->Some_0.x + dx && ps2[j].placed_at->Some_0.y == ps[j].placed_at->Some_0.y + dy,
    ensures
        blocked_value(ps2, (cell.0 + dx, cell.1 + dy)) == blocked_value(ps, cell),
{
    lemma_block_pieces_moved(ps, ps2, ps.len() as int, cell, dx, dy);
}

/// One placed piece with one effect aimed by one offset blocks the effect's
/// points at its position plus the offset, and nothing anywhere else.
pub proof fn lemma_blocked_value_single(pc: PieceView, pos: Coord, e: EffectView, off: Coord, cell: (int, int))
    requires
        pc.placed_at == Some(pos),
        pc.effects == seq![e],
        e.offsets == Some(seq![off]),
    ensures
        blocked_value(seq![pc], cell) == if cell == shift(pos, off) {
            e.points as int
        } else {
            0
        },
{
    let ps = seq![pc];
    assert(ps[0] == pc);
    assert(seq![off][0] == off);
    assert(block_pieces(ps, 0, cell) == 0);
    assert(block_effects(0, pos, pc.effects, 0, cell) == 0);
    assert(block_offsets(0, pos, e.points, seq![off], 0, cell) == 0);
}

/// A cell at which no effect offset of a placed piece aims is worth nothing.
pub proof fn lemma_blocked_value_unaimed(ps: Seq<PieceView>, cell: (int, int))
    requires
        forall|k: int, j: int, m: int|
            0 <= k < ps.len() && (#[trigger] ps[k]).placed_at is Some && 0 <= j < ps[k].effects.len()
                && (#[trigger] ps[k].effects[j]).offsets is Some && 0 <= m < ps[k].effects[j].offsets->Some_0.len()
                ==> shift(ps[k].placed_at->Some_0, #[trigger] ps[k].effects[j].offsets->Some_0[m]) != cell,
    ensures
        blocked_value(ps, cell) == 0,
{
    lemma_unaimed_pieces(ps, ps.len() as int, cell);
}

proof fn lemma_unaimed_pieces(ps: Seq<PieceView>, k: int, cell: (int, int))
    requires
        0 <= k <= ps.len(),
        forall|k2: int, j: int, m: int|
            0 <= k2 < ps.len() && (#[trigger] ps[k2]).placed_at is Some && 0 <= j < ps[k2].effects.len()
                && (#[trigger] ps[k2].effects[j]).offsets is Some && 0 <= m < ps[k2].effects[j].offsets->Some_0.len()
                ==> shift(ps[k2].placed_at->Some_0, #[trigger] ps[k2].effects[j].offsets->Some_0[m]) != cell,
    ensures
        block_pieces(ps, k, cell) == 0,
    decreases k,
{
    if k > 0 {
        lemma_unaimed_pieces(ps, k - 1, cell);
        let pc = ps[k - 1];
        if pc.placed_at is Some {
            lemma_unaimed_effects(ps, k - 1, pc.effects.len() as int, cell);
        }
    }
}

proof fn lemma_unaimed_effects(ps: Seq<PieceView>, k: int, n: int, cell: (int, int))
    requires
        0 <= k < ps.len(),
        ps[k].placed_at is Some,
        0 <= n <= ps[k].effects.len(),
        forall|k2: int, j: int, m: int|
            0 <= k2 < ps.len() && (#[trigger] ps[k2]).placed_at is Some && 0 <= j < ps[k2].effects.len()
                && (#[trigger] ps[k2].effects[j]).offsets is Some && 0 <= m < ps[k2].effects[j].offsets->Some_0.len()
                ==> shift(ps[k2].placed_at->Some_0, #[trigger] ps[k2].effects[j].offsets->Some_0[m]) != cell,
    ensures
        block_effects(0, ps[k].placed_at->Some_0, ps[k].effects, n, cell) == 0,
    decreases n,
{
    if n > 0 {
        lemma_unaimed_effects(ps, k, n - 1, cell);
        let e = ps[k].effects[n - 1];
        match e.offsets {
            Some(o) => lemma_unaimed_offsets(ps, k, n - 1, o.len() as int, cell),
            None => {},
        }
    }
}

proof fn lemma_unaimed_offsets(ps: Seq<PieceView>, k: int, j: int, m: int, cell: (int, int))
    requires
        0 <= k < ps.len(),
        ps[k].placed_at is Some,
        0 <= j < ps[k].effects.len(),
        ps[k].effects[j].offsets is Some,
        0 <= m <= ps[k].effects[j].offsets->Some_0.len(),
        forall|k2: int, j2: int, m2: int|
            0 <= k2 < ps.len() && (#[trigger] ps[k2]).placed_at is Some && 0 <= j2 < ps[k2].effects.len()
                && (#[trigger] ps[k2].effects[j2]).offsets is Some && 0 <= m2 < ps[k2].effects[j2].offsets->Some_0.len()
                ==> shift(ps[k2].placed_at->Some_0, #[trigger] ps[k2].effects[j2].offsets->Some_0[m2]) != cell,
    ensures
        block_offsets(
            0,
            ps[k].placed_at->Some_0,
            ps[k].effects[j].points,
            ps[k].effects[j].offsets->Some_0,
            m,
            cell,
        ) == 0,
    decreases m,
{
    if m > 0 {
        lemma_unaimed_offsets(ps, k, j, m - 1, cell);
        let o = ps[k].effects[j].offsets->Some_0;
        assert(shift(ps[k].placed_at->Some_0, o[m - 1]) != cell);
    }
}

/// An available cell of the board (on it, free, not disabled).
pub open spec fn avail_at(cells: Map<(int, int), PieceColor>, disabled: Set<(int, int)>, size: Coord, y: int, x: int) -> bool {
    available(cells, disabled, size, (x, y))
}

/// The cell `c` is the one to block: available, aimed at by more than -1
/// points, aimed at by at least as many points as any available cell, and by
/// more than any available cell before it in row-major order.
pub open spec fn best_block_at(
    ps: Seq<PieceView>,
    cells: Map<(int, int), PieceColor>,
    disabled: Set<(int, int)>,
    size: Coord,
    c: Coord,
) -> bool {
    &&& avail_at(cells, disabled, size, c.y as int, c.x as int)
    &&& blocked_value(ps, pt(c)) > -1
    &&& forall|y2: int, x2: int|
        #[trigger] avail_at(cells, disabled, size, y2, x2) ==> blocked_value(ps, (x2, y2)) <= blocked_value(ps, pt(c))
    &&& forall|y2: int, x2: int|
        #[trigger] avail_at(cells, disabled, size, y2, x2) && scan_before(y2, x2, c.y as int, c.x as int)
            ==> blocked_value(ps, (x2, y2)) < blocked_value(ps, pt(c))
}

/// The available cell of the player's board at which the placed pieces aim
/// the most effect points (the first such cell in row-major order), provided
/// that is more than -1 points.
pub fn greedy_block_cell(player_state: &GameState, placed_pieces: &Vec<Piece>, board_size: Coord) -> (r: Option<Coord>)
    requires
        forall|y: int, x: int|
            #[trigger] avail_at(player_state.board_cells@, player_state.disabled_cells@, board_size, y, x)
                ==> blocked_in_range(pieces_view(placed_pieces@), (x, y)),
    ensures
        match r {
            Some(c) => best_block_at(
                pieces_view(placed_pieces@),
                player_state.board_cells@,
                player_state.disabled_cells@,
                board_size,
                c,
            ),
            None => forall|y: int, x: int|
                #[trigger] avail_at(player_state.board_cells@, player_state.disabled_cells@, board_size, y, x)
                    ==> blocked_value(pieces_view(placed_pieces@), (x, y)) <= -1,
        },
{
    let ghost ps = pieces_view(placed_pieces@);
    let ghost cells = player_state.board_cells@;
    let ghost dis = player_state.disabled_cells@;
    let mut best_cell: Option<Coord> = None;
    let mut best_value: i32 = -1;
    let mut y: i32 = 0;
    while y < board_size.y
        invariant
            0 <= y,
            y <= board_size.y || board_size.y <= 0,
            ps == pieces_view(placed_pieces@),
            cells == player_state.board_cells@,
            dis == player_state.disabled_cells@,
            forall|y2: int, x2: int|
                #[trigger] avail_at(cells, dis, board_size, y2, x2) ==> blocked_in_range(ps, (x2, y2)),
            forall|y2: int, x2: int|
                #[trigger] avail_at(cells, dis, board_size, y2, x2) && y2 < y ==> blocked_value(ps, (x2, y2))
                    <= best_value,
            match best_cell {
                Some(c) => {
                    &&& avail_at(cells, dis, board_size, c.y as int, c.x as int)
                    &&& c.y < y
                    &&& blocked_value(ps, pt(c)) == best_value
                    &&& best_value > -1
                    &&& forall|y2: int, x2: int|
                        #[trigger] avail_at(cells, dis, board_size, y2, x2) && scan_before(y2, x2, c.y as int, c.x as int)
                            ==> blocked_value(ps, (x2, y2)) < best_value
                },
                None => best_value == -1,
            },
        decreases board_size.y - y,
    {
        let mut x: i32 = 0;
        while x < board_size.x
            invariant
                0 <= y < board_size.y,
                0 <= x,
                x <= board_size.x || board_size.x <= 0,
                ps == pieces_view(placed_pieces@),
                cells == player_state.board_cells@,
                dis == player_state.disabled_cells@,
                forall|y2: int, x2: int|
                    #[trigger] avail_at(cells, dis, board_size, y2, x2) ==> blocked_in_range(ps, (x2, y2)),
                forall|y2: int, x2: int|
                    #[trigger] avail_at(cells, dis, board_size, y2, x2) && scan_before(y2, x2, y as int, x as int)
                        ==> blocked_value(ps, (x2, y2)) <= best_value,
                match best_cell {
                    Some(c) => {
                        &&& avail_at(cells, dis, board_size, c.y as int, c.x as int)
                        &&& scan_before(c.y as int, c.x as int, y as int, x as int)
                        &&& blocked_value(ps, pt(c)) == best_value
                        &&& best_value > -1
                        &&& forall|y2: int, x2: int|
                            #[trigger] avail_at(cells, dis, board_size, y2, x2) && scan_before(
                                y2,
                                x2,
                                c.y as int,
                                c.x as int,
                            ) ==> blocked_value(ps, (x2, y2)) < best_value
                    },
                    None => best_value == -1,
                },
            decreases board_size.x - x,
        {
            let cell = Coord { x, y };
            if crate::model::is_cell_available(cell, &player_state.board_cells, &player_state.disabled_cells, board_size) {
                assert(avail_at(cells, dis, board_size, y as int, x as int));
                let blocked = blocked_points(placed_pieces, x as i64, y as i64);
                if blocked > best_value {
                    best_value = blocked;
                    best_cell = Some(cell);
                }
            }
            x = x + 1;
        }
        y = y + 1;
    }
    best_cell
}

// ---------------------------------------------------------------------------
// Greedy placement
// ---------------------------------------------------------------------------
/// Candidate `(i2, r2, y2, x2)` is tried before `(i, r, y, x)`.
pub open spec fn lex_before(i2: int, r2: int, y2: int, x2: int, i: int, r: int, y: int, x: int) -> bool {
    i2 < i || (i2 == i && (r2 < r || (r2 == r && (y2 < y || (y2 == y && x2 < x)))))
}

/// Running sum of the points of the first `k` offsets of an effect that land
/// on the board when the piece is at `origin`.
pub open spec fn bonus_offsets(acc: int, origin: Coord, pts: i32, offs: Seq<Coord>, k: int, size: Coord) -> int
    decreases k,
{
    if k <= 0 {
        acc
    } else {
        let a = bonus_offsets(acc, origin, pts, offs, k - 1, size);
        if within(shift(origin, offs[k - 1]), size) {
            a + pts
        } else {
            a
        }
    }
}

pub open spec fn bonus_offsets_ok(acc: int, origin: Coord, pts: i32, offs: Seq<Coord>, k: int, size: Coord) -> bool
    decreases k,
{
    if k <= 0 {
        true
    } else {
        bonus_offsets_ok(acc, origin, pts, offs, k - 1, size) && fits_i32(bonus_offsets(acc, origin, pts, offs, k, size))
    }
}

pub open spec fn bonus_effect(acc: int, origin: Coord, e: EffectView, size: Coord) -> int {
    match e.offsets {
        Some(o) => bonus_offsets(acc, origin, e.points, o, o.len() as int, size),
        None => acc,
    }
}

pub open spec fn bonus_effect_ok(acc: int, origin: Coord, e: EffectView, size: Coord) -> bool {
    match e.offsets {
        Some(o) => bonus_offsets_ok(acc, origin, e.points, o, o.len() as int, size),
        None => true,
    }
}

pub open spec fn bonus_effects(acc: int, origin: Coord, es: Seq<EffectView>, k: int, size: Coord) -> int
    decreases k,
{
    if k <= 0 {
        acc
    } else {
        bonus_effect(bonus_effects(acc, origin, es, k - 1, size), origin, es[k - 1], size)
    }
}

pub open spec fn bonus_effects_ok(acc: int, origin: Coord, es: Seq<EffectView>, k: int, size: Coord) -> bool
    decreases k,
{
    if k <= 0 {
        true
    } else {
        bonus_effects_ok(acc, origin, es, k - 1, size) && bonus_effect_ok(
            bonus_effects(acc, origin, es, k - 1, size),
            origin,
            es[k - 1],
            size,
        )
    }
}

proof fn lemma_bonus_offsets_prefix(acc: int, origin: Coord, pts: i32, offs: Seq<Coord>, k: int, n: int, size: Coord)
    requires
        0 <= k <= n,
        bonus_offsets_ok(acc, origin, pts, offs, n, size),
    ensures
        bonus_offsets_ok(acc, origin, pts, offs, k, size),
    decreases n - k,
{
    if k < n {
        lemma_bonus_offsets_prefix(acc, origin, pts, offs, k, n - 1, size);
    }
}

proof fn lemma_bonus_effects_prefix(acc: int, origin: Coord, es: Seq<EffectView>, k: int, n: int, size: Coord)
    requires
        0 <= k <= n,
        bonus_effects_ok(acc, origin, es, n, size),
    ensures
        bonus_effects_ok(acc, origin, es, k, size),
    decreases n - k,
{
    if k < n {
        lemma_bonus_effects_prefix(acc, origin, es, k, n - 1, size);
    }
}

fn bonus_offsets_exec(acc: i32, origin: Coord, pts: i32, offs: &Vec<Coord>, size: Coord) -> (r: i32)
    requires
        bonus_offsets_ok(acc as int, origin, pts, offs@, offs@.len() as int, size),
    ensures
        r == bonus_offsets(acc as int, origin, pts, offs@, offs@.len() as int, size),
{
    let mut total = acc;
    let mut k: usize = 0;
    while k < offs.len()
        invariant
            k <= offs@.len(),
            bonus_offsets_ok(acc as int, origin, pts, offs@, offs@.len() as int, size),
            total == bonus_offsets(acc as int, origin, pts, offs@, k as int, size),
        decreases offs@.len() - k,
    {
        proof {
            lemma_bonus_offsets_prefix(acc as int, origin, pts, offs@, k + 1, offs@.len() as int, size);
        }
        let (px, py) = shift_exec(origin, offs[k]);
        if within_exec(px, py, size) {
            total = total + pts;
        }
        k = k + 1;
    }
    total
}

/// The points of the effect offsets that land on the board with the piece at
/// `origin` (the value of what the piece may still earn later).
fn potential_bonus(effects: &Vec<GameEffect>, origin: Coord, size: Coord) -> (r: i32)
    requires
        bonus_effects_ok(0, origin, effects_view(effects@), effects@.len() as int, size),
    ensures
        r == bonus_effects(0, origin, effects_view(effects@), effects@.len() as int, size),
{
    let ghost es = effects_view(effects@);
    let mut total: i32 = 0;
    let mut k: usize = 0;
    while k < effects.len()
        invariant
            k <= effects@.len(),
            es == effects_view(effects@),
            bonus_effects_ok(0, origin, es, effects@.len() as int, size),
            total == bonus_effects(0, origin, es, k as int, size),
        decreases effects@.len() - k,
    {
        proof {
            lemma_bonus_effects_prefix(0, origin, es, k + 1, effects@.len() as int, size);
        }
        let e = &effects[k];
        assert(es[k as int] == e@);
        match &e.offsets {
            Some(offs) => {
                total = bonus_offsets_exec(total, origin, e.points, offs, size);
            },
            None => {},
        }
        k = k + 1;
    }
    total
}

/// The piece `pc` turned `r` times and placed at `origin`.
pub open spec fn placed_piece_view(pc: PieceView, r: int, origin: Coord) -> PieceView {
    PieceView {
        shape: rotated_n(pc.shape, r as nat),
        effects: rotated_effects_n(pc.effects, r as nat),
        placed_at: Some(origin),
        ..pc
    }
}

/// The opponent's board as it is, scored with the lookahead rules.
pub open spec fn base_ctx(cells: Map<(int, int), PieceColor>, placed: Seq<PieceView>, size: Coord) -> ScoreCtx {
    ScoreCtx { rules: ScoreRules::Lookahead, cells, ps: placed, size }
}

/// The opponent's board with candidate `(i, r, y, x)` placed.
pub open spec fn cand_ctx(
    ps: Seq<PieceView>,
    cells: Map<(int, int), PieceColor>,
    placed: Seq<PieceView>,
    size: Coord,
    i: int,
    r: int,
    y: int,
    x: int,
) -> ScoreCtx {
    ScoreCtx {
        rules: ScoreRules::Lookahead,
        cells: with_cells(cells, origin_at(x, y), rotated_n(ps[i].shape, r as nat), ps[i].color),
        ps: placed.push(placed_piece_view(ps[i], r, origin_at(x, y))),
        size,
    }
}

/// How much the candidate raises the opponent's score.
pub open spec fn net_gain(
    ps: Seq<PieceView>,
    cells: Map<(int, int), PieceColor>,
    placed: Seq<PieceView>,
    size: Coord,
    i: int,
    r: int,
    y: int,
    x: int,
) -> int {
    board_score(cand_ctx(ps, cells, placed, size, i, r, y, x)) - board_score(base_ctx(cells, placed, size))
}

pub open spec fn cand_bonus(ps: Seq<PieceView>, size: Coord, i: int, r: int, y: int, x: int) -> int {
    let es = rotated_effects_n(ps[i].effects, r as nat);
    bonus_effects(0, origin_at(x, y), es, es.len() as int, size)
}

/// The candidate's rating: the score gain weighs 10000 times the bonus.
pub open spec fn cand_value(
    ps: Seq<PieceView>,
    cells: Map<(int, int), PieceColor>,
    placed: Seq<PieceView>,
    size: Coord,
    i: int,
    r: int,
    y: int,
    x: int,
) -> int {
    net_gain(ps, cells, placed, size, i, r, y, x) * 10000 + cand_bonus(ps, size, i, r, y, x)
}

/// Rating the candidate never leaves the `i32` range.
pub open spec fn cand_in_range(
    ps: Seq<PieceView>,
    cells: Map<(int, int), PieceColor>,
    placed: Seq<PieceView>,
    size: Coord,
    i: int,
    r: int,
    y: int,
    x: int,
) -> bool {
    let es = rotated_effects_n(ps[i].effects, r as nat);
    &&& score_in_range(cand_ctx(ps, cells, placed, size, i, r, y, x))
    &&& fits_i32(net_gain(ps, cells, placed, size, i, r, y, x))
    &&& fits_i32(net_gain(ps, cells, placed, size, i, r, y, x) * 10000)
    &&& bonus_effects_ok(0, origin_at(x, y), es, es.len() as int, size)
    &&& fits_i32(cand_value(ps, cells, placed, size, i, r, y, x))
}

/// Every number the greedy search computes fits in an `i32`.
pub open spec fn greedy_in_range(
    ps: Seq<PieceView>,
    cells: Map<(int, int), PieceColor>,
    disabled: Set<(int, int)>,
    placed: Seq<PieceView>,
    size: Coord,
) -> bool {
    &&& score_in_range(base_ctx(cells, placed, size))
    &&& forall|i: int, r: int, y: int, x: int|
        cand_valid(ps.len() as int, size, i, r, y, x) && #[trigger] cand_fits(ps, cells, disabled, size, i, r, y, x)
            ==> cand_in_range(ps, cells, placed, size, i, r, y, x)
}

/// Candidate `(i, r, y, x)` is the greedy choice: it fits, rates above
/// -1000000, rates at least as high as every fitting candidate, and higher
/// than every fitting candidate tried before it.
pub open spec fn greedy_best_at(
    ps: Seq<PieceView>,
    cells: Map<(int, int), PieceColor>,
    disabled: Set<(int, int)>,
    placed: Seq<PieceView>,
    size: Coord,
    i: int,
    r: int,
    y: int,
    x: int,
) -> bool {
    &&& cand_valid(ps.len() as int, size, i, r, y, x)
    &&& cand_fits(ps, cells, disabled, size, i, r, y, x)
    &&& cand_value(ps, cells, placed, size, i, r, y, x) > -1000000
    &&& forall|i2: int, r2: int, y2: int, x2: int|
        cand_valid(ps.len() as int, size, i2, r2, y2, x2) && #[trigger] cand_fits(ps, cells, disabled, size, i2, r2, y2, x2)
            ==> cand_value(ps, cells, placed, size, i2, r2, y2, x2) <= cand_value(ps, cells, placed, size, i, r, y, x)
    &&& forall|i2: int, r2: int, y2: int, x2: int|
        cand_valid(ps.len() as int, size, i2, r2, y2, x2) && #[trigger] cand_fits(ps, cells, disabled, size, i2, r2, y2, x2)
            && lex_before(i2, r2, y2, x2, i, r, y, x) ==> cand_value(ps, cells, placed, size, i2, r2, y2, x2)
            < cand_value(ps, cells, placed, size, i, r, y, x)
}

/// The greedy choice never gives up score: among fitting candidates, the
/// chosen one raises the opponent's board score (look-ahead rules) at least
/// as much as any other, whenever the on-board bonuses of the two lie
/// strictly between -5000 and 5000. The bonus only breaks ties in the gain.
pub proof fn lemma_greedy_maximises_gain(
    ps: Seq<PieceView>,
    cells: Map<(int, int), PieceColor>,
    disabled: Set<(int, int)>,
    placed: Seq<PieceView>,
    size: Coord,
    i: int,
    r: int,
    y: int,
    x: int,
    i2: int,
    r2: int,
    y2: int,
    x2: int,
)
    requires
        greedy_best_at(ps, cells, disabled, placed, size, i, r, y, x),
        cand_valid(ps.len() as int, size, i2, r2, y2, x2),
        cand_fits(ps, cells, disabled, size, i2, r2, y2, x2),
        -5000 < cand_bonus(ps, size, i, r, y, x) < 5000,
        -5000 < cand_bonus(ps, size, i2, r2, y2, x2) < 5000,
    ensures
        board_score(cand_ctx(ps, cells, placed, size, i2, r2, y2, x2)) - board_score(base_ctx(cells, placed, size))
            <= board_score(cand_ctx(ps, cells, placed, size, i, r, y, x)) - board_score(base_ctx(cells, placed, size)),
{
    let g1 = board_score(cand_ctx(ps, cells, placed, size, i, r, y, x)) - board_score(base_ctx(cells, placed, size));
    let g2 = board_score(cand_ctx(ps, cells, placed, size, i2, r2, y2, x2)) - board_score(
        base_ctx(cells, placed, size),
    );
    assert(cand_value(ps, cells, placed, size, i2, r2, y2, x2) <= cand_value(ps, cells, placed, size, i, r, y, x));
    if g2 > g1 {
        assert(g2 * 10000 >= g1 * 10000 + 10000) by (nonlinear_arith)
            requires
                g2 >= g1 + 1,
        ;
    }
}

/// Rate a fitting candidate.
fn rate_candidate(
    piece: &Piece,
    shape: &Vec<Coord>,
    effects: &Vec<GameEffect>,
    origin: Coord,
    opponent_state: &GameState,
    current_pieces: &Vec<Piece>,
    current_score: i32,
    board_size: Coord,
    Ghost(ps): Ghost<Seq<PieceView>>,
    Ghost(i): Ghost<int>,
    Ghost(r): Ghost<int>,
) -> (v: i32)
    requires
        0 <= i < ps.len(),
        ps[i] == piece@,
        0 <= r < 4,
        origin == origin_at(origin.x as int, origin.y as int),
        shape@ == rotated_n(piece@.shape, r as nat),
        effects_view(effects@) == rotated_effects_n(piece@.effects, r as nat),
        current_score == board_score(base_ctx(opponent_state.board_cells@, pieces_view(current_pieces@), board_size)),
        cand_fits(ps, opponent_state.board_cells@, opponent_state.disabled_cells@, board_size, i, r, origin.y as int, origin.x as int),
        cand_in_range(ps, opponent_state.board_cells@, pieces_view(current_pieces@), board_size, i, r, origin.y as int, origin.x as int),
    ensures
        v == cand_value(ps, opponent_state.board_cells@, pieces_view(current_pieces@), board_size, i, r, origin.y as int, origin.x as int),
{
    let ghost cells = opponent_state.board_cells@;
    let ghost placed = pieces_view(current_pieces@);
    let ghost y = origin.y as int;
    let ghost x = origin.x as int;
    let mut new_board_cells = opponent_state.board_cells.duplicate();
    proof {
        assert forall|j: int| 0 <= j < shape@.len() implies within(#[trigger] shift(origin, shape@[j]), board_size) by {
            assert(crate::model::available(cells, opponent_state.disabled_cells@, board_size, shift(origin, shape@[j])));
        }
    }
    add_piece_cells(&mut new_board_cells, origin, shape, piece.color, board_size);
    let mut new_pieces = copy_pieces(current_pieces);
    let new_piece = Piece {
        type_id: piece.type_id,
        shape: copy_coords(shape),
        original_shape: copy_coords(&piece.original_shape),
        color: piece.color,
        points: piece.points,
        effects: copy_effects(effects),
        original_effects: copy_effects(&piece.original_effects),
        placed_at: Some(origin),
        board_side: piece.board_side,
    };
    assert(new_piece@ == placed_piece_view(ps[i], r, origin_at(x, y)));
    let ghost before = new_pieces@;
    new_pieces.push(new_piece);
    proof {
        assert(pieces_view(new_pieces@) =~= pieces_view(before).push(new_piece@));
        assert(ctx_of(ScoreRules::Lookahead, &new_board_cells, &new_pieces, board_size) == cand_ctx(
            ps,
            cells,
            placed,
            board_size,
            i,
            r,
            y,
            x,
        ));
    }
    let new_score = recalculate_score_from_vectors(&new_board_cells, &new_pieces, board_size);
    let net_gain = new_score - current_score;
    let bonus = potential_bonus(effects, origin, board_size);
    net_gain * 10000 + bonus
}

/// The greedy opponent's placement: the fitting candidate with the highest
/// rating (the first one tried among equals), if that rating is above
/// -1000000. The rating of a candidate is 10000 times the gain of the
/// opponent's lookahead score, plus the points of its effect offsets that
/// land on the board.
pub fn greedy_placement(
    draft_pieces: &Vec<Piece>,
    opponent_state: &GameState,
    opponent_placed_pieces: &Vec<Piece>,
    board_size: Coord,
) -> (r: Option<AIPlacement>)
    requires
        pieces_freely_rotatable(pieces_view(draft_pieces@)),
        greedy_in_range(
            pieces_view(draft_pieces@),
            opponent_state.board_cells@,
            opponent_state.disabled_cells@,
            pieces_view(opponent_placed_pieces@),
            board_size,
        ),
    ensures
        match r {
            Some(pl) => exists|i: int, rr: int, y: int, x: int|
                #[trigger] greedy_best_at(
                    pieces_view(draft_pieces@),
                    opponent_state.board_cells@,
                    opponent_state.disabled_cells@,
                    pieces_view(opponent_placed_pieces@),
                    board_size,
                    i,
                    rr,
                    y,
                    x,
                ) && placement_matches(pl, pieces_view(draft_pieces@)[i], rr, y, x),
            None => forall|i: int, rr: int, y: int, x: int|
                cand_valid(draft_pieces@.len() as int, board_size, i, rr, y, x) && #[trigger] cand_fits(
                    pieces_view(draft_pieces@),
                    opponent_state.board_cells@,
                    opponent_state.disabled_cells@,
                    board_size,
                    i,
                    rr,
                    y,
                    x,
                ) ==> cand_value(
                    pieces_view(draft_pieces@),
                    opponent_state.board_cells@,
                    pieces_view(opponent_placed_pieces@),
                    board_size,
                    i,
                    rr,
                    y,
                    x,
                ) <= -1000000,
        },
{
    let ghost ps = pieces_view(draft_pieces@);
    let ghost cells = opponent_state.board_cells@;
    let ghost dis = opponent_state.disabled_cells@;
    let ghost placed = pieces_view(opponent_placed_pieces@);
    let ghost n = draft_pieces@.len() as int;
    let current_pieces = copy_pieces(opponent_placed_pieces);
    let current_score = recalculate_score_from_vectors(&opponent_state.board_cells, &current_pieces, board_size);
    let mut best_placement: Option<AIPlacement> = None;
    let mut best_score: i32 = -1000000;
    let ghost mut bi: int = 0;
    let ghost mut br: int = 0;
    let ghost mut by: int = 0;
    let ghost mut bx: int = 0;
    let mut i: usize = 0;
    while i < draft_pieces.len()
        invariant
            i <= draft_pieces@.len(),
            n == draft_pieces@.len(),
            ps == pieces_view(draft_pieces@),
            cells == opponent_state.board_cells@,
            dis == opponent_state.disabled_cells@,
            placed == pieces_view(opponent_placed_pieces@),
            placed == pieces_view(current_pieces@),
            current_score == board_score(base_ctx(cells, placed, board_size)),
            pieces_freely_rotatable(ps),
            greedy_in_range(ps, cells, dis, placed, board_size),
            forall|i2: int, r2: int, y2: int, x2: int|
                cand_valid(n, board_size, i2, r2, y2, x2) && #[trigger] cand_fits(ps, cells, dis, board_size, i2, r2, y2, x2)
                    && lex_before(i2, r2, y2, x2, i as int, 0, 0, 0) ==> cand_value(ps, cells, placed, board_size, i2, r2, y2, x2)
                    <= best_score,
            match best_placement {
                Some(pl) => {
                    &&& greedy_best_at_so_far(ps, cells, dis, placed, board_size, bi, br, by, bx, best_score as int)
                    &&& lex_before(bi, br, by, bx, i as int, 0, 0, 0)
                    &&& placement_matches(pl, ps[bi], br, by, bx)
                },
                None => best_score == -1000000,
            },
        decreases draft_pieces@.len() - i,
    {
        let piece = &draft_pieces[i];
        assert(ps[i as int] == piece@);
        let ghost pc = piece@;
        let mut shape = copy_coords(&piece.shape);
        let mut effects = copy_effects(&piece.effects);
        proof {
            lemma_rotated_n_zero(pc.shape, pc.effects);
        }
        let mut rot: usize = 0;
        while rot < 4
            invariant
                i < draft_pieces@.len(),
                rot <= 4,
                n == draft_pieces@.len(),
                ps == pieces_view(draft_pieces@),
                pc == ps[i as int],
                pc == piece@,
                cells == opponent_state.board_cells@,
                dis == opponent_state.disabled_cells@,
                placed == pieces_view(opponent_placed_pieces@),
                placed == pieces_view(current_pieces@),
                current_score == board_score(base_ctx(cells, placed, board_size)),
                pieces_freely_rotatable(ps),
                greedy_in_range(ps, cells, dis, placed, board_size),
                rot == 0 ==> shape@ == rotated_n(pc.shape, 0),
                rot == 0 ==> effects_view(effects@) == rotated_effects_n(pc.effects, 0),
                rot > 0 ==> shape@ == rotated_n(pc.shape, (rot - 1) as nat),
                rot > 0 ==> effects_view(effects@) == rotated_effects_n(pc.effects, (rot - 1) as nat),
                forall|i2: int, r2: int, y2: int, x2: int|
                    cand_valid(n, board_size, i2, r2, y2, x2) && #[trigger] cand_fits(ps, cells, dis, board_size, i2, r2, y2, x2)
                        && lex_before(i2, r2, y2, x2, i as int, rot as int, 0, 0) ==> cand_value(
                        ps,
                        cells,
                        placed,
                        board_size,
                        i2,
                        r2,
                        y2,
                        x2,
                    ) <= best_score,
                match best_placement {
                    Some(pl) => {
                        &&& greedy_best_at_so_far(ps, cells, dis, placed, board_size, bi, br, by, bx, best_score as int)
                        &&& lex_before(bi, br, by, bx, i as int, rot as int, 0, 0)
                        &&& placement_matches(pl, ps[bi], br, by, bx)
                    },
                    None => best_score == -1000000,
                },
            decreases 4 - rot,
        {
            if rot > 0 {
                proof {
                    lemma_rotated_n_rotatable(pc.shape, pc.effects, (rot - 1) as nat);
                    lemma_rotated_n_succ(pc.shape, (rot - 1) as nat);
                    lemma_rotated_effects_n_succ(pc.effects, (rot - 1) as nat);
                }
                shape = rotate_shape(&shape);
                rotate_effects(&mut effects);
            }
            let mut y: i32 = 0;
            while y < board_size.y
                invariant
                    i < draft_pieces@.len(),
                    rot < 4,
                    0 <= y,
                    y <= board_size.y || board_size.y <= 0,
                    n == draft_pieces@.len(),
                    ps == pieces_view(draft_pieces@),
                    pc == ps[i as int],
                    pc == piece@,
                    cells == opponent_state.board_cells@,
                    dis == opponent_state.disabled_cells@,
                    placed == pieces_view(opponent_placed_pieces@),
                    placed == pieces_view(current_pieces@),
                    current_score == board_score(base_ctx(cells, placed, board_size)),
                    greedy_in_range(ps, cells, dis, placed, board_size),
                    shape@ == rotated_n(pc.shape, rot as nat),
                    effects_view(effects@) == rotated_effects_n(pc.effects, rot as nat),
                    forall|i2: int, r2: int, y2: int, x2: int|
                        cand_valid(n, board_size, i2, r2, y2, x2) && #[trigger] cand_fits(ps, cells, dis, board_size, i2, r2, y2, x2)
                            && lex_before(i2, r2, y2, x2, i as int, rot as int, y as int, 0) ==> cand_value(
                            ps,
                            cells,
                            placed,
                            board_size,
                            i2,
                            r2,
                            y2,
                            x2,
                        ) <= best_score,
                    match best_placement {
                        Some(pl) => {
                            &&& greedy_best_at_so_far(ps, cells, dis, placed, board_size, bi, br, by, bx, best_score as int)
                            &&& lex_before(bi, br, by, bx, i as int, rot as int, y as int, 0)
                            &&& placement_matches(pl, ps[bi], br, by, bx)
                        },
                        None => best_score == -1000000,
                    },
                decreases board_size.y - y,
            {
                let mut x: i32 = 0;
                while x < board_size.x
                    invariant
                        i < draft_pieces@.len(),
                        rot < 4,
                        0 <= y < board_size.y,
                        0 <= x,
                        x <= board_size.x || board_size.x <= 0,
                        n == draft_pieces@.len(),
                        ps == pieces_view(draft_pieces@),
                        pc == ps[i as int],
                        pc == piece@,
                        cells == opponent_state.board_cells@,
                        dis == opponent_state.disabled_cells@,
                        placed == pieces_view(opponent_placed_pieces@),
                        placed == pieces_view(current_pieces@),
                        current_score == board_score(base_ctx(cells, placed, board_size)),
                        greedy_in_range(ps, cells, dis, placed, board_size),
                        shape@ == rotated_n(pc.shape, rot as nat),
                        effects_view(effects@) == rotated_effects_n(pc.effects, rot as nat),
                        forall|i2: int, r2: int, y2: int, x2: int|
                            cand_valid(n, board_size, i2, r2, y2, x2) && #[trigger] cand_fits(ps, cells, dis, board_size, i2, r2, y2, x2)
                                && lex_before(i2, r2, y2, x2, i as int, rot as int, y as int, x as int)
                                ==> cand_value(ps, cells, placed, board_size, i2, r2, y2, x2) <= best_score,
                        match best_placement {
                            Some(pl) => {
                                &&& greedy_best_at_so_far(ps, cells, dis, placed, board_size, bi, br, by, bx, best_score as int)
                                &&& lex_before(bi, br, by, bx, i as int, rot as int, y as int, x as int)
                                &&& placement_matches(pl, ps[bi], br, by, bx)
                            },
                            None => best_score == -1000000,
                        },
                    decreases board_size.x - x,
                {
                    let origin = Coord { x, y };
                    assert(origin == origin_at(x as int, y as int));
                    if can_place(&shape, origin, opponent_state, board_size) {
                        assert(cand_fits(ps, cells, dis, board_size, i as int, rot as int, y as int, x as int));
                        assert(cand_valid(n, board_size, i as int, rot as int, y as int, x as int));
                        let total_score = rate_candidate(
                            piece,
                            &shape,
                            &effects,
                            origin,
                            opponent_state,
                            &current_pieces,
                            current_score,
                            board_size,
                            Ghost(ps),
                            Ghost(i as int),
                            Ghost(rot as int),
                        );
                        if total_score > best_score {
                            best_score = total_score;
                            best_placement = Some(make_placement(&shape, &effects, origin, piece));
                            proof {
                                bi = i as int;
                                br = rot as int;
                                by = y as int;
                                bx = x as int;
                            }
                        }
                    }
                    x = x + 1;
                }
                y = y + 1;
            }
            rot = rot + 1;
        }
        i = i + 1;
    }
    proof {
        if best_placement is Some {
            assert(greedy_best_at(ps, cells, dis, placed, board_size, bi, br, by, bx));
        }
    }
    best_placement
}

/// Candidate `(i, r, y, x)` fits, rates `best` (above -1000000), and rates
/// higher than every fitting candidate tried before it.
pub open spec fn greedy_best_at_so_far(
    ps: Seq<PieceView>,
    cells: Map<(int, int), PieceColor>,
    disabled: Set<(int, int)>,
    placed: Seq<PieceView>,
    size: Coord,
    i: int,
    r: int,
    y: int,
    x: int,
    best: int,
) -> bool {
    &&& cand_valid(ps.len() as int, size, i, r, y, x)
    &&& cand_fits(ps, cells, disabled, size, i, r, y, x)
    &&& cand_value(ps, cells, placed, size, i, r, y, x) == best
    &&& best > -1000000
    &&& forall|i2: int, r2: int, y2: int, x2: int|
        cand_valid(ps.len() as int, size, i2, r2, y2, x2) && #[trigger] cand_fits(ps, cells, disabled, size, i2, r2, y2, x2)
            && lex_before(i2, r2, y2, x2, i, r, y, x) ==> cand_value(ps, cells, placed, size, i2, r2, y2, x2) < best
}


// ---------------------------------------------------------------------------
// Checking that the opponent's computations stay in range
// ---------------------------------------------------------------------------
fn coord_freely_rotatable(c: Coord) -> (r: bool)
    ensures
        r == crate::model::freely_rotatable(c),
{
    c.x != i32::MIN && c.y != i32::MIN
}

fn shape_can_turn(shape: &Vec<Coord>) -> (r: bool)
    ensures
        r == shape_freely_rotatable(shape@),
{
    let mut i: usize = 0;
    while i < shape.len()
        invariant
            i <= shape@.len(),
            forall|j: int| 0 <= j < i ==> crate::model::freely_rotatable(#[trigger] shape@[j]),
        decreases shape@.len() - i,
    {
        if !coord_freely_rotatable(shape[i]) {
            return false;
        }
        i = i + 1;
    }
    true
}

/// Whether every piece (shape and effect offsets) can be turned any number
/// of times.
pub fn pieces_can_turn(pieces: &Vec<Piece>) -> (r: bool)
    ensures
        r == pieces_freely_rotatable(pieces_view(pieces@)),
{
    let ghost ps = pieces_view(pieces@);
    let mut i: usize = 0;
    while i < pieces.len()
        invariant
            i <= pieces@.len(),
            ps == pieces_view(pieces@),
            forall|j: int|
                0 <= j < i ==> shape_freely_rotatable(#[trigger] ps[j].shape) && effects_freely_rotatable(ps[j].effects),
        decreases pieces@.len() - i,
    {
        let p = &pieces[i];
        assert(ps[i as int] == p@);
        if !shape_can_turn(&p.shape) {
            assert(!shape_freely_rotatable(ps[i as int].shape));
            return false;
        }
        let mut e: usize = 0;
        while e < p.effects.len()
            invariant
                e <= p.effects@.len(),
                i < pieces@.len(),
                ps == pieces_view(pieces@),
                ps[i as int] == p@,
                shape_freely_rotatable(p@.shape),
                forall|j: int|
                    0 <= j < i ==> shape_freely_rotatable(#[trigger] ps[j].shape) && effects_freely_rotatable(ps[j].effects),
                forall|j: int| 0 <= j < e ==> crate::model::effect_freely_rotatable(#[trigger] p@.effects[j]),
            decreases p.effects@.len() - e,
        {
            assert(p@.effects[e as int] == p.effects@[e as int]@);
            match &p.effects[e].offsets {
                Some(o) => {
                    if !shape_can_turn(o) {
                        assert(!crate::model::effect_freely_rotatable(p@.effects[e as int]));
                        assert(!effects_freely_rotatable(ps[i as int].effects));
                        return false;
                    }
                },
                None => {},
            }
            e = e + 1;
        }
        assert(p@.effects.len() == p.effects@.len());
        assert(effects_freely_rotatable(ps[i as int].effects));
        assert forall|j: int| 0 <= j < i + 1 implies shape_freely_rotatable(#[trigger] ps[j].shape)
            && effects_freely_rotatable(ps[j].effects) by {
            if j == i {
                assert(shape_freely_rotatable(p@.shape));
            }
        }
        i = i + 1;
    }
    true
}

fn block_offsets_checked(acc: i32, pos: Coord, pts: i32, offs: &Vec<Coord>, cx: i64, cy: i64) -> (r: Option<i32>)
    ensures
        (r is Some) == block_offsets_ok(acc as int, pos, pts, offs@, offs@.len() as int, (cx as int, cy as int)),
        r matches Some(v) ==> v == block_offsets(acc as int, pos, pts, offs@, offs@.len() as int, (cx as int, cy as int)),
{
    let mut total = acc;
    let mut k: usize = 0;
    while k < offs.len()
        invariant
            k <= offs@.len(),
            block_offsets_ok(acc as int, pos, pts, offs@, k as int, (cx as int, cy as int)),
            total == block_offsets(acc as int, pos, pts, offs@, k as int, (cx as int, cy as int)),
        decreases offs@.len() - k,
    {
        let (px, py) = shift_exec(pos, offs[k]);
        if px == cx && py == cy {
            let t = total as i64 + pts as i64;
            if t < i32::MIN as i64 || t > i32::MAX as i64 {
                proof {
                    if block_offsets_ok(acc as int, pos, pts, offs@, offs@.len() as int, (cx as int, cy as int)) {
                        lemma_block_offsets_prefix(acc as int, pos, pts, offs@, k + 1, offs@.len() as int, (cx as int, cy as int));
                    }
                }
                return None;
            }
            total = t as i32;
        }
        k = k + 1;
    }
    Some(total)
}

fn block_effects_checked(acc: i32, pos: Coord, effects: &Vec<GameEffect>, cx: i64, cy: i64) -> (r: Option<i32>)
    ensures
        (r is Some) == block_effects_ok(acc as int, pos, effects_view(effects@), effects@.len() as int, (cx as int, cy as int)),
        r matches Some(v) ==> v == block_effects(acc as int, pos, effects_view(effects@), effects@.len() as int, (cx as int, cy as int)),
{
    let ghost es = effects_view(effects@);
    let mut total = acc;
    let mut k: usize = 0;
    while k < effects.len()
        invariant
            k <= effects@.len(),
            es == effects_view(effects@),
            block_effects_ok(acc as int, pos, es, k as int, (cx as int, cy as int)),
            total == block_effects(acc as int, pos, es, k as int, (cx as int, cy as int)),
        decreases effects@.len() - k,
    {
        let e = &effects[k];
        assert(es[k as int] == e@);
        match &e.offsets {
            Some(offs) => match block_offsets_checked(total, pos, e.points, offs, cx, cy) {
                Some(t) => {
                    total = t;
                },
                None => {
                    proof {
                        if block_effects_ok(acc as int, pos, es, effects@.len() as int, (cx as int, cy as int)) {
                            lemma_block_effects_prefix(acc as int, pos, es, k + 1, effects@.len() as int, (cx as int, cy as int));
                        }
                    }
                    return None;
                },
            },
            None => {},
        }
        k = k + 1;
    }
    Some(total)
}

fn blocked_points_checked(pieces: &Vec<Piece>, cx: i64, cy: i64) -> (r: bool)
    ensures
        r == blocked_in_range(pieces_view(pieces@), (cx as int, cy as int)),
{
    let ghost ps = pieces_view(pieces@);
    let mut total: i32 = 0;
    let mut i: usize = 0;
    while i < pieces.len()
        invariant
            i <= pieces@.len(),
            ps == pieces_view(pieces@),
            block_pieces_ok(ps, i as int, (cx as int, cy as int)),
            total == block_pieces(ps, i as int, (cx as int, cy as int)),
        decreases pieces@.len() - i,
    {
        let piece = &pieces[i];
        assert(ps[i as int] == piece@);
        match piece.placed_at {
            Some(pos) => match block_effects_checked(total, pos, &piece.effects, cx, cy) {
                Some(t) => {
                    total = t;
                },
                None => {
                    proof {
                        if block_pieces_ok(ps, pieces@.len() as int, (cx as int, cy as int)) {
                            lemma_block_pieces_prefix(ps, i + 1, pieces@.len() as int, (cx as int, cy as int));
                        }
                    }
                    return false;
                },
            },
            None => {},
        }
        i = i + 1;
    }
    true
}

/// Whether the points aimed at every available cell of the player's board
/// can be summed within `i32` (what the greedy block needs).
pub fn block_values_fit(player_state: &GameState, placed_pieces: &Vec<Piece>, board_size: Coord) -> (r: bool)
    ensures
        r == forall|y: int, x: int|
            #[trigger] avail_at(player_state.board_cells@, player_state.disabled_cells@, board_size, y, x)
                ==> blocked_in_range(pieces_view(placed_pieces@), (x, y)),
{
    let ghost cells = player_state.board_cells@;
    let ghost dis = player_state.disabled_cells@;
    let ghost ps = pieces_view(placed_pieces@);
    let mut y: i32 = 0;
    while y < board_size.y
        invariant
            0 <= y,
            y <= board_size.y || board_size.y <= 0,
            cells == player_state.board_cells@,
            dis == player_state.disabled_cells@,
            ps == pieces_view(placed_pieces@),
            forall|y2: int, x2: int| y2 < y && #[trigger] avail_at(cells, dis, board_size, y2, x2) ==> blocked_in_range(ps, (x2, y2)),
        decreases board_size.y - y,
    {
        let mut x: i32 = 0;
        while x < board_size.x
            invariant
                0 <= y < board_size.y,
                0 <= x,
                x <= board_size.x || board_size.x <= 0,
                cells == player_state.board_cells@,
                dis == player_state.disabled_cells@,
                ps == pieces_view(placed_pieces@),
                forall|y2: int, x2: int|
                    (y2 < y || (y2 == y && x2 < x)) && #[trigger] avail_at(cells, dis, board_size, y2, x2)
                        ==> blocked_in_range(ps, (x2, y2)),
            decreases board_size.x - x,
        {
            if crate::model::point_available(x as i64, y as i64, &player_state.board_cells, &player_state.disabled_cells, board_size) {
                if !blocked_points_checked(placed_pieces, x as i64, y as i64) {
                    assert(avail_at(cells, dis, board_size, y as int, x as int));
                    return false;
                }
            }
            x = x + 1;
        }
        y = y + 1;
    }
    true
}


fn bonus_offsets_checked(acc: i32, origin: Coord, pts: i32, offs: &Vec<Coord>, size: Coord) -> (r: Option<i32>)
    ensures
        (r is Some) == bonus_offsets_ok(acc as int, origin, pts, offs@, offs@.len() as int, size),
        r matches Some(v) ==> v == bonus_offsets(acc as int, origin, pts, offs@, offs@.len() as int, size),
{
    let mut total = acc;
    let mut k: usize = 0;
    while k < offs.len()
        invariant
            k <= offs@.len(),
            bonus_offsets_ok(acc as int, origin, pts, offs@, k as int, size),
            total == bonus_offsets(acc as int, origin, pts, offs@, k as int, size),
        decreases offs@.len() - k,
    {
        let (px, py) = shift_exec(origin, offs[k]);
        if within_exec(px, py, size) {
            let t = total as i64 + pts as i64;
            if t < i32::MIN as i64 || t > i32::MAX as i64 {
                proof {
                    if bonus_offsets_ok(acc as int, origin, pts, offs@, offs@.len() as int, size) {
                        lemma_bonus_offsets_prefix(acc as int, origin, pts, offs@, k + 1, offs@.len() as int, size);
                    }
                }
                return None;
            }
            total = t as i32;
        }
        k = k + 1;
    }
    Some(total)
}

fn bonus_checked(effects: &Vec<GameEffect>, origin: Coord, size: Coord) -> (r: Option<i32>)
    ensures
        (r is Some) == bonus_effects_ok(0, origin, effects_view(effects@), effects@.len() as int, size),
        r matches Some(v) ==> v == bonus_effects(0, origin, effects_view(effects@), effects@.len() as int, size),
{
    let ghost es = effects_view(effects@);
    let mut total: i32 = 0;
    let mut k: usize = 0;
    while k < effects.len()
        invariant
            k <= effects@.len(),
            es == effects_view(effects@),
            bonus_effects_ok(0, origin, es, k as int, size),
            total == bonus_effects(0, origin, es, k as int, size),
        decreases effects@.len() - k,
    {
        let e = &effects[k];
        assert(es[k as int] == e@);
        match &e.offsets {
            Some(offs) => match bonus_offsets_checked(total, origin, e.points, offs, size) {
                Some(t) => {
                    total = t;
                },
                None => {
                    proof {
                        if bonus_effects_ok(0, origin, es, effects@.len() as int, size) {
                            lemma_bonus_effects_prefix(0, origin, es, k + 1, effects@.len() as int, size);
                        }
                    }
                    return None;
                },
            },
            None => {},
        }
        k = k + 1;
    }
    Some(total)
}

fn in_i32(v: i64) -> (r: bool)
    ensures
        r == fits_i32(v as int),
{
    i32::MIN as i64 <= v && v <= i32::MAX as i64
}

/// Whether rating one fitting candidate stays within `i32`.
fn candidate_in_range(
    piece: &Piece,
    shape: &Vec<Coord>,
    effects: &Vec<GameEffect>,
    origin: Coord,
    opponent_state: &GameState,
    current_pieces: &Vec<Piece>,
    current_score: i32,
    board_size: Coord,
    Ghost(ps): Ghost<Seq<PieceView>>,
    Ghost(i): Ghost<int>,
    Ghost(r): Ghost<int>,
) -> (ok: bool)
    requires
        0 <= i < ps.len(),
        ps[i] == piece@,
        0 <= r < 4,
        origin == origin_at(origin.x as int, origin.y as int),
        shape@ == rotated_n(piece@.shape, r as nat),
        effects_view(effects@) == rotated_effects_n(piece@.effects, r as nat),
        current_score == board_score(base_ctx(opponent_state.board_cells@, pieces_view(current_pieces@), board_size)),
        cand_fits(ps, opponent_state.board_cells@, opponent_state.disabled_cells@, board_size, i, r, origin.y as int, origin.x as int),
    ensures
        ok == cand_in_range(ps, opponent_state.board_cells@, pieces_view(current_pieces@), board_size, i, r, origin.y as int, origin.x as int),
{
    let ghost cells = opponent_state.board_cells@;
    let ghost placed = pieces_view(current_pieces@);
    let ghost y = origin.y as int;
    let ghost x = origin.x as int;
    let mut new_board_cells = opponent_state.board_cells.duplicate();
    proof {
        assert forall|j: int| 0 <= j < shape@.len() implies within(#[trigger] shift(origin, shape@[j]), board_size) by {
            assert(crate::model::available(cells, opponent_state.disabled_cells@, board_size, shift(origin, shape@[j])));
        }
    }
    add_piece_cells(&mut new_board_cells, origin, shape, piece.color, board_size);
    let mut new_pieces = copy_pieces(current_pieces);
    let new_piece = Piece {
        type_id: piece.type_id,
        shape: copy_coords(shape),
        original_shape: copy_coords(&piece.original_shape),
        color: piece.color,
        points: piece.points,
        effects: copy_effects(effects),
        original_effects: copy_effects(&piece.original_effects),
        placed_at: Some(origin),
        board_side: piece.board_side,
    };
    assert(new_piece@ == placed_piece_view(ps[i], r, origin_at(x, y)));
    let ghost before = new_pieces@;
    new_pieces.push(new_piece);
    proof {
        assert(pieces_view(new_pieces@) =~= pieces_view(before).push(new_piece@));
        assert(ctx_of(ScoreRules::Lookahead, &new_board_cells, &new_pieces, board_size) == cand_ctx(
            ps,
            cells,
            placed,
            board_size,
            i,
            r,
            y,
            x,
        ));
    }
    let new_score = match checked_score(ScoreRules::Lookahead, &new_board_cells, &new_pieces, board_size) {
        Some(v) => v,
        None => {
            return false;
        },
    };
    let net_gain = new_score as i64 - current_score as i64;
    if !in_i32(net_gain) {
        return false;
    }
    let scaled = net_gain * 10000;
    if !in_i32(scaled) {
        return false;
    }
    let bonus = match bonus_checked(effects, origin, board_size) {
        Some(b) => b,
        None => {
            return false;
        },
    };
    in_i32(scaled + bonus as i64)
}

/// Whether every number the greedy placement computes fits in an `i32`.
pub fn greedy_fits(
    draft_pieces: &Vec<Piece>,
    opponent_state: &GameState,
    opponent_placed_pieces: &Vec<Piece>,
    board_size: Coord,
) -> (ok: bool)
    requires
        pieces_freely_rotatable(pieces_view(draft_pieces@)),
    ensures
        ok == greedy_in_range(
            pieces_view(draft_pieces@),
            opponent_state.board_cells@,
            opponent_state.disabled_cells@,
            pieces_view(opponent_placed_pieces@),
            board_size,
        ),
{
    let ghost ps = pieces_view(draft_pieces@);
    let ghost cells = opponent_state.board_cells@;
    let ghost dis = opponent_state.disabled_cells@;
    let ghost placed = pieces_view(opponent_placed_pieces@);
    let ghost n = draft_pieces@.len() as int;
    let current_pieces = copy_pieces(opponent_placed_pieces);
    let current_score = match checked_score(ScoreRules::Lookahead, &opponent_state.board_cells, &current_pieces, board_size) {
        Some(v) => v,
        None => {
            return false;
        },
    };
    let mut i: usize = 0;
    while i < draft_pieces.len()
        invariant
            i <= draft_pieces@.len(),
            n == draft_pieces@.len(),
            ps == pieces_view(draft_pieces@),
            cells == opponent_state.board_cells@,
            dis == opponent_state.disabled_cells@,
            placed == pieces_view(opponent_placed_pieces@),
            placed == pieces_view(current_pieces@),
            score_in_range(base_ctx(cells, placed, board_size)),
            current_score == board_score(base_ctx(cells, placed, board_size)),
            pieces_freely_rotatable(ps),
            forall|i2: int, r2: int, y2: int, x2: int|
                cand_valid(n, board_size, i2, r2, y2, x2) && #[trigger] cand_fits(ps, cells, dis, board_size, i2, r2, y2, x2)
                    && lex_before(i2, r2, y2, x2, i as int, 0, 0, 0) ==> cand_in_range(ps, cells, placed, board_size, i2, r2, y2, x2),
        decreases draft_pieces@.len() - i,
    {
        let piece = &draft_pieces[i];
        assert(ps[i as int] == piece@);
        let ghost pc = piece@;
        let mut shape = copy_coords(&piece.shape);
        let mut effects = copy_effects(&piece.effects);
        proof {
            lemma_rotated_n_zero(pc.shape, pc.effects);
        }
        let mut rot: usize = 0;
        while rot < 4
            invariant
                i < draft_pieces@.len(),
                rot <= 4,
                n == draft_pieces@.len(),
                ps == pieces_view(draft_pieces@),
                pc == ps[i as int],
                pc == piece@,
                cells == opponent_state.board_cells@,
                dis == opponent_state.disabled_cells@,
                placed == pieces_view(opponent_placed_pieces@),
                placed == pieces_view(current_pieces@),
                score_in_range(base_ctx(cells, placed, board_size)),
                current_score == board_score(base_ctx(cells, placed, board_size)),
                pieces_freely_rotatable(ps),
                rot == 0 ==> shape@ == rotated_n(pc.shape, 0),
                rot == 0 ==> effects_view(effects@) == rotated_effects_n(pc.effects, 0),
                rot > 0 ==> shape@ == rotated_n(pc.shape, (rot - 1) as nat),
                rot > 0 ==> effects_view(effects@) == rotated_effects_n(pc.effects, (rot - 1) as nat),
                forall|i2: int, r2: int, y2: int, x2: int|
                    cand_valid(n, board_size, i2, r2, y2, x2) && #[trigger] cand_fits(ps, cells, dis, board_size, i2, r2, y2, x2)
                        && lex_before(i2, r2, y2, x2, i as int, rot as int, 0, 0) ==> cand_in_range(
                        ps,
                        cells,
                        placed,
                        board_size,
                        i2,
                        r2,
                        y2,
                        x2,
                    ),
            decreases 4 - rot,
        {
            if rot > 0 {
                proof {
                    lemma_rotated_n_rotatable(pc.shape, pc.effects, (rot - 1) as nat);
                    lemma_rotated_n_succ(pc.shape, (rot - 1) as nat);
                    lemma_rotated_effects_n_succ(pc.effects, (rot - 1) as nat);
                }
                shape = rotate_shape(&shape);
                rotate_effects(&mut effects);
            }
            let mut y: i32 = 0;
            while y < board_size.y
                invariant
                    i < draft_pieces@.len(),
                    rot < 4,
                    0 <= y,
                    y <= board_size.y || board_size.y <= 0,
                    n == draft_pieces@.len(),
                    ps == pieces_view(draft_pieces@),
                    pc == ps[i as int],
                    pc == piece@,
                    cells == opponent_state.board_cells@,
                    dis == opponent_state.disabled_cells@,
                    placed == pieces_view(opponent_placed_pieces@),
                    placed == pieces_view(current_pieces@),
                    score_in_range(base_ctx(cells, placed, board_size)),
                    current_score == board_score(base_ctx(cells, placed, board_size)),
                    shape@ == rotated_n(pc.shape, rot as nat),
                    effects_view(effects@) == rotated_effects_n(pc.effects, rot as nat),
                    forall|i2: int, r2: int, y2: int, x2: int|
                        cand_valid(n, board_size, i2, r2, y2, x2) && #[trigger] cand_fits(ps, cells, dis, board_size, i2, r2, y2, x2)
                            && lex_before(i2, r2, y2, x2, i as int, rot as int, y as int, 0) ==> cand_in_range(
                            ps,
                            cells,
                            placed,
                            board_size,
                            i2,
                            r2,
                            y2,
                            x2,
                        ),
                decreases board_size.y - y,
            {
                let mut x: i32 = 0;
                while x < board_size.x
                    invariant
                        i < draft_pieces@.len(),
                        rot < 4,
                        0 <= y < board_size.y,
                        0 <= x,
                        x <= board_size.x || board_size.x <= 0,
                        n == draft_pieces@.len(),
                        ps == pieces_view(draft_pieces@),
                        pc == ps[i as int],
                        pc == piece@,
                        cells == opponent_state.board_cells@,
                        dis == opponent_state.disabled_cells@,
                        placed == pieces_view(opponent_placed_pieces@),
                        placed == pieces_view(current_pieces@),
                        score_in_range(base_ctx(cells, placed, board_size)),
                        current_score == board_score(base_ctx(cells, placed, board_size)),
                        shape@ == rotated_n(pc.shape, rot as nat),
                        effects_view(effects@) == rotated_effects_n(pc.effects, rot as nat),
                        forall|i2: int, r2: int, y2: int, x2: int|
                            cand_valid(n, board_size, i2, r2, y2, x2) && #[trigger] cand_fits(ps, cells, dis, board_size, i2, r2, y2, x2)
                                && lex_before(i2, r2, y2, x2, i as int, rot as int, y as int, x as int)
                                ==> cand_in_range(ps, cells, placed, board_size, i2, r2, y2, x2),
                    decreases board_size.x - x,
                {
                    let origin = Coord { x, y };
                    assert(origin == origin_at(x as int, y as int));
                    if can_place(&shape, origin, opponent_state, board_size) {
                        assert(cand_fits(ps, cells, dis, board_size, i as int, rot as int, y as int, x as int));
                        assert(cand_valid(n, board_size, i as int, rot as int, y as int, x as int));
                        if !candidate_in_range(
                            piece,
                            &shape,
                            &effects,
                            origin,
                            opponent_state,
                            &current_pieces,
                            current_score,
                            board_size,
                            Ghost(ps),
                            Ghost(i as int),
                            Ghost(rot as int),
                        ) {
                            return false;
                        }
                    }
                    x = x + 1;
                }
                y = y + 1;
            }
            rot = rot + 1;
        }
        i = i + 1;
    }
    proof {
        assert forall|i2: int, r2: int, y2: int, x2: int|
            cand_valid(n, board_size, i2, r2, y2, x2) && #[trigger] cand_fits(ps, cells, dis, board_size, i2, r2, y2, x2)
                implies cand_in_range(ps, cells, placed, board_size, i2, r2, y2, x2) by {
            assert(lex_before(i2, r2, y2, x2, n, 0, 0, 0));
        }
    }
    true
}

} // verus!
