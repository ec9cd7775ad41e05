//! Putting pieces on a board and taking them off again.
use vstd::prelude::*;

use crate::board::{
    coord_from, covers, pt, representable, shift, shift_exec, within, CellMap, CellSet, Coord,
    PieceColor,
};
use crate::model::{
    available, copy_piece, effects_rotatable, pieces_view, point_available, reset_piece, rotate_piece,
    shape_rotatable, GameState, Piece, PieceView,
};

verus! {

/// Every cell of the shape placed at `pos` is available.
pub open spec fn fits(
    cells: Map<(int, int), PieceColor>,
    disabled: Set<(int, int)>,
    size: Coord,
    pos: Coord,
    shape: Seq<Coord>,
) -> bool {
    forall|j: int| 0 <= j < shape.len() ==> available(cells, disabled, size, #[trigger] shift(pos, shape[j]))
}

/// The board with the cells of the shape at `pos` occupied by `color`.
pub open spec fn with_cells(
    cells: Map<(int, int), PieceColor>,
    pos: Coord,
    shape: Seq<Coord>,
    color: PieceColor,
) -> Map<(int, int), PieceColor> {
    Map::new(
        |p: (int, int)| cells.contains_key(p) || covers(pos, shape, p),
        |p: (int, int)|
            if covers(pos, shape, p) {
                color
            } else {
                cells[p]
            },
    )
}

/// The board with the cells of the shape at `pos` freed.
pub open spec fn without_cells(
    cells: Map<(int, int), PieceColor>,
    pos: Coord,
    shape: Seq<Coord>,
) -> Map<(int, int), PieceColor> {
    Map::new(|p: (int, int)| cells.contains_key(p) && !covers(pos, shape, p), |p: (int, int)| cells[p])
}

/// Whether every cell of `shape` placed at `origin` is on the board, free and
/// not disabled.
pub fn placement_fits(
    shape: &Vec<Coord>,
    origin: Coord,
    board_cells: &CellMap,
    disabled_cells: &CellSet,
    board_size: Coord,
) -> (r: bool)
    ensures
        r == fits(board_cells@, disabled_cells@, board_size, origin, shape@),
{
    let mut i: usize = 0;
    while i < shape.len()
        invariant
            i <= shape@.len(),
            forall|j: int|
                0 <= j < i ==> available(
                    board_cells@,
                    disabled_cells@,
                    board_size,
                    #[trigger] shift(origin, shape@[j]),
                ),
        decreases shape@.len() - i,
    {
        let (px, py) = shift_exec(origin, shape[i]);
        if !point_available(px, py, board_cells, disabled_cells, board_size) {
            return false;
        }
        i = i + 1;
    }
    true
}

pub proof fn lemma_with_cells_step(
    cells: Map<(int, int), PieceColor>,
    pos: Coord,
    shape: Seq<Coord>,
    color: PieceColor,
    i: int,
)
    requires
        0 <= i < shape.len(),
    ensures
        with_cells(cells, pos, shape.take(i + 1), color) == with_cells(
            cells,
            pos,
            shape.take(i),
            color,
        ).insert(shift(pos, shape[i]), color),
{
    let a = shape.take(i + 1);
    let b = shape.take(i);
    assert forall|p: (int, int)| covers(pos, a, p) <==> (covers(pos, b, p) || p == shift(pos, shape[i])) by {
        if covers(pos, a, p) {
            let j = choose|j: int| 0 <= j < a.len() && shift(pos, a[j]) == p;
            if j < i {
                assert(b[j] == a[j]);
            }
        }
        if covers(pos, b, p) {
            let j = choose|j: int| 0 <= j < b.len() && shift(pos, b[j]) == p;
            assert(a[j] == b[j]);
        }
        if p == shift(pos, shape[i]) {
            assert(a[i] == shape[i]);
        }
    }
    assert(with_cells(cells, pos, a, color) =~= with_cells(cells, pos, b, color).insert(
        shift(pos, shape[i]),
        color,
    ));
}

/// Occupy the cells of `shape` placed at `pos` with `color`, wherever they
/// are (each must be a representable coordinate).
pub fn paint_cells(cells: &mut CellMap, pos: Coord, shape: &Vec<Coord>, color: PieceColor)
    requires
        forall|j: int| 0 <= j < shape@.len() ==> representable(#[trigger] shift(pos, shape@[j])),
    ensures
        final(cells)@ == with_cells(old(cells)@, pos, shape@, color),
{
    let ghost start = cells@;
    let mut i: usize = 0;
    assert(with_cells(start, pos, shape@.take(0), color) =~= start);
    while i < shape.len()
        invariant
            i <= shape@.len(),
            forall|j: int| 0 <= j < shape@.len() ==> representable(#[trigger] shift(pos, shape@[j])),
            cells@ == with_cells(start, pos, shape@.take(i as int), color),
        decreases shape@.len() - i,
    {
        let (px, py) = shift_exec(pos, shape[i]);
        assert(representable(shift(pos, shape@[i as int])));
        let c = Coord { x: px as i32, y: py as i32 };
        assert(pt(c) == shift(pos, shape@[i as int]));
        cells.insert(c, color);
        proof {
            lemma_with_cells_step(start, pos, shape@, color, i as int);
        }
        i = i + 1;
    }
    assert(shape@.take(i as int) =~= shape@);
}

/// Occupy the cells of `shape` placed at `pos` with `color`; every cell lies
/// on the board.
pub fn add_piece_cells(cells: &mut CellMap, pos: Coord, shape: &Vec<Coord>, color: PieceColor, board_size: Coord)
    requires
        forall|j: int| 0 <= j < shape@.len() ==> within(#[trigger] shift(pos, shape@[j]), board_size),
    ensures
        final(cells)@ == with_cells(old(cells)@, pos, shape@, color),
{
    assert forall|j: int| 0 <= j < shape@.len() implies representable(#[trigger] shift(pos, shape@[j])) by {
        assert(within(shift(pos, shape@[j]), board_size));
    }
    paint_cells(cells, pos, shape, color);
}

/// Occupy the cells of `shape` placed at `pos` one at a time, stopping at
/// the first cell that is off the board, disabled, or already occupied
/// (by the board or by an earlier cell of the same shape). All cells are
/// claimed exactly when the shape fits and names no cell twice.
pub fn claim_cells(
    cells: &mut CellMap,
    disabled: &CellSet,
    board_size: Coord,
    pos: Coord,
    shape: &Vec<Coord>,
    color: PieceColor,
) -> (ok: bool)
    ensures
        ok == (fits(old(cells)@, disabled@, board_size, pos, shape@) && shape@.no_duplicates()),
        ok ==> final(cells)@ == with_cells(old(cells)@, pos, shape@, color),
{
    let ghost start = cells@;
    let mut i: usize = 0;
    assert(with_cells(start, pos, shape@.take(0), color) =~= start);
    while i < shape.len()
        invariant
            i <= shape@.len(),
            start == old(cells)@,
            cells@ == with_cells(start, pos, shape@.take(i as int), color),
            fits(start, disabled@, board_size, pos, shape@.take(i as int)),
            shape@.take(i as int).no_duplicates(),
        decreases shape@.len() - i,
    {
        let (px, py) = shift_exec(pos, shape[i]);
        let ghost p = shift(pos, shape@[i as int]);
        if !point_available(px, py, cells, disabled, board_size) {
            proof {
                if fits(start, disabled@, board_size, pos, shape@) && shape@.no_duplicates() {
                    assert(available(start, disabled@, board_size, shift(pos, shape@[i as int])));
                    if covers(pos, shape@.take(i as int), p) {
                        let j = choose|j: int| 0 <= j < i && shift(pos, shape@.take(i as int)[j]) == p;
                        assert(shape@.take(i as int)[j] == shape@[j]);
                        assert(shape@[j] == shape@[i as int]);
                    }
                    assert(false);
                }
            }
            return false;
        }
        let c = coord_from(px, py, board_size);
        cells.insert(c, color);
        proof {
            lemma_with_cells_step(start, pos, shape@, color, i as int);
            let t = shape@.take(i as int + 1);
            assert forall|j: int| 0 <= j < t.len() implies available(
                start,
                disabled@,
                board_size,
                #[trigger] shift(pos, t[j]),
            ) by {
                if j < i {
                    assert(t[j] == shape@.take(i as int)[j]);
                }
            }
            assert forall|a: int, b: int| 0 <= a < t.len() && 0 <= b < t.len() && a != b implies t[a] != t[b] by {
                if a < i && b < i {
                    assert(t[a] == shape@.take(i as int)[a]);
                    assert(t[b] == shape@.take(i as int)[b]);
                } else if a < i {
                    if t[a] == t[b] {
                        assert(shape@.take(i as int)[a] == t[a]);
                        assert(covers(pos, shape@.take(i as int), p));
                    }
                } else if b < i {
                    if t[a] == t[b] {
                        assert(shape@.take(i as int)[b] == t[b]);
                        assert(covers(pos, shape@.take(i as int), p));
                    }
                }
            }
        }
        i = i + 1;
    }
    assert(shape@.take(i as int) =~= shape@);
    true
}

proof fn lemma_without_cells_step(
    cells: Map<(int, int), PieceColor>,
    pos: Coord,
    shape: Seq<Coord>,
    i: int,
)
    requires
        0 <= i < shape.len(),
    ensures
        without_cells(cells, pos, shape.take(i + 1)) == without_cells(
            cells,
            pos,
            shape.take(i),
        ).remove(shift(pos, shape[i])),
{
    let a = shape.take(i + 1);
    let b = shape.take(i);
    assert forall|p: (int, int)| covers(pos, a, p) <==> (covers(pos, b, p) || p == shift(pos, shape[i])) by {
        if covers(pos, a, p) {
            let j = choose|j: int| 0 <= j < a.len() && shift(pos, a[j]) == p;
            if j < i {
                assert(b[j] == a[j]);
            }
        }
        if covers(pos, b, p) {
            let j = choose|j: int| 0 <= j < b.len() && shift(pos, b[j]) == p;
            assert(a[j] == b[j]);
        }
        if p == shift(pos, shape[i]) {
            assert(a[i] == shape[i]);
        }
    }
    assert(without_cells(cells, pos, a) =~= without_cells(cells, pos, b).remove(shift(pos, shape[i])));
}

/// Whether a point given as 64-bit integers is a representable coordinate.
fn point_representable(px: i64, py: i64) -> (r: bool)
    ensures
        r == representable((px as int, py as int)),
{
    i32::MIN as i64 <= px && px <= i32::MAX as i64 && i32::MIN as i64 <= py && py <= i32::MAX as i64
}

/// Free the cells of `shape` placed at `pos`.
pub fn remove_piece_cells(cells: &mut CellMap, pos: Coord, shape: &Vec<Coord>)
    ensures
        final(cells)@ == without_cells(old(cells)@, pos, shape@),
{
    let ghost start = cells@;
    let mut i: usize = 0;
    assert(without_cells(start, pos, shape@.take(0)) =~= start);
    while i < shape.len()
        invariant
            i <= shape@.len(),
            cells@ == without_cells(start, pos, shape@.take(i as int)),
        decreases shape@.len() - i,
    {
        let (px, py) = shift_exec(pos, shape[i]);
        if point_representable(px, py) {
            let c = Coord { x: px as i32, y: py as i32 };
            assert(pt(c) == (px as int, py as int));
            cells.remove(c);
        } else {
            proof {
                CellMap::lemma_view_props(cells);
                assert(cells@.remove((px as int, py as int)) =~= cells@);
            }
        }
        proof {
            lemma_without_cells_step(start, pos, shape@, i as int);
        }
        i = i + 1;
    }
    assert(shape@.take(i as int) =~= shape@);
}

/// Try to put an unplaced piece with its origin at `grid`. It is placed when
/// every cell it would cover is available: the cells then take its colour.
/// Otherwise the piece goes back to its original shape and effects and the
/// board is unchanged. A piece that is already placed is left as it is.
pub fn place_piece(state: &mut GameState, piece: &mut Piece, grid: Coord, board_size: Coord) -> (placed: bool)
    ensures
        placed == (old(piece).placed_at is None && fits(
            old(state).board_cells@,
            old(state).disabled_cells@,
            board_size,
            grid,
            old(piece)@.shape,
        )),
        final(state).disabled_cells@ == old(state).disabled_cells@,
        final(state).score == old(state).score,
        placed ==> final(state).board_cells@ == with_cells(
            old(state).board_cells@,
            grid,
            old(piece)@.shape,
            old(piece).color,
        ),
        placed ==> final(piece)@ == (PieceView { placed_at: Some(grid), ..old(piece)@ }),
        !placed ==> final(state).board_cells@ == old(state).board_cells@,
        !placed && old(piece).placed_at is None ==> final(piece)@ == (PieceView {
            shape: old(piece)@.original_shape,
            effects: old(piece)@.original_effects,
            ..old(piece)@
        }),
        old(piece).placed_at is Some ==> final(piece)@ == old(piece)@,
{
    if piece.placed_at.is_some() {
        return false;
    }
    if placement_fits(&piece.shape, grid, &state.board_cells, &state.disabled_cells, board_size) {
        add_piece_cells(&mut state.board_cells, grid, &piece.shape, piece.color, board_size);
        piece.placed_at = Some(grid);
        true
    } else {
        reset_piece(piece);
        false
    }
}

/// Take a placed piece off the board: its cells are freed and it is no
/// longer placed. An unplaced piece is left as it is.
pub fn unplace_piece(state: &mut GameState, piece: &mut Piece)
    ensures
        final(state).disabled_cells@ == old(state).disabled_cells@,
        final(state).score == old(state).score,
        match old(piece).placed_at {
            Some(pos) => {
                &&& final(state).board_cells@ == without_cells(
                    old(state).board_cells@,
                    pos,
                    old(piece)@.shape,
                )
                &&& final(piece)@ == (PieceView { placed_at: None, ..old(piece)@ })
            },
            None => {
                &&& final(state).board_cells@ == old(state).board_cells@
                &&& final(piece)@ == old(piece)@
            },
        },
{
    if let Some(pos) = piece.placed_at {
        remove_piece_cells(&mut state.board_cells, pos, &piece.shape);
        piece.placed_at = None;
    }
}

/// Send a piece back to the stash: take it off the board if placed, and put
/// back its original shape and effects.
pub fn return_to_stash(state: &mut GameState, piece: &mut Piece)
    ensures
        final(state).disabled_cells@ == old(state).disabled_cells@,
        final(state).score == old(state).score,
        final(piece)@ == (PieceView {
            placed_at: None,
            shape: old(piece)@.original_shape,
            effects: old(piece)@.original_effects,
            ..old(piece)@
        }),
        match old(piece).placed_at {
            Some(pos) => final(state).board_cells@ == without_cells(
                old(state).board_cells@,
                pos,
                old(piece)@.shape,
            ),
            None => final(state).board_cells@ == old(state).board_cells@,
        },
{
    unplace_piece(state, piece);
    reset_piece(piece);
}

/// Empty the board and zero the score (disabled cells stay).
pub fn clear_board(state: &mut GameState)
    ensures
        final(state).board_cells@ == Map::<(int, int), PieceColor>::empty(),
        final(state).disabled_cells@ == old(state).disabled_cells@,
        final(state).score == 0,
{
    state.board_cells.clear();
    state.score = 0;
}

/// Placing a piece where it fits and then taking it off again gives back
/// the board as it was.
pub proof fn lemma_place_then_unplace(
    cells: Map<(int, int), PieceColor>,
    disabled: Set<(int, int)>,
    size: Coord,
    pos: Coord,
    shape: Seq<Coord>,
    color: PieceColor,
)
    requires
        fits(cells, disabled, size, pos, shape),
    ensures
        without_cells(with_cells(cells, pos, shape, color), pos, shape) == cells,
{
    assert forall|p: (int, int)| covers(pos, shape, p) implies !cells.contains_key(p) by {
        let j = choose|j: int| 0 <= j < shape.len() && shift(pos, shape[j]) == p;
        assert(available(cells, disabled, size, shift(pos, shape[j])));
    }
    assert(without_cells(with_cells(cells, pos, shape, color), pos, shape) =~= cells);
}

/// After a successful placement, every cell the piece covers holds its colour.
pub proof fn lemma_placed_cells_colored(
    cells: Map<(int, int), PieceColor>,
    pos: Coord,
    shape: Seq<Coord>,
    color: PieceColor,
    j: int,
)
    requires
        0 <= j < shape.len(),
    ensures
        with_cells(cells, pos, shape, color).contains_key(shift(pos, shape[j])),
        with_cells(cells, pos, shape, color)[shift(pos, shape[j])] == color,
{
    assert(covers(pos, shape, shift(pos, shape[j])));
}


// ---------------------------------------------------------------------------
// Dragging pieces
// ---------------------------------------------------------------------------
/// The piece back in the stash: not placed, with its original shape and
/// effects.
pub open spec fn returned(pc: PieceView) -> PieceView {
    PieceView { placed_at: None, shape: pc.original_shape, effects: pc.original_effects, ..pc }
}

/// Piece `j` is a placed draft piece other than `keep`.
pub open spec fn other_placed_draft(ps: Seq<PieceView>, is_draft: Seq<bool>, keep: int, j: int) -> bool {
    j != keep && is_draft[j] && ps[j].placed_at is Some
}

/// The board after freeing the cells of the placed draft pieces other than
/// `keep` among the first `k`.
pub open spec fn drafts_freed(
    cells: Map<(int, int), PieceColor>,
    ps: Seq<PieceView>,
    is_draft: Seq<bool>,
    keep: int,
    k: int,
) -> Map<(int, int), PieceColor>
    decreases k,
{
    if k <= 0 {
        cells
    } else {
        let m = drafts_freed(cells, ps, is_draft, keep, k - 1);
        if other_placed_draft(ps, is_draft, keep, k - 1) {
            without_cells(m, ps[k - 1].placed_at->0, ps[k - 1].shape)
        } else {
            m
        }
    }
}

/// Send every placed draft piece other than `keep` back to the stash.
fn return_other_drafts(state: &mut GameState, pieces: &Vec<Piece>, is_draft: &Vec<bool>, keep: usize) -> (r: Vec<Piece>)
    requires
        is_draft@.len() == pieces@.len(),
    ensures
        r@.len() == pieces@.len(),
        forall|j: int|
            0 <= j < pieces@.len() ==> (#[trigger] r@[j])@ == if other_placed_draft(
                pieces_view(pieces@),
                is_draft@,
                keep as int,
                j,
            ) {
                returned(pieces@[j]@)
            } else {
                pieces@[j]@
            },
        final(state).board_cells@ == drafts_freed(
            old(state).board_cells@,
            pieces_view(pieces@),
            is_draft@,
            keep as int,
            pieces@.len() as int,
        ),
        final(state).disabled_cells@ == old(state).disabled_cells@,
        final(state).score == old(state).score,
{
    let ghost ps = pieces_view(pieces@);
    let mut out: Vec<Piece> = Vec::new();
    let mut j: usize = 0;
    while j < pieces.len()
        invariant
            j <= pieces@.len(),
            ps == pieces_view(pieces@),
            is_draft@.len() == pieces@.len(),
            out@.len() == j,
            forall|i: int|
                0 <= i < j ==> (#[trigger] out@[i])@ == if other_placed_draft(ps, is_draft@, keep as int, i) {
                    returned(pieces@[i]@)
                } else {
                    pieces@[i]@
                },
            state.board_cells@ == drafts_freed(old(state).board_cells@, ps, is_draft@, keep as int, j as int),
            state.disabled_cells@ == old(state).disabled_cells@,
            state.score == old(state).score,
        decreases pieces@.len() - j,
    {
        let mut p = copy_piece(&pieces[j]);
        assert(ps[j as int] == pieces@[j as int]@);
        if j != keep && is_draft[j] && p.placed_at.is_some() {
            return_to_stash(state, &mut p);
        }
        out.push(p);
        j = j + 1;
    }
    out
}

/// A piece starts being dragged: every other placed draft piece goes back to
/// the stash, and the dragged piece leaves the board (keeping its shape).
pub fn on_drag_start(state: &mut GameState, pieces: &mut Vec<Piece>, is_draft: &Vec<bool>, idx: usize)
    requires
        idx < old(pieces)@.len(),
        is_draft@.len() == old(pieces)@.len(),
    ensures
        final(pieces)@.len() == old(pieces)@.len(),
        forall|j: int|
            0 <= j < old(pieces)@.len() && j != idx ==> (#[trigger] final(pieces)@[j])@ == if other_placed_draft(
                pieces_view(old(pieces)@),
                is_draft@,
                idx as int,
                j,
            ) {
                returned(old(pieces)@[j]@)
            } else {
                old(pieces)@[j]@
            },
        final(pieces)@[idx as int]@ == (PieceView { placed_at: None, ..old(pieces)@[idx as int]@ }),
        final(state).board_cells@ == match old(pieces)@[idx as int].placed_at {
            Some(pos) => without_cells(
                drafts_freed(
                    old(state).board_cells@,
                    pieces_view(old(pieces)@),
                    is_draft@,
                    idx as int,
                    old(pieces)@.len() as int,
                ),
                pos,
                old(pieces)@[idx as int]@.shape,
            ),
            None => drafts_freed(
                old(state).board_cells@,
                pieces_view(old(pieces)@),
                is_draft@,
                idx as int,
                old(pieces)@.len() as int,
            ),
        },
        final(state).disabled_cells@ == old(state).disabled_cells@,
        final(state).score == old(state).score,
{
    let mut others = return_other_drafts(state, pieces, is_draft, idx);
    let mut p = copy_piece(&others[idx]);
    unplace_piece(state, &mut p);
    others.set(idx, p);
    *pieces = others;
}

/// A dragged piece is dropped with its origin at `grid`. It is placed when
/// it fits (see `place_piece`); when a draft piece is placed, every other
/// placed draft piece goes back to the stash, so at most one draft piece is
/// on the board. A piece that does not fit goes back to its original shape
/// and effects.
pub fn on_drag_end(
    state: &mut GameState,
    pieces: &mut Vec<Piece>,
    is_draft: &Vec<bool>,
    idx: usize,
    grid: Coord,
    board_size: Coord,
) -> (placed: bool)
    requires
        idx < old(pieces)@.len(),
        is_draft@.len() == old(pieces)@.len(),
    ensures
        placed == (old(pieces)@[idx as int].placed_at is None && fits(
            old(state).board_cells@,
            old(state).disabled_cells@,
            board_size,
            grid,
            old(pieces)@[idx as int]@.shape,
        )),
        final(pieces)@.len() == old(pieces)@.len(),
        final(state).disabled_cells@ == old(state).disabled_cells@,
        final(state).score == old(state).score,
        !placed ==> final(state).board_cells@ == old(state).board_cells@,
        !placed && old(pieces)@[idx as int].placed_at is None ==> final(pieces)@[idx as int]@ == returned(
            old(pieces)@[idx as int]@,
        ),
        old(pieces)@[idx as int].placed_at is Some ==> final(pieces)@[idx as int]@ == old(pieces)@[idx as int]@,
        placed ==> final(pieces)@[idx as int]@ == (PieceView {
            placed_at: Some(grid),
            ..old(pieces)@[idx as int]@
        }),
        forall|j: int|
            0 <= j < old(pieces)@.len() && j != idx ==> (#[trigger] final(pieces)@[j])@ == if placed
                && is_draft@[idx as int] && other_placed_draft(pieces_view(old(pieces)@), is_draft@, idx as int, j) {
                returned(old(pieces)@[j]@)
            } else {
                old(pieces)@[j]@
            },
        placed && !is_draft@[idx as int] ==> final(state).board_cells@ == with_cells(
            old(state).board_cells@,
            grid,
            old(pieces)@[idx as int]@.shape,
            old(pieces)@[idx as int].color,
        ),
        placed && is_draft@[idx as int] ==> final(state).board_cells@ == drafts_freed(
            with_cells(
                old(state).board_cells@,
                grid,
                old(pieces)@[idx as int]@.shape,
                old(pieces)@[idx as int].color,
            ),
            pieces_view(old(pieces)@),
            is_draft@,
            idx as int,
            old(pieces)@.len() as int,
        ),
        placed && is_draft@[idx as int] ==> forall|j: int|
            0 <= j < final(pieces)@.len() && j != idx && #[trigger] is_draft@[j] ==> final(pieces)@[j].placed_at is None,
{
    let ghost old_pieces = pieces@;
    let mut p = copy_piece(&pieces[idx]);
    let placed = place_piece(state, &mut p, grid, board_size);
    pieces.set(idx, p);
    if placed && is_draft[idx] {
        let ghost mid = pieces@;
        let ghost after_place = state.board_cells@;
        assert forall|j: int| 0 <= j < mid.len() && j != idx implies mid[j] == old_pieces[j] by {}
        assert(pieces_view(mid) =~= pieces_view(old_pieces).update(idx as int, mid[idx as int]@));
        let others = return_other_drafts(state, pieces, is_draft, idx);
        *pieces = others;
        proof {
            assert forall|j: int| 0 <= j < old_pieces.len() && j != idx implies other_placed_draft(
                pieces_view(mid),
                is_draft@,
                idx as int,
                j,
            ) == other_placed_draft(pieces_view(old_pieces), is_draft@, idx as int, j) by {}
            lemma_drafts_freed_ignores_keep(
                after_place,
                pieces_view(mid),
                pieces_view(old_pieces),
                is_draft@,
                idx as int,
                old_pieces.len() as int,
            );
        }
    }
    placed
}

proof fn lemma_drafts_freed_ignores_keep(
    cells: Map<(int, int), PieceColor>,
    a: Seq<PieceView>,
    b: Seq<PieceView>,
    is_draft: Seq<bool>,
    keep: int,
    k: int,
)
    requires
        0 <= keep < a.len(),
        a.len() == b.len(),
        k <= a.len(),
        forall|j: int| 0 <= j < a.len() && j != keep ==> a[j] == b[j],
    ensures
        drafts_freed(cells, a, is_draft, keep, k) == drafts_freed(cells, b, is_draft, keep, k),
    decreases k,
{
    if k > 0 {
        lemma_drafts_freed_ignores_keep(cells, a, b, is_draft, keep, k - 1);
    }
}

/// Whether the piece can be turned a quarter (no offset coordinate that
/// would overflow when negated).
pub fn can_rotate(piece: &Piece) -> (r: bool)
    ensures
        r == (shape_rotatable(piece@.shape) && effects_rotatable(piece@.effects)),
{
    let mut i: usize = 0;
    while i < piece.shape.len()
        invariant
            i <= piece.shape@.len(),
            forall|j: int| 0 <= j < i ==> crate::model::rotatable(#[trigger] piece.shape@[j]),
        decreases piece.shape@.len() - i,
    {
        if piece.shape[i].x == i32::MIN {
            return false;
        }
        i = i + 1;
    }
    let mut e: usize = 0;
    while e < piece.effects.len()
        invariant
            e <= piece.effects@.len(),
            shape_rotatable(piece@.shape),
            forall|j: int| 0 <= j < e ==> crate::model::effect_rotatable(#[trigger] piece@.effects[j]),
        decreases piece.effects@.len() - e,
    {
        assert(piece@.effects[e as int] == piece.effects@[e as int]@);
        match &piece.effects[e].offsets {
            Some(o) => {
                let mut k: usize = 0;
                while k < o.len()
                    invariant
                        k <= o@.len(),
                        e < piece.effects@.len(),
                        piece@.effects[e as int].offsets == Some(o@),
                        forall|j: int| 0 <= j < k ==> crate::model::rotatable(#[trigger] o@[j]),
                    decreases o@.len() - k,
                {
                    if o[k].x == i32::MIN {
                        proof {
                            assert(!crate::model::rotatable(o@[k as int]));
                            assert(!crate::model::effect_rotatable(piece@.effects[e as int]));
                        }
                        return false;
                    }
                    k = k + 1;
                }
            },
            None => {},
        }
        e = e + 1;
    }
    true
}

/// The rotate key: every dragged piece that can be turned is turned a
/// quarter clockwise.
pub fn handle_rotation(piece: &mut Piece)
    requires
        shape_rotatable(old(piece)@.shape),
        crate::model::effects_rotatable(old(piece)@.effects),
    ensures
        final(piece)@ == (PieceView {
            shape: crate::model::rotated(old(piece)@.shape),
            effects: crate::model::rotated_effects(old(piece)@.effects),
            ..old(piece)@
        }),
{
    rotate_piece(piece);
}


/// Starting a board over (Ctrl+N): the board is emptied with score 0 and
/// every placed piece goes back to the stash with its original shape and
/// effects; the other pieces stay as they are.
pub fn reset_board(state: &mut GameState, pieces: &mut Vec<Piece>)
    ensures
        final(state).board_cells@ == Map::<(int, int), PieceColor>::empty(),
        final(state).disabled_cells@ == old(state).disabled_cells@,
        final(state).score == 0,
        final(pieces)@.len() == old(pieces)@.len(),
        forall|j: int|
            0 <= j < old(pieces)@.len() ==> (#[trigger] final(pieces)@[j])@ == if old(pieces)@[j].placed_at is Some {
                returned(old(pieces)@[j]@)
            } else {
                old(pieces)@[j]@
            },
{
    clear_board(state);
    let mut out: Vec<Piece> = Vec::new();
    let mut j: usize = 0;
    while j < pieces.len()
        invariant
            j <= pieces@.len(),
            out@.len() == j,
            forall|i: int|
                0 <= i < j ==> (#[trigger] out@[i])@ == if pieces@[i].placed_at is Some {
                    returned(pieces@[i]@)
                } else {
                    pieces@[i]@
                },
        decreases pieces@.len() - j,
    {
        let mut p = copy_piece(&pieces[j]);
        if p.placed_at.is_some() {
            p.placed_at = None;
            reset_piece(&mut p);
        }
        out.push(p);
        j = j + 1;
    }
    *pieces = out;
}

} // verus!
