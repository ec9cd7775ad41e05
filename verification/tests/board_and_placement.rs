use tightpack::board::{CellMap, CellSet, Coord, PieceColor};
use tightpack::model::{
    is_cell_available, is_in_bounds, reset_piece, rotate_coord, rotate_piece, BoardSide, EffectCondition,
    GameEffect, GameState, Piece,
};
use tightpack::placement::{
    can_rotate, claim_cells, clear_board, handle_rotation, on_drag_end, on_drag_start, place_piece,
    placement_fits, return_to_stash, unplace_piece,
};

fn c(x: i32, y: i32) -> Coord {
    Coord { x, y }
}

fn piece(type_id: usize, shape: Vec<Coord>, color: PieceColor, points: i32) -> Piece {
    Piece {
        type_id,
        shape: shape.clone(),
        original_shape: shape,
        color,
        points,
        effects: Vec::new(),
        original_effects: Vec::new(),
        placed_at: None,
        board_side: BoardSide::Single,
    }
}

#[test]
fn cell_map_insert_get_remove() {
    let mut m = CellMap::new();
    assert_eq!(m.len(), 0);
    m.insert(c(1, 2), PieceColor::Red);
    m.insert(c(3, 4), PieceColor::Blue);
    m.insert(c(1, 2), PieceColor::Green);
    assert_eq!(m.len(), 2);
    assert_eq!(m.get(c(1, 2)), Some(PieceColor::Green));
    assert_eq!(m.get(c(3, 4)), Some(PieceColor::Blue));
    assert_eq!(m.get(c(0, 0)), None);
    assert!(m.has_color(PieceColor::Blue));
    assert!(!m.has_color(PieceColor::Red));
    assert_eq!(m.remove(c(3, 4)), Some(PieceColor::Blue));
    assert_eq!(m.remove(c(3, 4)), None);
    assert_eq!(m.len(), 1);
    m.clear();
    assert_eq!(m.len(), 0);
}

#[test]
fn cell_set_ignores_repeats() {
    let mut s = CellSet::new();
    s.insert(c(2, 2));
    s.insert(c(2, 2));
    s.insert(c(0, 1));
    assert_eq!(s.len(), 2);
    assert!(s.contains(c(0, 1)));
    assert!(!s.contains(c(1, 0)));
}

#[test]
fn bounds_and_availability() {
    let size = c(10, 10);
    assert!(is_in_bounds(c(0, 0), size));
    assert!(is_in_bounds(c(9, 9), size));
    assert!(!is_in_bounds(c(10, 0), size));
    assert!(!is_in_bounds(c(-1, 5), size));
    let mut cells = CellMap::new();
    cells.insert(c(1, 1), PieceColor::Red);
    let mut disabled = CellSet::new();
    disabled.insert(c(2, 2));
    assert!(!is_cell_available(c(1, 1), &cells, &disabled, size));
    assert!(!is_cell_available(c(2, 2), &cells, &disabled, size));
    assert!(is_cell_available(c(3, 3), &cells, &disabled, size));
}

#[test]
fn quarter_turn_is_clockwise() {
    assert_eq!(rotate_coord(c(1, 0)), c(0, -1));
    assert_eq!(rotate_coord(c(2, 3)), c(3, -2));
}

#[test]
fn four_turns_restore_piece() {
    let mut p = piece(0, vec![c(0, 0), c(1, 0), c(1, 2)], PieceColor::Red, 3);
    p.effects = vec![GameEffect { condition: EffectCondition::IsEmpty, points: 1, offsets: Some(vec![c(2, 5)]) }];
    let before_shape = p.shape.clone();
    rotate_piece(&mut p);
    assert_eq!(p.shape, vec![c(0, 0), c(0, -1), c(2, -1)]);
    rotate_piece(&mut p);
    rotate_piece(&mut p);
    rotate_piece(&mut p);
    assert_eq!(p.shape, before_shape);
    assert_eq!(p.effects[0].offsets, Some(vec![c(2, 5)]));
}

#[test]
fn reset_restores_original_shape() {
    let mut p = piece(0, vec![c(0, 0), c(1, 0)], PieceColor::Red, 1);
    rotate_piece(&mut p);
    assert_ne!(p.shape, p.original_shape);
    reset_piece(&mut p);
    assert_eq!(p.shape, vec![c(0, 0), c(1, 0)]);
}

#[test]
fn place_then_unplace_restores_board() {
    let size = c(5, 5);
    let mut state = GameState::new();
    state.board_cells.insert(c(0, 0), PieceColor::Blue);
    let mut p = piece(0, vec![c(0, 0), c(1, 0)], PieceColor::Red, 2);
    assert!(place_piece(&mut state, &mut p, c(2, 2), size));
    assert_eq!(p.placed_at, Some(c(2, 2)));
    assert_eq!(state.board_cells.get(c(2, 2)), Some(PieceColor::Red));
    assert_eq!(state.board_cells.get(c(3, 2)), Some(PieceColor::Red));
    assert_eq!(state.board_cells.len(), 3);
    unplace_piece(&mut state, &mut p);
    assert_eq!(p.placed_at, None);
    assert_eq!(state.board_cells.len(), 1);
    assert_eq!(state.board_cells.get(c(0, 0)), Some(PieceColor::Blue));
}

#[test]
fn place_refused_off_board_or_on_disabled() {
    let size = c(5, 5);
    let mut state = GameState::new();
    state.disabled_cells.insert(c(1, 1));
    let mut p = piece(0, vec![c(0, 0), c(1, 0)], PieceColor::Red, 2);
    rotate_piece(&mut p);
    assert!(!place_piece(&mut state, &mut p, c(4, 0), size));
    assert_eq!(p.shape, vec![c(0, 0), c(1, 0)]);
    assert!(!place_piece(&mut state, &mut p, c(0, 1), size));
    assert_eq!(state.board_cells.len(), 0);
    assert!(!placement_fits(&p.shape, c(1, 1), &state.board_cells, &state.disabled_cells, size));
    assert!(placement_fits(&p.shape, c(2, 1), &state.board_cells, &state.disabled_cells, size));
}

#[test]
fn placed_piece_is_not_placed_again() {
    let size = c(5, 5);
    let mut state = GameState::new();
    let mut p = piece(0, vec![c(0, 0)], PieceColor::Red, 2);
    assert!(place_piece(&mut state, &mut p, c(0, 0), size));
    assert!(!place_piece(&mut state, &mut p, c(3, 3), size));
    assert_eq!(p.placed_at, Some(c(0, 0)));
    assert_eq!(state.board_cells.len(), 1);
}

#[test]
fn claim_cells_rejects_repeated_offsets() {
    let size = c(5, 5);
    let mut cells = CellMap::new();
    let disabled = CellSet::new();
    assert!(!claim_cells(&mut cells, &disabled, size, c(0, 0), &vec![c(1, 1), c(1, 1)], PieceColor::Red));
    let mut cells2 = CellMap::new();
    assert!(claim_cells(&mut cells2, &disabled, size, c(0, 0), &vec![c(1, 1), c(2, 1)], PieceColor::Red));
    assert_eq!(cells2.len(), 2);
}

#[test]
fn return_to_stash_and_clear_board() {
    let size = c(5, 5);
    let mut state = GameState::new();
    let mut p = piece(0, vec![c(0, 0), c(0, 1)], PieceColor::Green, 2);
    assert!(place_piece(&mut state, &mut p, c(1, 1), size));
    return_to_stash(&mut state, &mut p);
    assert_eq!(p.placed_at, None);
    assert_eq!(state.board_cells.len(), 0);
    rotate_piece(&mut p);
    return_to_stash(&mut state, &mut p);
    assert_eq!(p.shape, vec![c(0, 0), c(0, 1)]);
    state.board_cells.insert(c(3, 3), PieceColor::Red);
    state.score = 9;
    clear_board(&mut state);
    assert_eq!(state.board_cells.len(), 0);
    assert_eq!(state.score, 0);
}

#[test]
fn dropping_a_draft_piece_returns_the_other_one() {
    let size = c(6, 6);
    let mut state = GameState::new();
    let mut pieces = vec![
        piece(0, vec![c(0, 0)], PieceColor::Red, 1),
        piece(1, vec![c(0, 0)], PieceColor::Blue, 1),
        piece(2, vec![c(0, 0)], PieceColor::Green, 1),
    ];
    let is_draft = vec![true, true, false];
    assert!(on_drag_end(&mut state, &mut pieces, &is_draft, 0, c(0, 0), size));
    assert!(on_drag_end(&mut state, &mut pieces, &is_draft, 2, c(2, 2), size));
    assert!(on_drag_end(&mut state, &mut pieces, &is_draft, 1, c(1, 1), size));
    assert_eq!(pieces[0].placed_at, None);
    assert_eq!(pieces[1].placed_at, Some(c(1, 1)));
    assert_eq!(pieces[2].placed_at, Some(c(2, 2)));
    assert_eq!(state.board_cells.get(c(0, 0)), None);
    assert_eq!(state.board_cells.get(c(1, 1)), Some(PieceColor::Blue));
    assert_eq!(state.board_cells.len(), 2);
}

#[test]
fn dropping_where_it_does_not_fit_resets_the_piece() {
    let size = c(3, 3);
    let mut state = GameState::new();
    let mut pieces = vec![piece(0, vec![c(0, 0), c(1, 0)], PieceColor::Red, 1)];
    rotate_piece(&mut pieces[0]);
    let is_draft = vec![true];
    assert!(!on_drag_end(&mut state, &mut pieces, &is_draft, 0, c(0, 0), size));
    assert_eq!(pieces[0].shape, vec![c(0, 0), c(1, 0)]);
    assert_eq!(state.board_cells.len(), 0);
}

#[test]
fn drag_start_lifts_piece_and_returns_other_drafts() {
    let size = c(6, 6);
    let mut state = GameState::new();
    let mut pieces = vec![
        piece(0, vec![c(0, 0)], PieceColor::Red, 1),
        piece(1, vec![c(0, 0), c(1, 0)], PieceColor::Blue, 1),
    ];
    let is_draft = vec![true, true];
    assert!(on_drag_end(&mut state, &mut pieces, &is_draft, 1, c(3, 3), size));
    on_drag_start(&mut state, &mut pieces, &is_draft, 1);
    assert_eq!(pieces[1].placed_at, None);
    assert_eq!(state.board_cells.len(), 0);
    assert!(on_drag_end(&mut state, &mut pieces, &is_draft, 0, c(0, 0), size));
    on_drag_start(&mut state, &mut pieces, &is_draft, 1);
    assert_eq!(pieces[0].placed_at, None);
    assert_eq!(state.board_cells.len(), 0);
}

#[test]
fn rotation_refused_for_extreme_coordinates() {
    let p = piece(0, vec![c(i32::MIN, 0)], PieceColor::Red, 1);
    assert!(!can_rotate(&p));
    let mut q = piece(0, vec![c(0, 0), c(0, 1)], PieceColor::Red, 1);
    assert!(can_rotate(&q));
    handle_rotation(&mut q);
    assert_eq!(q.shape, vec![c(0, 0), c(1, 0)]);
}
