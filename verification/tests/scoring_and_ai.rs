use tightpack::ai::{first_free_placement, greedy_block_cell, greedy_placement, pick_first_free};
use tightpack::board::{CellMap, CellSet, Coord, PieceColor};
use tightpack::model::{BoardSide, EffectCondition, GameEffect, GameState, Piece};
use tightpack::scoring::{
    check_condition, compute_piece_contribution, effect_preview_active, no_color_on_board_excluding,
    puzzle_effect_preview_active, recalculate_score_from_vectors, recalculate_score_system,
    recalculate_score_with_size, update_stash_labels, Owner,
};

fn c(x: i32, y: i32) -> Coord {
    Coord { x, y }
}

fn effect(condition: EffectCondition, points: i32, offsets: Option<Vec<Coord>>) -> GameEffect {
    GameEffect { condition, points, offsets }
}

fn placed(shape: Vec<Coord>, color: PieceColor, points: i32, effects: Vec<GameEffect>, at: Option<Coord>) -> Piece {
    Piece {
        type_id: 0,
        shape: shape.clone(),
        original_shape: shape,
        color,
        points,
        effects: effects.clone(),
        original_effects: effects,
        placed_at: at,
        board_side: BoardSide::Single,
    }
}

fn board_of(pieces: &[Piece]) -> CellMap {
    let mut cells = CellMap::new();
    for p in pieces {
        if let Some(pos) = p.placed_at {
            for o in &p.shape {
                cells.insert(c(pos.x + o.x, pos.y + o.y), p.color);
            }
        }
    }
    cells
}

#[test]
fn score_is_sum_of_contributions() {
    let size = c(5, 5);
    let a = placed(
        vec![c(0, 0), c(1, 0)],
        PieceColor::Red,
        3,
        vec![effect(EffectCondition::MatchesColor(PieceColor::Blue), 2, Some(vec![c(0, 1)]))],
        Some(c(1, 1)),
    );
    let b = placed(vec![c(0, 0)], PieceColor::Blue, 1, vec![], Some(c(1, 2)));
    let unplaced = placed(vec![c(0, 0)], PieceColor::Green, 4, vec![], None);
    let pieces = vec![a, b, unplaced];
    let cells = board_of(&pieces);
    let total = recalculate_score_with_size(&cells, &pieces, size);
    assert_eq!(total, 6);
    let ca = compute_piece_contribution(&pieces[0], &cells, &pieces, size);
    let cb = compute_piece_contribution(&pieces[1], &cells, &pieces, size);
    assert_eq!(ca, 5);
    assert_eq!(cb, 1);
    assert_eq!(ca + cb, total);
}

#[test]
fn is_empty_effect_counts_each_free_target_on_board() {
    let size = c(5, 5);
    let p = placed(
        vec![c(0, 0)],
        PieceColor::Green,
        0,
        vec![effect(EffectCondition::IsEmpty, 4, Some(vec![c(1, 0), c(0, 1), c(2, 0)]))],
        Some(c(3, 3)),
    );
    let pieces = vec![p];
    let cells = board_of(&pieces);
    assert_eq!(recalculate_score_with_size(&cells, &pieces, size), 8);
}

#[test]
fn no_color_effect_ignores_own_cells() {
    let size = c(5, 5);
    let d = placed(
        vec![c(0, 0), c(1, 0)],
        PieceColor::Red,
        1,
        vec![effect(EffectCondition::NoColorOnBoard(PieceColor::Red), 5, None)],
        Some(c(0, 0)),
    );
    let pieces = vec![d.clone()];
    let cells = board_of(&pieces);
    assert_eq!(recalculate_score_with_size(&cells, &pieces, size), 6);
    let other = placed(vec![c(0, 0)], PieceColor::Red, 0, vec![], Some(c(4, 4)));
    let pieces2 = vec![d, other];
    let cells2 = board_of(&pieces2);
    assert_eq!(recalculate_score_with_size(&cells2, &pieces2, size), 1);
}

#[test]
fn lookahead_rules_differ_from_board_rules() {
    let size = c(5, 5);
    let e = placed(
        vec![c(0, 0)],
        PieceColor::Blue,
        0,
        vec![effect(EffectCondition::NoColorOnBoard(PieceColor::Green), 3, Some(vec![c(1, 0)]))],
        Some(c(0, 0)),
    );
    let h = placed(
        vec![c(0, 0)],
        PieceColor::Red,
        0,
        vec![effect(EffectCondition::MatchesColor(PieceColor::Red), 2, None)],
        Some(c(2, 2)),
    );
    let pieces = vec![e, h];
    let cells = board_of(&pieces);
    assert_eq!(recalculate_score_with_size(&cells, &pieces, size), 5);
    assert_eq!(recalculate_score_from_vectors(&cells, &pieces, size), 0);
}

#[test]
fn size_effect_looks_at_covering_piece() {
    let size = c(5, 5);
    let f = placed(
        vec![c(0, 0), c(0, 1)],
        PieceColor::Red,
        0,
        vec![effect(EffectCondition::MatchesSize(1), 7, Some(vec![c(1, 0), c(1, 1)]))],
        Some(c(0, 0)),
    );
    let g = placed(vec![c(0, 0)], PieceColor::Blue, 0, vec![], Some(c(1, 0)));
    let pieces = vec![f, g];
    let cells = board_of(&pieces);
    assert_eq!(recalculate_score_with_size(&cells, &pieces, size), 7);
}

#[test]
fn score_system_stores_score() {
    let size = c(5, 5);
    let p = placed(vec![c(0, 0)], PieceColor::Red, 9, vec![], Some(c(0, 0)));
    let pieces = vec![p];
    let mut state = GameState::new();
    state.board_cells = board_of(&pieces);
    recalculate_score_system(&mut state, &pieces, size);
    assert_eq!(state.score, 9);
}

#[test]
fn conditions_checked_at_targets() {
    let mut cells = CellMap::new();
    cells.insert(c(1, 1), PieceColor::Red);
    assert!(check_condition(&EffectCondition::MatchesColor(PieceColor::Red), Some(c(1, 1)), &cells));
    assert!(!check_condition(&EffectCondition::MatchesColor(PieceColor::Blue), Some(c(1, 1)), &cells));
    assert!(check_condition(&EffectCondition::IsEmpty, Some(c(0, 0)), &cells));
    assert!(!check_condition(&EffectCondition::IsEmpty, None, &cells));
    assert!(check_condition(&EffectCondition::NoColorOnBoard(PieceColor::Green), None, &cells));
    assert!(!check_condition(&EffectCondition::MatchesSize(1), Some(c(1, 1)), &cells));
    let mut exclude = CellSet::new();
    exclude.insert(c(1, 1));
    assert!(no_color_on_board_excluding(&cells, &PieceColor::Red, &exclude));
    assert!(!no_color_on_board_excluding(&cells, &PieceColor::Red, &CellSet::new()));
}

#[test]
fn preview_lights_only_when_placed_and_on_board() {
    let size = c(3, 3);
    let mut cells = CellMap::new();
    cells.insert(c(2, 0), PieceColor::Red);
    let pieces: Vec<Piece> = Vec::new();
    let cond = EffectCondition::MatchesColor(PieceColor::Red);
    assert!(effect_preview_active(Some(c(1, 0)), c(1, 0), &cond, &cells, &pieces, size));
    assert!(!effect_preview_active(None, c(1, 0), &cond, &cells, &pieces, size));
    assert!(!effect_preview_active(Some(c(2, 0)), c(1, 0), &EffectCondition::IsEmpty, &cells, &pieces, size));
    assert!(puzzle_effect_preview_active(Some(c(0, 0)), c(1, 1), &EffectCondition::IsEmpty, &cells, size));
    assert!(!puzzle_effect_preview_active(Some(c(0, 0)), c(2, 0), &EffectCondition::MatchesSize(1), &cells, size));
}

#[test]
fn stash_label_counts_waiting_pieces_of_owner() {
    let a = placed(vec![c(0, 0)], PieceColor::Red, 0, vec![], None);
    let mut b = a.clone();
    b.placed_at = Some(c(0, 0));
    let mut other_type = a.clone();
    other_type.type_id = 1;
    let pieces = vec![a.clone(), a.clone(), b, other_type, a];
    let owners = vec![Owner::Player, Owner::Opponent, Owner::Player, Owner::Player, Owner::Player];
    let lifted = vec![false, false, false, false, true];
    assert_eq!(update_stash_labels(0, Owner::Player, &pieces, &owners, &lifted), 1);
    assert_eq!(update_stash_labels(0, Owner::Opponent, &pieces, &owners, &lifted), 1);
    assert_eq!(update_stash_labels(0, Owner::Unowned, &pieces, &owners, &lifted), 2);
}

#[test]
fn first_free_placement_scans_row_major() {
    let size = c(3, 3);
    let drafts = vec![placed(vec![c(0, 0), c(1, 0)], PieceColor::Red, 1, vec![], None)];
    let mut state = GameState::new();
    let first = first_free_placement(&drafts, &state, size).unwrap();
    assert_eq!(first.origin, c(0, 0));
    assert_eq!(first.shape, vec![c(0, 0), c(1, 0)]);
    assert_eq!(first.color, PieceColor::Red);
    state.board_cells.insert(c(0, 0), PieceColor::Blue);
    let second = first_free_placement(&drafts, &state, size).unwrap();
    assert_eq!(second.origin, c(1, 0));
}

#[test]
fn first_free_placement_none_when_full() {
    let size = c(1, 1);
    let drafts = vec![placed(vec![c(0, 0), c(1, 0)], PieceColor::Red, 1, vec![], None)];
    let state = GameState::new();
    assert!(first_free_placement(&drafts, &state, size).is_none());
}

#[test]
fn pick_first_free_skips_occupied_and_disabled() {
    let mut cells = CellMap::new();
    cells.insert(c(0, 0), PieceColor::Red);
    let mut disabled = CellSet::new();
    disabled.insert(c(1, 0));
    assert_eq!(pick_first_free(&cells, &disabled, c(3, 3)), Some(c(2, 0)));
    assert_eq!(pick_first_free(&cells, &disabled, c(2, 1)), None);
}

#[test]
fn greedy_placement_prefers_highest_gain() {
    let size = c(3, 3);
    let drafts = vec![placed(
        vec![c(0, 0)],
        PieceColor::Blue,
        1,
        vec![effect(EffectCondition::MatchesColor(PieceColor::Red), 10, Some(vec![c(1, 0)]))],
        None,
    )];
    let mut state = GameState::new();
    state.board_cells.insert(c(2, 0), PieceColor::Red);
    let placed_pieces: Vec<Piece> = Vec::new();
    let pl = greedy_placement(&drafts, &state, &placed_pieces, size).unwrap();
    assert_eq!(pl.origin, c(1, 0));
    assert_eq!(pl.shape, vec![c(0, 0)]);
    assert_eq!(pl.effects[0].offsets, Some(vec![c(1, 0)]));
    assert_eq!(pl.raw_config.points, 1);
}

#[test]
fn greedy_block_targets_most_aimed_cell() {
    let size = c(3, 3);
    let p = placed(
        vec![c(0, 0)],
        PieceColor::Red,
        0,
        vec![
            effect(EffectCondition::IsEmpty, 5, Some(vec![c(2, 2)])),
            effect(EffectCondition::IsEmpty, -3, Some(vec![c(1, 0)])),
        ],
        Some(c(0, 0)),
    );
    let pieces = vec![p];
    let mut state = GameState::new();
    state.board_cells = board_of(&pieces);
    assert_eq!(greedy_block_cell(&state, &pieces, size), Some(c(2, 2)));
}

#[test]
fn greedy_block_none_when_all_negative() {
    let size = c(2, 1);
    let p = placed(
        vec![c(0, 0)],
        PieceColor::Red,
        0,
        vec![effect(EffectCondition::IsEmpty, -3, Some(vec![c(1, 0)]))],
        Some(c(0, 0)),
    );
    let pieces = vec![p];
    let mut state = GameState::new();
    state.board_cells = board_of(&pieces);
    assert_eq!(greedy_block_cell(&state, &pieces, size), None);
}

#[test]
fn score_ignores_piece_order_and_unplaced_pieces() {
    let size = c(5, 5);
    let a = placed(
        vec![c(0, 0), c(1, 0)],
        PieceColor::Red,
        3,
        vec![effect(EffectCondition::MatchesColor(PieceColor::Blue), 2, Some(vec![c(0, 1)]))],
        Some(c(1, 1)),
    );
    let b = placed(
        vec![c(0, 0)],
        PieceColor::Blue,
        1,
        vec![effect(EffectCondition::MatchesSize(2), 4, Some(vec![c(0, -1)]))],
        Some(c(1, 2)),
    );
    let pieces = vec![a.clone(), b.clone()];
    let cells = board_of(&pieces);
    let total = recalculate_score_from_vectors(&cells, &pieces, size);
    assert_eq!(total, 10);
    let reversed = vec![b.clone(), a.clone()];
    assert_eq!(recalculate_score_from_vectors(&cells, &reversed, size), total);
    let spare = placed(vec![c(0, 0), c(0, 1)], PieceColor::Green, 7, vec![], None);
    let with_spare = vec![a, b, spare];
    assert_eq!(recalculate_score_from_vectors(&cells, &with_spare, size), total);
}
