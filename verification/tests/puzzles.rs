use std::hash::Hasher;
use tightpack::board::{Coord, PieceColor};
use tightpack::config::{RawEffectCondition, RawGameEffect};
use tightpack::model::{BoardSide, GameState, Piece};
use tightpack::puzzle::{
    compute_rotation, default_timestamp, get_current_solution, setup_puzzle, setup_solution_view,
    solution_board, solution_needs_saving, solution_placements, validate_solution, validate_solution_points, PuzzleData,
    PuzzlePieceData, Solution, SolutionPlacement,
};

fn c(x: i32, y: i32) -> Coord {
    Coord { x, y }
}

fn puzzle() -> PuzzleData {
    PuzzleData {
        board_size: c(4, 3),
        blocked_cells: vec![c(3, 2), c(9, 9)],
        pieces: vec![
            PuzzlePieceData {
                shape: vec![c(0, 0), c(1, 0)],
                color: "RED".to_string(),
                points: 3,
                count: 1,
                effects: vec![RawGameEffect {
                    condition: RawEffectCondition::MatchesColor("BLUE".to_string()),
                    points: 5,
                    offsets: vec![c(0, 1)],
                }],
            },
            PuzzlePieceData {
                shape: vec![c(0, 0)],
                color: "BLUE".to_string(),
                points: 1,
                count: 2,
                effects: vec![],
            },
        ],
    }
}

fn solution(score: i32, placements: Vec<SolutionPlacement>) -> Solution {
    Solution { score, placements, timestamp: default_timestamp() }
}

fn pl(piece: usize, x: i32, y: i32, rot: u32) -> SolutionPlacement {
    SolutionPlacement { piece, pos: c(x, y), rot }
}

#[test]
fn valid_solution_with_effect_is_accepted() {
    let data = puzzle();
    let s = solution(9, vec![pl(0, 0, 0, 0), pl(1, 0, 1, 0)]);
    assert!(validate_solution(&s, &data));
    let wrong = solution(4, vec![pl(0, 0, 0, 0), pl(1, 0, 1, 0)]);
    assert!(!validate_solution(&wrong, &data));
}

#[test]
fn rotated_placement_turns_shape_and_effects() {
    let data = puzzle();
    let s = solution(4, vec![pl(0, 1, 2, 1), pl(1, 3, 0, 0)]);
    assert!(validate_solution(&s, &data));
    let board = solution_board(&s, &data).unwrap();
    assert_eq!(board.0.get(c(1, 2)), Some(PieceColor::Red));
    assert_eq!(board.0.get(c(1, 1)), Some(PieceColor::Red));
    assert_eq!(board.1[0].shape, vec![c(0, 0), c(0, -1)]);
    assert_eq!(board.1[0].effects[0].offsets, Some(vec![c(1, 0)]));
}

#[test]
fn unknown_piece_type_is_refused() {
    let data = puzzle();
    assert!(!validate_solution(&solution(0, vec![pl(2, 0, 0, 0)]), &data));
}

#[test]
fn too_many_copies_are_refused() {
    let data = puzzle();
    let s = solution(6, vec![pl(0, 0, 0, 0), pl(0, 0, 2, 0)]);
    assert!(!validate_solution(&s, &data));
    let ok = solution(2, vec![pl(1, 0, 0, 0), pl(1, 1, 0, 0)]);
    assert!(validate_solution(&ok, &data));
    let three = solution(3, vec![pl(1, 0, 0, 0), pl(1, 1, 0, 0), pl(1, 2, 0, 0)]);
    assert!(!validate_solution(&three, &data));
}

#[test]
fn off_board_blocked_or_overlapping_cells_are_refused() {
    let data = puzzle();
    assert!(!validate_solution(&solution(3, vec![pl(0, 3, 0, 0)]), &data));
    assert!(!validate_solution(&solution(1, vec![pl(1, 3, 2, 0)]), &data));
    assert!(!validate_solution(&solution(4, vec![pl(0, 0, 0, 0), pl(1, 1, 0, 0)]), &data));
    assert!(!validate_solution(&solution(1, vec![pl(1, -1, 0, 0)]), &data));
}

#[test]
fn empty_solution_scores_zero() {
    let data = puzzle();
    assert!(validate_solution(&solution(0, vec![]), &data));
    assert!(!validate_solution(&solution(1, vec![]), &data));
}

#[test]
fn rotation_is_recovered_from_shape() {
    let original = vec![c(0, 0), c(1, 0), c(1, 1)];
    assert_eq!(compute_rotation(&original, &original), 0);
    let once = vec![c(0, 0), c(0, -1), c(1, -1)];
    assert_eq!(compute_rotation(&original, &once), 1);
    let twice_reordered = vec![c(-1, -1), c(0, 0), c(-1, 0)];
    assert_eq!(compute_rotation(&original, &twice_reordered), 2);
    let three = vec![c(0, 0), c(0, 1), c(-1, 1)];
    assert_eq!(compute_rotation(&original, &three), 3);
    let unrelated = vec![c(5, 5)];
    assert_eq!(compute_rotation(&original, &unrelated), 0);
}

#[test]
fn symmetric_shape_reports_fewest_turns() {
    let bar = vec![c(-1, 0), c(0, 0), c(1, 0)];
    let bar_twice = vec![c(1, 0), c(0, 0), c(-1, 0)];
    assert_eq!(compute_rotation(&bar, &bar_twice), 0);
}

fn stash_piece(type_id: usize, shape: Vec<Coord>, at: Option<Coord>) -> Piece {
    Piece {
        type_id,
        shape: shape.clone(),
        original_shape: shape,
        color: PieceColor::Red,
        points: 0,
        effects: vec![],
        original_effects: vec![],
        placed_at: at,
        board_side: BoardSide::Single,
    }
}

#[test]
fn current_solution_records_placed_pieces() {
    let data = puzzle();
    let pieces = vec![
        stash_piece(1, vec![c(0, 0)], None),
        stash_piece(0, vec![c(0, 0), c(0, -1)], Some(c(1, 2))),
        stash_piece(1, vec![c(0, 0)], Some(c(3, 0))),
    ];
    let placements = solution_placements(&pieces, &data).unwrap();
    assert_eq!(placements, vec![pl(0, 1, 2, 1), pl(1, 3, 0, 0)]);
    let mut state = GameState::new();
    state.score = 4;
    let (sol, _hash) = get_current_solution(&pieces, &state, &data).unwrap();
    assert_eq!(sol.score, 4);
    assert_eq!(sol.placements, placements);
    assert!(!sol.timestamp.is_empty());
}

#[test]
fn current_solution_none_when_nothing_placed_or_unknown_type() {
    let data = puzzle();
    let state = GameState::new();
    let nothing = vec![stash_piece(0, vec![c(0, 0)], None)];
    assert!(get_current_solution(&nothing, &state, &data).is_none());
    let unknown = vec![stash_piece(7, vec![c(0, 0)], Some(c(0, 0)))];
    assert!(solution_placements(&unknown, &data).is_none());
}

#[test]
fn saving_skips_the_last_saved_hash() {
    assert!(solution_needs_saving(None, 5));
    assert!(solution_needs_saving(Some(4), 5));
    assert!(!solution_needs_saving(Some(5), 5));
}

#[test]
fn default_timestamp_is_all_zero() {
    assert_eq!(default_timestamp(), "0000-00-00-00-00-00");
}

#[test]
fn puzzle_setup_disables_blocked_cells_on_board() {
    let data = puzzle();
    let (state, pieces) = setup_puzzle(&data);
    assert_eq!(state.score, 0);
    assert_eq!(state.board_cells.len(), 0);
    assert_eq!(state.disabled_cells.len(), 1);
    assert!(state.disabled_cells.contains(c(3, 2)));
    assert_eq!(pieces.len(), 3);
    assert_eq!(pieces[0].type_id, 0);
    assert_eq!(pieces[0].color, PieceColor::Red);
    assert_eq!(pieces[0].effects.len(), 1);
    assert_eq!(pieces[1].type_id, 1);
    assert_eq!(pieces[2].type_id, 1);
    assert_eq!(pieces[2].color, PieceColor::Blue);
    assert_eq!(pieces[2].placed_at, None);
}

#[test]
fn solution_view_paints_known_placements() {
    let data = puzzle();
    let s = solution(4, vec![pl(0, 1, 2, 1), pl(5, 0, 0, 0), pl(1, 3, 0, 0)]);
    let (state, pieces) = setup_solution_view(&s, &data);
    assert_eq!(state.score, 4);
    assert_eq!(state.board_cells.len(), 3);
    assert_eq!(state.board_cells.get(c(1, 1)), Some(PieceColor::Red));
    assert_eq!(state.board_cells.get(c(3, 0)), Some(PieceColor::Blue));
    assert_eq!(state.disabled_cells.len(), 2);
    assert_eq!(pieces.len(), 2);
    assert_eq!(pieces[0].placed_at, Some(c(1, 2)));
    assert!(pieces[0].effects.is_empty());
}

#[test]
fn base_points_check_ignores_effects() {
    let data = puzzle();
    let placements = vec![pl(0, 0, 0, 0), pl(1, 0, 1, 0)];
    assert!(validate_solution_points(&solution(4, placements.clone()), &data));
    assert!(!validate_solution_points(&solution(9, placements), &data));
    assert!(!validate_solution_points(&solution(3, vec![pl(0, 3, 0, 0)]), &data));
    assert!(!validate_solution_points(&solution(0, vec![pl(2, 0, 0, 0)]), &data));
    assert!(validate_solution_points(&solution(0, vec![]), &data));
}

#[test]
fn validity_ignores_order_full_turns_and_timestamp() {
    let data = puzzle();
    let s = solution(9, vec![pl(0, 0, 0, 0), pl(1, 0, 1, 0)]);
    let mut reordered = solution(9, vec![pl(1, 0, 1, 8), pl(0, 0, 0, 4)]);
    reordered.timestamp = "2024-05-06-07-08-09".to_string();
    assert!(validate_solution(&s, &data));
    assert_eq!(validate_solution(&reordered, &data), validate_solution(&s, &data));
    let bad = solution(9, vec![pl(0, 0, 0, 0), pl(1, 0, 0, 0)]);
    let bad_reordered = solution(9, vec![pl(1, 0, 0, 4), pl(0, 0, 0, 0)]);
    assert!(!validate_solution(&bad, &data));
    assert_eq!(validate_solution(&bad_reordered, &data), validate_solution(&bad, &data));
}

#[test]
fn current_solution_hash_and_timestamp() {
    let data = puzzle();
    let pieces = vec![stash_piece(1, vec![c(0, 0)], Some(c(3, 0)))];
    let mut state = GameState::new();
    state.score = 1;
    let (sol, hash) = get_current_solution(&pieces, &state, &data).unwrap();
    let ts: Vec<char> = sol.timestamp.chars().collect();
    assert_eq!(ts.len(), 19);
    for (k, ch) in ts.iter().enumerate() {
        if [4, 7, 10, 13, 16].contains(&k) {
            assert_eq!(*ch, '-');
        } else {
            assert!(ch.is_ascii_digit());
        }
    }
    let mut bytes: Vec<u8> = Vec::new();
    bytes.extend_from_slice(&1i32.to_le_bytes());
    bytes.extend_from_slice(&1u64.to_le_bytes());
    bytes.extend_from_slice(&1u64.to_le_bytes());
    bytes.extend_from_slice(&3i32.to_le_bytes());
    bytes.extend_from_slice(&0i32.to_le_bytes());
    bytes.extend_from_slice(&0u32.to_le_bytes());
    bytes.extend_from_slice(&19u64.to_le_bytes());
    for ch in &ts {
        bytes.extend_from_slice(&(*ch as u32).to_le_bytes());
    }
    let mut hasher = std::collections::hash_map::DefaultHasher::new();
    hasher.write(&bytes);
    assert_eq!(hash, hasher.finish());
}
