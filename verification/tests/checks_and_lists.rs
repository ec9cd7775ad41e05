use tightpack::ai::{block_values_fit, greedy_fits, pieces_can_turn};
use tightpack::board::{CellMap, Coord, PieceColor};
use tightpack::config::{PieceType, RawEffectCondition, RawGameEffect, RawPieceConfig};
use tightpack::model::{BoardSide, EffectCondition, GameEffect, GameState, Piece};
use tightpack::placement::reset_board;
use tightpack::puzzle::{
    can_check_solution, can_record, can_show_solution, default_timestamp, is_user_solution_file, PuzzleData,
    PuzzlePieceData, Solution, SolutionPlacement,
};
use tightpack::ranking::{is_name_before, sort_names, sort_solutions};
use tightpack::scoring::{checked_score, contribution_fits, score_fits, ScoreRules};
use tightpack::setup::check_library;

fn c(x: i32, y: i32) -> Coord {
    Coord { x, y }
}

fn piece(shape: Vec<Coord>, color: PieceColor, points: i32, effects: Vec<GameEffect>, at: Option<Coord>) -> Piece {
    Piece {
        type_id: 0,
        shape: shape.clone(),
        original_shape: shape,
        color,
        points,
        effects: effects.clone(),
        original_effects: effects,
        placed_at: at,
        board_side: BoardSide::Single,
    }
}

fn board_of(pieces: &[Piece]) -> CellMap {
    let mut cells = CellMap::new();
    for p in pieces {
        if let Some(pos) = p.placed_at {
            for o in &p.shape {
                cells.insert(c(pos.x + o.x, pos.y + o.y), p.color);
            }
        }
    }
    cells
}

#[test]
fn score_checks_report_overflow() {
    let size = c(4, 4);
    let small = vec![
        piece(vec![c(0, 0)], PieceColor::Red, 3, vec![], Some(c(0, 0))),
        piece(vec![c(0, 0)], PieceColor::Blue, 4, vec![], Some(c(1, 0))),
    ];
    let cells = board_of(&small);
    assert_eq!(checked_score(ScoreRules::Board, &cells, &small, size), Some(7));
    assert!(score_fits(ScoreRules::Board, &cells, &small, size));

    let huge = vec![
        piece(vec![c(0, 0)], PieceColor::Red, i32::MAX, vec![], Some(c(0, 0))),
        piece(vec![c(0, 0)], PieceColor::Blue, 1, vec![], Some(c(1, 0))),
    ];
    let cells = board_of(&huge);
    assert_eq!(checked_score(ScoreRules::Board, &cells, &huge, size), None);
    assert!(!score_fits(ScoreRules::Board, &cells, &huge, size));
}

#[test]
fn contribution_check_reports_overflow() {
    let size = c(4, 4);
    let bonus = GameEffect { condition: EffectCondition::MatchesColor(PieceColor::Blue), points: 1, offsets: Some(vec![c(1, 0)]) };
    let big = piece(vec![c(0, 0)], PieceColor::Red, i32::MAX, vec![bonus.clone()], Some(c(0, 0)));
    let blue = piece(vec![c(0, 0)], PieceColor::Blue, 1, vec![], Some(c(1, 0)));
    let pieces = vec![big.clone(), blue];
    let cells = board_of(&pieces);
    assert!(!contribution_fits(&big, &cells, &pieces, size));
    let modest = piece(vec![c(0, 0)], PieceColor::Red, 5, vec![bonus], Some(c(0, 0)));
    assert!(contribution_fits(&modest, &cells, &pieces, size));
}

#[test]
fn pieces_with_extreme_offsets_cannot_turn() {
    let fine = vec![piece(vec![c(0, 0), c(1, 0)], PieceColor::Red, 1, vec![], None)];
    assert!(pieces_can_turn(&fine));
    let extreme = vec![piece(vec![c(i32::MIN, 0)], PieceColor::Red, 1, vec![], None)];
    assert!(!pieces_can_turn(&extreme));
}

#[test]
fn computer_checks_accept_ordinary_boards() {
    let size = c(3, 3);
    let state = GameState::new();
    let placed = vec![piece(vec![c(0, 0)], PieceColor::Red, 2, vec![], Some(c(0, 0)))];
    assert!(block_values_fit(&state, &placed, size));
    let draft = vec![piece(vec![c(0, 0), c(1, 0)], PieceColor::Green, 2, vec![], None)];
    assert!(greedy_fits(&draft, &state, &placed, size));
}

#[test]
fn reset_returns_every_placed_piece() {
    let mut turned = piece(vec![c(0, 0), c(1, 0)], PieceColor::Red, 2, vec![], Some(c(0, 0)));
    turned.shape = vec![c(0, 0), c(0, -1)];
    let loose = piece(vec![c(0, 0)], PieceColor::Blue, 1, vec![], None);
    let mut pieces = vec![turned, loose];
    let mut state = GameState::new();
    state.board_cells = board_of(&pieces);
    state.disabled_cells.insert(c(2, 2));
    state.score = 9;
    reset_board(&mut state, &mut pieces);
    assert_eq!(state.score, 0);
    assert_eq!(state.board_cells.len(), 0);
    assert!(state.disabled_cells.contains(c(2, 2)));
    assert_eq!(pieces[0].placed_at, None);
    assert_eq!(pieces[0].shape, vec![c(0, 0), c(1, 0)]);
    assert_eq!(pieces[1].placed_at, None);
}

fn raw(piece_type: PieceType, effects: Vec<RawGameEffect>) -> RawPieceConfig {
    RawPieceConfig { shape: vec![c(0, 0)], color: "RED".to_string(), points: 1, effects, piece_type }
}

#[test]
fn library_check_needs_effects_on_dynamic_pieces() {
    let effect = RawGameEffect { condition: RawEffectCondition::IsEmpty, points: 1, offsets: vec![c(1, 0)] };
    assert!(check_library(&vec![]));
    assert!(check_library(&vec![raw(PieceType::Static, vec![]), raw(PieceType::Dynamic, vec![effect])]));
    assert!(!check_library(&vec![raw(PieceType::Static, vec![]), raw(PieceType::Dynamic, vec![])]));
}

fn puzzle(color: &str, points: i32, shape: Vec<Coord>) -> PuzzleData {
    PuzzleData {
        board_size: c(4, 4),
        blocked_cells: vec![],
        pieces: vec![PuzzlePieceData { shape, color: color.to_string(), points, count: 2, effects: vec![] }],
    }
}

fn sol(score: i32, placements: Vec<SolutionPlacement>) -> Solution {
    Solution { score, placements, timestamp: default_timestamp() }
}

#[test]
fn solution_checks_catch_unknown_colours_and_overflow() {
    let two = vec![
        SolutionPlacement { piece: 0, pos: c(0, 0), rot: 0 },
        SolutionPlacement { piece: 0, pos: c(2, 2), rot: 1 },
    ];
    assert!(can_check_solution(&sol(2, two.clone()), &puzzle("RED", 1, vec![c(0, 0)])));
    assert!(!can_check_solution(&sol(2, two.clone()), &puzzle("PURPLE", 1, vec![c(0, 0)])));
    assert!(!can_check_solution(&sol(2, two), &puzzle("RED", i32::MAX, vec![c(0, 0)])));
}

#[test]
fn showing_a_solution_needs_representable_cells() {
    let data = puzzle("RED", 1, vec![c(0, 0), c(1, 0)]);
    let near = sol(1, vec![SolutionPlacement { piece: 0, pos: c(1, 1), rot: 2 }]);
    assert!(can_show_solution(&near, &data));
    let edge = sol(1, vec![SolutionPlacement { piece: 0, pos: c(i32::MAX, 0), rot: 0 }]);
    assert!(!can_show_solution(&edge, &data));
    let unknown = sol(1, vec![SolutionPlacement { piece: 3, pos: c(i32::MAX, 0), rot: 0 }]);
    assert!(can_show_solution(&unknown, &data));
}

#[test]
fn recording_needs_turnable_originals() {
    let data = puzzle("RED", 1, vec![c(0, 0), c(1, 0)]);
    let mut turned = piece(vec![c(0, 0), c(1, 0)], PieceColor::Red, 1, vec![], Some(c(1, 1)));
    turned.shape = vec![c(0, 0), c(0, -1)];
    assert!(can_record(&vec![turned.clone()], &data));
    let extreme = puzzle("RED", 1, vec![c(i32::MIN, 0)]);
    assert!(!can_record(&vec![turned], &extreme));
}

#[test]
fn saved_solution_files_are_timestamps() {
    assert!(is_user_solution_file("2024-01-02-03-04-05.ron"));
    assert!(!is_user_solution_file("base.ron"));
    assert!(!is_user_solution_file("2024-01-02-03-04-05.txt"));
    assert!(!is_user_solution_file("x2024-01-02-03-04-05.ron"));
}

#[test]
fn names_compare_lexicographically() {
    let s = |t: &str| t.to_string();
    assert!(is_name_before(&s("abc"), &s("abd")));
    assert!(is_name_before(&s("ab"), &s("abc")));
    assert!(!is_name_before(&s("abc"), &s("ab")));
    assert!(!is_name_before(&s("abc"), &s("abc")));
    assert!(is_name_before(&s("B"), &s("a")));
}

#[test]
fn names_are_sorted() {
    let mut names = vec!["puzzle_3".to_string(), "puzzle_1".to_string(), "intro".to_string(), "puzzle_10".to_string()];
    sort_names(&mut names);
    assert_eq!(names, vec!["intro", "puzzle_1", "puzzle_10", "puzzle_3"]);
}

#[test]
fn solutions_are_listed_by_score_then_name() {
    let entry = |name: &str, score: i32| (name.to_string(), sol(score, vec![]));
    let mut list = vec![entry("b.ron", 5), entry("a.ron", 3), entry("c.ron", 9), entry("a.ron", 5)];
    sort_solutions(&mut list);
    let order: Vec<(String, i32)> = list.iter().map(|(n, s)| (n.clone(), s.score)).collect();
    assert_eq!(
        order,
        vec![
            ("c.ron".to_string(), 9),
            ("a.ron".to_string(), 5),
            ("b.ron".to_string(), 5),
            ("a.ron".to_string(), 3),
        ]
    );
}

#[test]
fn saved_file_names_are_recognised() {
    let ts = "2031-12-30-23-59-07".to_string();
    let name = tightpack::puzzle::solution_file_name(&ts);
    assert_eq!(name, "2031-12-30-23-59-07.ron");
    assert!(is_user_solution_file(&name));
    assert!(is_user_solution_file("٢٠٢٤-01-02-03-04-05.ron"));
    assert!(!is_user_solution_file("+10000-01-02-03-04-05.ron"));
    assert!(!is_user_solution_file("2024-01-02-03-04-0a.ron"));
    assert!(!is_user_solution_file("2024-01-02-03-04-05.ron "));
}
