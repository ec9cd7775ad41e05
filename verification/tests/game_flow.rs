use tightpack::board::{Coord, PieceColor};
use tightpack::duel::{
    generate_duel_stash, handle_destroy_input, on_confirm_click_duel, recalculate_duel_score_system,
    setup_duel, DuelMode, DuelState, DuelTurn,
};
use tightpack::model::{BoardSide, EffectCondition, GameEffect, Piece};
use tightpack::config::{PieceType, RawEffectCondition, RawGameEffect, RawPieceConfig};
use tightpack::session::{handle_escape, handle_reset, menu_interaction, AppState, ResetAction, RoundCounter};
use tightpack::settings::{
    apply_settings, checkbox_label, handle_height_buttons, handle_rounds_buttons, handle_width_buttons,
    radio_click, setup_settings, toggle_checkbox, AIType, BoardSize, GameSettings, SettingKey,
};

fn c(x: i32, y: i32) -> Coord {
    Coord { x, y }
}

#[test]
fn escape_reaches_menu_within_three_presses() {
    let all = [
        AppState::Menu,
        AppState::Sandbox,
        AppState::Draft,
        AppState::Duel,
        AppState::Settings,
        AppState::Controls,
        AppState::PuzzlesList,
        AppState::Puzzle,
        AppState::SolutionList,
        AppState::SolutionView,
    ];
    for s in all {
        let mut cur = s;
        for _ in 0..3 {
            if let Some(next) = handle_escape(cur) {
                cur = next;
            }
        }
        assert_eq!(cur, AppState::Menu);
    }
    assert_eq!(handle_escape(AppState::SolutionView), Some(AppState::SolutionList));
    assert_eq!(handle_escape(AppState::Puzzle), Some(AppState::PuzzlesList));
    assert_eq!(handle_escape(AppState::Menu), None);
    assert_eq!(AppState::default(), AppState::Menu);
}

#[test]
fn reset_key_actions() {
    assert_eq!(handle_reset(AppState::Sandbox, false), ResetAction::ClearBoard);
    assert_eq!(handle_reset(AppState::Draft, false), ResetAction::Restart(AppState::Draft));
    assert_eq!(handle_reset(AppState::Duel, true), ResetAction::Restart(AppState::Duel));
    assert_eq!(handle_reset(AppState::Puzzle, true), ResetAction::ClearBoard);
    assert_eq!(handle_reset(AppState::Puzzle, false), ResetAction::Restart(AppState::Puzzle));
    assert_eq!(handle_reset(AppState::Menu, true), ResetAction::Nothing);
}

#[test]
fn menu_labels_lead_to_screens() {
    assert_eq!(menu_interaction(&"Sandbox".to_string()), Some(AppState::Sandbox));
    assert_eq!(menu_interaction(&"Draft".to_string()), Some(AppState::Draft));
    assert_eq!(menu_interaction(&"Duel".to_string()), Some(AppState::Duel));
    assert_eq!(menu_interaction(&"Puzzles".to_string()), Some(AppState::PuzzlesList));
    assert_eq!(menu_interaction(&"Settings".to_string()), Some(AppState::Settings));
    assert_eq!(menu_interaction(&"Controls".to_string()), None);
}

#[test]
fn game_lasts_exactly_total_rounds() {
    let mut r = RoundCounter::new(3);
    let mut played = 0;
    while !r.is_game_over() {
        r.advance();
        played += 1;
    }
    assert_eq!(played, 3);
    assert!(RoundCounter::new(0).is_game_over());
    r.advance();
    assert_eq!(r.displayed_current(), 3);
}

#[test]
fn settings_defaults() {
    let s = GameSettings::default();
    assert!(s.duel_blocking_enabled);
    assert_eq!(s.ai_mode, AIType::Dummy);
    assert_eq!(s.rounds, 20);
    assert_eq!(s.board_width, 10);
    assert_eq!(s.board_height, 10);
    assert!(s.same_piece_set);
    assert_eq!(BoardSize::default().0, c(10, 10));
}

#[test]
fn counter_buttons_stay_in_range() {
    let mut t = setup_settings(&GameSettings::default());
    t.rounds = 1;
    assert_eq!(handle_rounds_buttons(&mut t, true, false), None);
    assert_eq!(t.rounds, 1);
    t.rounds = 99;
    assert_eq!(handle_rounds_buttons(&mut t, false, true), None);
    assert_eq!(t.rounds, 99);
    assert_eq!(handle_rounds_buttons(&mut t, true, true), Some(99));
    assert_eq!(handle_rounds_buttons(&mut t, true, false), Some(98));
    t.board_width = 12;
    assert_eq!(handle_width_buttons(&mut t, false, true), None);
    assert_eq!(handle_width_buttons(&mut t, true, false), Some(11));
    t.board_height = 7;
    assert_eq!(handle_height_buttons(&mut t, true, false), None);
    assert_eq!(handle_height_buttons(&mut t, false, true), Some(8));
    assert_eq!(t.board_height, 8);
}

#[test]
fn checkboxes_radios_and_apply() {
    let mut settings = GameSettings::default();
    let mut t = setup_settings(&settings);
    assert!(!toggle_checkbox(&mut t, true, SettingKey::DuelBlocking));
    assert!(!t.duel_blocking_enabled);
    assert!(!toggle_checkbox(&mut t, true, SettingKey::SamePieceSet));
    assert!(!t.same_piece_set);
    assert!(toggle_checkbox(&mut t, false, SettingKey::AIMode));
    assert_eq!(t.ai_mode, AIType::Dummy);
    assert_eq!(checkbox_label(true), "[x]");
    assert_eq!(checkbox_label(false), "[ ]");
    assert!(radio_click(&mut t, AIType::Greedy, AIType::Greedy));
    assert!(!radio_click(&mut t, AIType::Greedy, AIType::Random));
    assert_eq!(t.ai_mode, AIType::Greedy);
    t.board_width = 8;
    t.board_height = 12;
    let size = apply_settings(&t, &mut settings);
    assert_eq!(size.0, c(8, 12));
    assert_eq!(settings.ai_mode, AIType::Greedy);
    assert!(!settings.duel_blocking_enabled);
}

fn raw(shape: Vec<Coord>, color: &str, points: i32, effects: Vec<RawGameEffect>, piece_type: PieceType) -> RawPieceConfig {
    RawPieceConfig { shape, color: color.to_string(), points, effects, piece_type }
}

fn library() -> Vec<RawPieceConfig> {
    vec![
        raw(vec![c(0, 0)], "RED", 1, vec![], PieceType::Static),
        raw(vec![c(0, 0), c(1, 0)], "BLUE", 2, vec![], PieceType::Static),
        raw(
            vec![c(0, 0), c(0, 1)],
            "GREEN",
            3,
            vec![RawGameEffect { condition: RawEffectCondition::IsEmpty, points: 1, offsets: vec![c(1, 0), c(2, 0)] }],
            PieceType::Dynamic,
        ),
        raw(vec![c(0, 0)], "NOPE", 4, vec![], PieceType::Static),
    ]
}

fn opponent_draft(shape: Vec<Coord>) -> Piece {
    Piece {
        type_id: 0,
        shape: shape.clone(),
        original_shape: shape,
        color: PieceColor::Blue,
        points: 2,
        effects: vec![GameEffect { condition: EffectCondition::IsEmpty, points: 1, offsets: Some(vec![c(1, 0)]) }],
        original_effects: vec![],
        placed_at: None,
        board_side: BoardSide::Right,
    }
}

#[test]
fn duel_turns_alternate_with_blocking() {
    let mut settings = GameSettings::default();
    settings.rounds = 2;
    let (mut duel, mut rounds) = setup_duel(&settings);
    assert_eq!(duel.mode, DuelMode::Destroy);
    let size = c(3, 3);
    let drafts = vec![opponent_draft(vec![c(0, 0)])];
    let no_pieces: Vec<Piece> = vec![];
    let r1 = on_confirm_click_duel(&mut duel, &mut rounds, AIType::Dummy, &no_pieces, &drafts, &drafts, size);
    assert!(r1.acted);
    let placed = r1.opponent_piece.unwrap();
    assert_eq!(placed.placed_at, Some(c(0, 0)));
    assert_eq!(placed.board_side, BoardSide::Right);
    assert_eq!(duel.opponent.board_cells.get(c(0, 0)), Some(PieceColor::Blue));
    assert_eq!(duel.turn, DuelTurn::Destroy);
    assert_eq!(rounds.current, 0);
    assert!(!r1.new_stash);
    assert!(handle_destroy_input(&mut duel, c(1, 1), size));
    assert!(!handle_destroy_input(&mut duel, c(0, 0), size));
    assert!(!handle_destroy_input(&mut duel, c(5, 5), size));
    let r2 = on_confirm_click_duel(&mut duel, &mut rounds, AIType::Dummy, &no_pieces, &drafts, &drafts, size);
    assert_eq!(r2.committed_block, Some(c(1, 1)));
    assert_eq!(r2.opponent_block, Some(c(0, 0)));
    assert!(duel.opponent.disabled_cells.contains(c(1, 1)));
    assert!(duel.player.disabled_cells.contains(c(0, 0)));
    assert_eq!(duel.turn, DuelTurn::Place);
    assert_eq!(duel.pending_disable, None);
    assert_eq!(rounds.current, 1);
    assert!(r2.new_stash);
}

#[test]
fn duel_without_blocking_ends_round_each_confirm() {
    let mut settings = GameSettings::default();
    settings.rounds = 1;
    settings.duel_blocking_enabled = false;
    let (mut duel, mut rounds) = setup_duel(&settings);
    assert_eq!(duel.mode, DuelMode::Basic);
    let drafts = vec![opponent_draft(vec![c(0, 0), c(1, 0)])];
    let no_pieces: Vec<Piece> = vec![];
    assert!(!handle_destroy_input(&mut duel, c(1, 1), c(3, 3)));
    let r = on_confirm_click_duel(&mut duel, &mut rounds, AIType::Greedy, &no_pieces, &drafts, &drafts, c(3, 3));
    assert!(r.acted);
    assert!(r.opponent_piece.is_some());
    assert_eq!(duel.turn, DuelTurn::Place);
    assert!(rounds.is_game_over());
    assert!(!r.new_stash);
    let again = on_confirm_click_duel(&mut duel, &mut rounds, AIType::Greedy, &no_pieces, &drafts, &drafts, c(3, 3));
    assert!(!again.acted);
    assert_eq!(rounds.current, 1);
}

#[test]
fn duel_scores_and_default_state() {
    let mut duel = DuelState::default();
    assert_eq!(duel.turn, DuelTurn::Place);
    assert_eq!(duel.mode, DuelMode::Basic);
    let mut p = opponent_draft(vec![c(0, 0)]);
    p.placed_at = Some(c(0, 0));
    duel.opponent.board_cells.insert(c(0, 0), PieceColor::Blue);
    let no_pieces: Vec<Piece> = vec![];
    recalculate_duel_score_system(&mut duel, &no_pieces, &vec![p], c(3, 3));
    assert_eq!(duel.player.score, 0);
    assert_eq!(duel.opponent.score, 3);
}

#[test]
fn duel_stash_gives_both_sides_the_same_pieces() {
    let lib = library();
    let rounds = RoundCounter::new(1);
    let st = generate_duel_stash(&lib, &rounds).unwrap();
    assert_eq!(st.indices.len(), 3);
    assert_eq!(st.player.len(), 3);
    for i in 0..3 {
        assert!(st.indices[i] < 4);
        for j in 0..3 {
            if i != j {
                assert_ne!(st.indices[i], st.indices[j]);
            }
        }
        assert_eq!(st.player[i].type_id, i);
        assert_eq!(st.player[i].board_side, BoardSide::Left);
        assert_eq!(st.opponent[i].board_side, BoardSide::Right);
        assert_eq!(st.opponent[i].shape, st.player[i].shape);
        assert_eq!(st.opponent[i].color, st.player[i].color);
        assert_eq!(st.player[i].shape, lib[st.indices[i]].shape);
    }
    let mut over = RoundCounter::new(1);
    over.advance();
    assert!(generate_duel_stash(&lib, &over).is_none());
}

#[test]
fn counter_counts_every_advance() {
    let mut r = RoundCounter::new(2);
    for k in 1..=5u32 {
        r.advance();
        assert_eq!(r.current, k);
        assert_eq!(r.total, 2);
        assert_eq!(r.is_game_over(), k >= 2);
    }
}
