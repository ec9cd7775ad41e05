use tightpack::board::{Coord, PieceColor};
use tightpack::colors::{available_colors, color_map_with_yellow, color_name, get_color_map};
use tightpack::config::{default_piece_type, PieceType, RawEffectCondition, RawGameEffect, RawPieceConfig};
use tightpack::model::{BoardSide, EffectCondition, GameEffect, Piece};
use tightpack::session::RoundCounter;
use tightpack::settings::GameSettings;
use tightpack::setup::{
    bake_effects, draw_stash_indices, generate_draft_stash, on_confirm_click, random_color,
    randomize_piece_properties, refresh_draft_stash, setup_sandbox, shape_extent, spawn_draggable_piece,
    DraftConfirm,
};
use tightpack::text::{
    contribution_label, get_effect_description, number_label, puzzle_tooltip_text, round_label, tooltip_text,
    EffectDescriptions,
};

fn c(x: i32, y: i32) -> Coord {
    Coord { x, y }
}

fn raw(shape: Vec<Coord>, color: &str, points: i32, effects: Vec<RawGameEffect>, piece_type: PieceType) -> RawPieceConfig {
    RawPieceConfig { shape, color: color.to_string(), points, effects, piece_type }
}

fn dynamic_piece() -> RawPieceConfig {
    raw(
        vec![c(0, 0), c(0, 1)],
        "GREEN",
        3,
        vec![
            RawGameEffect {
                condition: RawEffectCondition::MatchesColor("RED".to_string()),
                points: 2,
                offsets: vec![c(1, 0), c(2, 0), c(3, 0)],
            },
            RawGameEffect { condition: RawEffectCondition::MatchesSize(9), points: 4, offsets: vec![] },
        ],
        PieceType::Dynamic,
    )
}

#[test]
fn color_maps_resolve_names() {
    let m = get_color_map();
    assert_eq!(m.get(&"RED".to_string()), Some(PieceColor::Red));
    assert_eq!(m.get(&"GREEN".to_string()), Some(PieceColor::Green));
    assert_eq!(m.get(&"YELLOW".to_string()), None);
    assert_eq!(m.get_or_white(&"purple".to_string()), PieceColor::White);
    let y = color_map_with_yellow();
    assert_eq!(y.get(&"YELLOW".to_string()), Some(PieceColor::Yellow));
    assert_eq!(color_name(PieceColor::Blue), "BLUE");
    assert_eq!(color_name(PieceColor::Yellow), "UNKNOWN");
    assert_eq!(available_colors(), vec!["RED".to_string(), "BLUE".to_string(), "GREEN".to_string()]);
    assert_eq!(default_piece_type(), PieceType::Static);
    assert_eq!(PieceType::default(), PieceType::Static);
}

#[test]
fn baking_resolves_colors_and_board_wide_effects() {
    let r = raw(
        vec![c(0, 0)],
        "BLUE",
        1,
        vec![
            RawGameEffect {
                condition: RawEffectCondition::NoColorOnBoard("YELLOW".to_string()),
                points: 3,
                offsets: vec![],
            },
            RawGameEffect {
                condition: RawEffectCondition::MatchesColor("RED".to_string()),
                points: 2,
                offsets: vec![c(1, 0)],
            },
        ],
        PieceType::Static,
    );
    let plain = bake_effects(&r, &get_color_map());
    assert_eq!(plain[0].condition, EffectCondition::NoColorOnBoard(PieceColor::White));
    assert_eq!(plain[0].offsets, None);
    assert_eq!(plain[1].condition, EffectCondition::MatchesColor(PieceColor::Red));
    assert_eq!(plain[1].offsets, Some(vec![c(1, 0)]));
    let with_yellow = bake_effects(&r, &color_map_with_yellow());
    assert_eq!(with_yellow[0].condition, EffectCondition::NoColorOnBoard(PieceColor::Yellow));
    let (color, effects) = randomize_piece_properties(&r, &get_color_map());
    assert_eq!(color, PieceColor::Blue);
    assert_eq!(effects.len(), 2);
}

#[test]
fn dynamic_pieces_get_one_random_variant() {
    let r = dynamic_piece();
    for _ in 0..50 {
        let (color, effects) = randomize_piece_properties(&r, &get_color_map());
        assert!(color == PieceColor::Red || color == PieceColor::Blue || color == PieceColor::Green);
        assert_eq!(effects.len(), 1);
        let e = &effects[0];
        match e.condition {
            EffectCondition::MatchesColor(col) => {
                assert_eq!(e.points, 2);
                assert!(col == PieceColor::Red || col == PieceColor::Blue || col == PieceColor::Green);
                let offs = e.offsets.clone().unwrap();
                assert!(!offs.is_empty() && offs.len() <= 3);
                for (i, o) in offs.iter().enumerate() {
                    assert!(*o == c(1, 0) || *o == c(2, 0) || *o == c(3, 0));
                    assert!(!offs[i + 1..].contains(o));
                }
            }
            EffectCondition::MatchesSize(n) => {
                assert_eq!(e.points, 4);
                assert!((1..=4).contains(&n));
                assert_eq!(e.offsets, None);
            }
            _ => panic!("unexpected condition"),
        }
        let rc = random_color(&get_color_map());
        assert!(rc == PieceColor::Red || rc == PieceColor::Blue || rc == PieceColor::Green);
    }
}

#[test]
fn stash_draws_are_distinct() {
    for n in 0..6usize {
        let v = draw_stash_indices(n);
        assert_eq!(v.len(), n.min(3));
        for i in 0..v.len() {
            assert!(v[i] < n);
            for j in 0..i {
                assert_ne!(v[i], v[j]);
            }
        }
    }
}

#[test]
fn extent_of_shapes() {
    assert_eq!(shape_extent(&vec![]), (0, 0, 0, 0));
    assert_eq!(shape_extent(&vec![c(1, -2), c(-3, 4), c(0, 0)]), (-3, 1, -2, 4));
}

fn library() -> Vec<RawPieceConfig> {
    vec![
        raw(vec![c(0, 0)], "RED", 1, vec![], PieceType::Static),
        raw(vec![c(0, 0), c(1, 0)], "YELLOW", 2, vec![], PieceType::Static),
        dynamic_piece(),
        raw(vec![c(0, 0)], "BLUE", 4, vec![], PieceType::Static),
    ]
}

#[test]
fn draft_stash_offers_three_different_definitions() {
    let lib = library();
    let v = refresh_draft_stash(&lib, &RoundCounter::new(2)).unwrap();
    assert_eq!(v.len(), 3);
    for i in 0..3 {
        let t = v[i].type_id;
        assert!(t < 4);
        assert_eq!(v[i].shape, lib[t].shape);
        assert_eq!(v[i].points, lib[t].points);
        assert_eq!(v[i].placed_at, None);
        assert_eq!(v[i].board_side, BoardSide::Single);
        if t == 1 {
            assert_eq!(v[i].color, PieceColor::Yellow);
        }
        for j in 0..i {
            assert_ne!(v[i].type_id, v[j].type_id);
        }
    }
    let mut over = RoundCounter::new(1);
    over.advance();
    assert!(refresh_draft_stash(&lib, &over).is_none());
}

#[test]
fn draft_rounds_and_confirm() {
    let lib = library();
    let mut settings = GameSettings::default();
    settings.rounds = 2;
    let (mut rounds, first) = generate_draft_stash(&lib, &settings);
    assert_eq!(rounds.current, 0);
    assert!(first.is_some());
    match on_confirm_click(&mut rounds, &lib) {
        DraftConfirm::NextStash(v) => assert_eq!(v.len(), 3),
        _ => panic!("expected new pieces"),
    }
    assert!(matches!(on_confirm_click(&mut rounds, &lib), DraftConfirm::Finished));
    assert!(matches!(on_confirm_click(&mut rounds, &lib), DraftConfirm::Ignored));
    assert_eq!(rounds.current, 2);
    settings.rounds = 0;
    assert!(generate_draft_stash(&lib, &settings).1.is_none());
}

#[test]
fn sandbox_offers_ten_of_each() {
    let lib = library();
    let v = setup_sandbox(&lib);
    assert_eq!(v.len(), 40);
    for (k, p) in v.iter().enumerate() {
        assert_eq!(p.type_id, k / 10);
        assert_eq!(p.shape, lib[k / 10].shape);
    }
    assert_eq!(v[10].color, PieceColor::White);
}

#[test]
fn new_stash_piece_keeps_originals() {
    let effects = vec![GameEffect { condition: EffectCondition::IsEmpty, points: 1, offsets: None }];
    let p = spawn_draggable_piece(4, &vec![c(0, 0), c(1, 1)], PieceColor::Green, 6, &effects, BoardSide::Left);
    assert_eq!(p.type_id, 4);
    assert_eq!(p.original_shape, p.shape);
    assert_eq!(p.original_effects.len(), 1);
    assert_eq!(p.placed_at, None);
    assert_eq!(p.board_side, BoardSide::Left);
}

fn descs() -> EffectDescriptions {
    EffectDescriptions {
        descriptions: vec![
            ("MatchesColor(X)".to_string(), "Cell must be {X} for {points}".to_string()),
            ("IsEmpty".to_string(), "Keep {color} for {points}".to_string()),
        ],
    }
}

#[test]
fn effect_descriptions_fill_in_placeholders() {
    let d = descs();
    assert_eq!(get_effect_description(&EffectCondition::MatchesColor(PieceColor::Blue), &d), "Cell must be BLUE for {points}");
    assert_eq!(get_effect_description(&EffectCondition::MatchesSize(3), &d), "Unknown effect: MatchesSize(X)");
    assert_eq!(
        get_effect_description(&EffectCondition::NoColorOnBoard(PieceColor::Yellow), &d),
        "Unknown effect: NoColorOnBoard(X)"
    );
    assert_eq!(get_effect_description(&EffectCondition::IsEmpty, &d), "Keep {color} for {points}");
    let sized = EffectDescriptions {
        descriptions: vec![("MatchesSize(X)".to_string(), "Next to a piece of {X} cells".to_string())],
    };
    assert_eq!(get_effect_description(&EffectCondition::MatchesSize(3), &sized), "Next to a piece of 3 cells");
}

fn tooltip_piece() -> Piece {
    let effects = vec![
        GameEffect { condition: EffectCondition::MatchesColor(PieceColor::Blue), points: 2, offsets: None },
        GameEffect { condition: EffectCondition::IsEmpty, points: -1, offsets: None },
    ];
    spawn_draggable_piece(0, &vec![c(0, 0)], PieceColor::Red, 4, &effects, BoardSide::Single)
}

#[test]
fn tooltips_list_effects() {
    let d = descs();
    let p = tooltip_piece();
    assert_eq!(tooltip_text(&p, &d), "Gain 4 points.\nEffects:\n- Cell must be BLUE for 2\n- Keep {color} for -1");
    assert_eq!(
        puzzle_tooltip_text(&p, &d),
        "Gain 4 points.\n\nEffects:\n- Cell must be BLUE for 2\n- Keep empty for -1"
    );
    let plain = spawn_draggable_piece(0, &vec![c(0, 0)], PieceColor::Red, -7, &vec![], BoardSide::Single);
    assert_eq!(tooltip_text(&plain, &d), "Gain -7 points.");
}

#[test]
fn labels_show_numbers() {
    assert_eq!(number_label("Score: ", -12), "Score: -12");
    assert_eq!(number_label("x", 3), "x3");
    assert_eq!(contribution_label(5), "+5");
    assert_eq!(contribution_label(0), "+0");
    assert_eq!(contribution_label(-3), "-3");
    let mut r = RoundCounter::new(5);
    r.advance();
    r.advance();
    assert_eq!(round_label(&r), "Round:\n2/5");
    let over = RoundCounter { current: 7, total: 5 };
    assert_eq!(round_label(&over), "Round:\n5/5");
}
