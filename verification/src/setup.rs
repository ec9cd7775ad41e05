//! Turning piece definitions into pieces: baking effects, randomising
//! dynamic pieces, and drawing the pieces offered in a round.
use vstd::prelude::*;

use crate::board::{Coord, PieceColor};
use crate::colors::{available_colors, available_color_names, blue_name, color_map_with_yellow, color_or_white, get_color_map, green_name, lookup_color, red_name, ColorMap};
use crate::config::{raw_effects_view, PieceType, RawConditionView, RawEffectCondition, RawEffectView, RawGameEffect, RawPieceConfig};
use crate::model::{copy_coords, copy_effects, effects_view, pieces_view, BoardSide, EffectCondition, EffectView, GameEffect, Piece, PieceView};
use crate::session::RoundCounter;
use crate::settings::GameSettings;
use crate::random::{choose_item, random_between, shuffle_coords};

verus! {

broadcast use vstd::multiset::group_multiset_axioms;

/// A written condition with its colour names resolved (white when unknown).
pub open spec fn bake_condition(c: RawConditionView, map: ColorMap) -> EffectCondition {
    match c {
        RawConditionView::IsEmpty => EffectCondition::IsEmpty,
        RawConditionView::MatchesColor(n) => EffectCondition::MatchesColor(color_or_white(map, n)),
        RawConditionView::NoColorOnBoard(n) => EffectCondition::NoColorOnBoard(color_or_white(map, n)),
        RawConditionView::MatchesSize(s) => EffectCondition::MatchesSize(s as usize),
    }
}

/// A written effect as a game effect: no offsets means a board-wide effect.
pub open spec fn baked_effect(re: RawEffectView, map: ColorMap) -> EffectView {
    EffectView {
        condition: bake_condition(re.condition, map),
        points: re.points,
        offsets: if re.offsets.len() == 0 {
            None
        } else {
            Some(re.offsets)
        },
    }
}

pub open spec fn baked_effects(res: Seq<RawEffectView>, map: ColorMap) -> Seq<EffectView> {
    res.map_values(|re: RawEffectView| baked_effect(re, map))
}

fn bake_effect(re: &RawGameEffect, color_map: &ColorMap) -> (e: GameEffect)
    ensures
        e@ == baked_effect(re@, *color_map),
{
    let condition = match &re.condition {
        RawEffectCondition::IsEmpty => EffectCondition::IsEmpty,
        RawEffectCondition::MatchesColor(name) => EffectCondition::MatchesColor(color_map.get_or_white(name)),
        RawEffectCondition::NoColorOnBoard(name) => EffectCondition::NoColorOnBoard(color_map.get_or_white(name)),
        RawEffectCondition::MatchesSize(size) => EffectCondition::MatchesSize(*size as usize),
    };
    GameEffect {
        condition,
        points: re.points,
        offsets: if re.offsets.len() == 0 {
            None
        } else {
            Some(copy_coords(&re.offsets))
        },
    }
}

/// A list of written effects as game effects, with colour names resolved by
/// the map (white when unknown) and empty offset lists meaning board-wide
/// effects.
pub fn bake_effect_list(effects: &Vec<RawGameEffect>, color_map: &ColorMap) -> (r: Vec<GameEffect>)
    ensures
        effects_view(r@) == baked_effects(raw_effects_view(effects@), *color_map),
{
    let mut out: Vec<GameEffect> = Vec::new();
    let mut i: usize = 0;
    while i < effects.len()
        invariant
            i <= effects@.len(),
            out@.len() == i,
            forall|j: int| 0 <= j < i ==> (#[trigger] out@[j])@ == baked_effect(effects@[j]@, *color_map),
        decreases effects@.len() - i,
    {
        out.push(bake_effect(&effects[i], color_map));
        i = i + 1;
    }
    assert(effects_view(out@) =~= baked_effects(raw_effects_view(effects@), *color_map));
    out
}

/// The effects of a definition, with colour names resolved by the map
/// (white when unknown) and empty offset lists meaning board-wide effects.
pub fn bake_effects(raw: &RawPieceConfig, color_map: &ColorMap) -> (r: Vec<GameEffect>)
    ensures
        effects_view(r@) == baked_effects(raw_effects_view(raw.effects@), *color_map),
{
    bake_effect_list(&raw.effects, color_map)
}

/// A colour that random pieces can take: red, blue or green.
pub open spec fn random_palette(c: PieceColor) -> bool {
    c == PieceColor::Red || c == PieceColor::Blue || c == PieceColor::Green
}

proof fn lemma_names_resolve(map: ColorMap)
    ensures
        lookup_color(map, red_name()) == Some(PieceColor::Red),
        lookup_color(map, blue_name()) == Some(PieceColor::Blue),
        lookup_color(map, green_name()) == Some(PieceColor::Green),
{
    assert(blue_name() != red_name()) by {
        assert(blue_name().len() != red_name().len());
    }
    assert(green_name() != red_name()) by {
        assert(green_name().len() != red_name().len());
    }
    assert(green_name() != blue_name()) by {
        assert(green_name().len() != blue_name().len());
    }
}

/// A random colour: one of the names RED, BLUE, GREEN, resolved by the map.
pub fn random_color(color_map: &ColorMap) -> (c: PieceColor)
    ensures
        random_palette(c),
{
    let names = available_colors();
    let name = choose_item(&names);
    proof {
        let j = choose|j: int| 0 <= j < names@.len() && names@[j] == *name;
        assert(names@[j]@ == available_color_names()[j]);
        lemma_names_resolve(*color_map);
    }
    color_map.get_or_white(name)
}

/// The kind of a condition matches the kind of the written condition.
pub open spec fn same_kind(c: EffectCondition, rc: RawConditionView) -> bool {
    match rc {
        RawConditionView::IsEmpty => c == EffectCondition::IsEmpty,
        RawConditionView::MatchesColor(_) => exists|col: PieceColor|
            random_palette(col) && c == EffectCondition::MatchesColor(col),
        RawConditionView::NoColorOnBoard(_) => exists|col: PieceColor|
            random_palette(col) && c == EffectCondition::NoColorOnBoard(col),
        RawConditionView::MatchesSize(_) => exists|n: usize| 1 <= n <= 4 && c == EffectCondition::MatchesSize(n),
    }
}

/// A dynamic piece's effect drawn from the written effect `re`: same kind of
/// condition with a random colour or a size from 1 to 4, same points, and a
/// non-empty random selection of the written offsets (board-wide when there
/// are none).
pub open spec fn random_variant_of(e: EffectView, re: RawEffectView) -> bool {
    &&& same_kind(e.condition, re.condition)
    &&& e.points == re.points
    &&& if re.offsets.len() == 0 {
        e.offsets is None
    } else {
        e.offsets matches Some(o) && 1 <= o.len() <= re.offsets.len() && o.to_multiset().subset_of(
            re.offsets.to_multiset(),
        )
    }
}

/// The colour and effects of a new piece from a definition. Static pieces
/// take the definition's colour (white when unknown) and its effects. Dynamic
/// pieces take a random colour and a single effect drawn at random from one
/// of the definition's effects.
pub fn randomize_piece_properties(raw: &RawPieceConfig, color_map: &ColorMap) -> (r: (PieceColor, Vec<GameEffect>))
    requires
        raw.piece_type == PieceType::Static || raw.effects@.len() > 0,
    ensures
        raw.piece_type == PieceType::Static ==> r.0 == color_or_white(*color_map, raw.color@) && effects_view(r.1@)
            == baked_effects(raw_effects_view(raw.effects@), *color_map),
        raw.piece_type == PieceType::Dynamic ==> random_palette(r.0) && r.1@.len() == 1 && exists|j: int|
            0 <= j < raw.effects@.len() && random_variant_of(r.1@[0]@, #[trigger] raw.effects@[j]@),
{
    if raw.piece_type == PieceType::Static {
        let color = color_map.get_or_white(&raw.color);
        let effects = bake_effects(raw, color_map);
        return (color, effects);
    }
    let chosen_raw = choose_item(&raw.effects);
    let ghost j = choose|j: int| 0 <= j < raw.effects@.len() && raw.effects@[j] == *chosen_raw;
    let piece_color = random_color(color_map);
    let effect_color = random_color(color_map);
    let condition = match &chosen_raw.condition {
        RawEffectCondition::IsEmpty => EffectCondition::IsEmpty,
        RawEffectCondition::MatchesColor(_) => {
            let c = EffectCondition::MatchesColor(effect_color);
            assert(random_palette(effect_color) && c == EffectCondition::MatchesColor(effect_color));
            c
        },
        RawEffectCondition::NoColorOnBoard(_) => {
            let c = EffectCondition::NoColorOnBoard(effect_color);
            assert(random_palette(effect_color) && c == EffectCondition::NoColorOnBoard(effect_color));
            c
        },
        RawEffectCondition::MatchesSize(_) => {
            let random_size = random_between(1, 4);
            let c = EffectCondition::MatchesSize(random_size);
            assert(1 <= random_size <= 4 && c == EffectCondition::MatchesSize(random_size));
            c
        },
    };
    assert(same_kind(condition, chosen_raw.condition@));
    let chosen_offsets = if chosen_raw.offsets.len() == 0 {
        None
    } else {
        let mut offsets = copy_coords(&chosen_raw.offsets);
        let k = random_between(1, offsets.len());
        let ghost before = offsets@;
        shuffle_coords(&mut offsets);
        let ghost shuffled = offsets@;
        proof {
            vstd::seq_lib::to_multiset_len(before);
            vstd::seq_lib::to_multiset_len(shuffled);
        }
        offsets.truncate(k);
        proof {
            assert(shuffled =~= shuffled.subrange(0, k as int) + shuffled.subrange(k as int, shuffled.len() as int));
            vstd::seq_lib::lemma_multiset_commutative(
                shuffled.subrange(0, k as int),
                shuffled.subrange(k as int, shuffled.len() as int),
            );
            assert(offsets@.to_multiset().subset_of(chosen_raw.offsets@.to_multiset()));
        }
        Some(offsets)
    };
    let mut effects: Vec<GameEffect> = Vec::new();
    effects.push(GameEffect { condition, points: chosen_raw.points, offsets: chosen_offsets });
    proof {
        assert(raw.effects@[j]@ == chosen_raw@);
        assert(random_variant_of(effects@[0]@, raw.effects@[j]@));
    }
    (piece_color, effects)
}

/// Draw the indices of up to three different definitions of a library of
/// `library_len` pieces: each draw takes one of the indices not drawn yet.
pub fn draw_stash_indices(library_len: usize) -> (r: Vec<usize>)
    ensures
        r@.len() == if library_len < 3 {
            library_len as int
        } else {
            3
        },
        r@.no_duplicates(),
        forall|i: int| 0 <= i < r@.len() ==> #[trigger] r@[i] < library_len,
{
    let mut available: Vec<usize> = Vec::new();
    let mut k: usize = 0;
    while k < library_len
        invariant
            k <= library_len,
            available@ == Seq::new(k as nat, |i: int| i as usize),
        decreases library_len - k,
    {
        available.push(k);
        k = k + 1;
        assert(available@ =~= Seq::new(k as nat, |i: int| i as usize));
    }
    let mut chosen: Vec<usize> = Vec::new();
    let mut round: usize = 0;
    while round < 3
        invariant
            round <= 3,
            chosen@.len() == if library_len < round {
                library_len as int
            } else {
                round as int
            },
            chosen@.len() + available@.len() == library_len,
            chosen@.no_duplicates(),
            available@.no_duplicates(),
            forall|i: int| 0 <= i < chosen@.len() ==> #[trigger] chosen@[i] < library_len,
            forall|i: int| 0 <= i < available@.len() ==> #[trigger] available@[i] < library_len,
            forall|i: int, j: int| 0 <= i < chosen@.len() && 0 <= j < available@.len() ==> chosen@[i] != available@[j],
        ensures
            chosen@.len() == if library_len < 3 {
                library_len as int
            } else {
                3
            },
            chosen@.no_duplicates(),
            forall|i: int| 0 <= i < chosen@.len() ==> #[trigger] chosen@[i] < library_len,
        decreases 3 - round,
    {
        if available.len() == 0 {
            break;
        }
        let idx = random_between(0, available.len() - 1);
        let ghost before_av = available@;
        let ghost before_ch = chosen@;
        let picked = available.remove(idx);
        chosen.push(picked);
        proof {
            assert(available@ == before_av.remove(idx as int));
            assert forall|a: int, b: int| 0 <= a < available@.len() && 0 <= b < available@.len() && a != b implies available@[a] != available@[b] by {
                let a2 = if a < idx { a } else { a + 1 };
                let b2 = if b < idx { b } else { b + 1 };
                assert(available@[a] == before_av[a2]);
                assert(available@[b] == before_av[b2]);
            }
            assert forall|a: int| 0 <= a < available@.len() implies #[trigger] available@[a] < library_len by {
                let a2 = if a < idx { a } else { a + 1 };
                assert(available@[a] == before_av[a2]);
            }
            assert forall|i: int, j: int| 0 <= i < chosen@.len() && 0 <= j < available@.len() implies chosen@[i] != available@[j] by {
                let j2 = if j < idx { j } else { j + 1 };
                assert(available@[j] == before_av[j2]);
                if i == before_ch.len() {
                    assert(j2 != idx);
                }
            }
            assert forall|a: int, b: int| 0 <= a < chosen@.len() && 0 <= b < chosen@.len() && a != b implies chosen@[a] != chosen@[b] by {
                if a == before_ch.len() {
                    assert(chosen@[b] == before_ch[b]);
                } else if b == before_ch.len() {
                    assert(chosen@[a] == before_ch[a]);
                }
            }
        }
        round = round + 1;
    }
    chosen
}

/// The extent of a shape: minimum and maximum `x`, then minimum and maximum
/// `y` of its offsets, all 0 for an empty shape.
pub fn shape_extent(shape: &Vec<Coord>) -> (r: (i32, i32, i32, i32))
    ensures
        shape@.len() == 0 ==> r == (0i32, 0i32, 0i32, 0i32),
        shape@.len() > 0 ==> {
            &&& forall|i: int| 0 <= i < shape@.len() ==> r.0 <= (#[trigger] shape@[i]).x <= r.1 && r.2 <= shape@[i].y <= r.3
            &&& exists|i: int| 0 <= i < shape@.len() && (#[trigger] shape@[i]).x == r.0
            &&& exists|i: int| 0 <= i < shape@.len() && (#[trigger] shape@[i]).x == r.1
            &&& exists|i: int| 0 <= i < shape@.len() && (#[trigger] shape@[i]).y == r.2
            &&& exists|i: int| 0 <= i < shape@.len() && (#[trigger] shape@[i]).y == r.3
        },
{
    if shape.len() == 0 {
        return (0, 0, 0, 0);
    }
    let mut min_x = shape[0].x;
    let mut max_x = shape[0].x;
    let mut min_y = shape[0].y;
    let mut max_y = shape[0].y;
    let ghost mut a: int = 0;
    let ghost mut b: int = 0;
    let ghost mut c: int = 0;
    let ghost mut d: int = 0;
    let mut i: usize = 1;
    while i < shape.len()
        invariant
            1 <= i <= shape@.len(),
            forall|j: int| 0 <= j < i ==> min_x <= (#[trigger] shape@[j]).x <= max_x && min_y <= shape@[j].y <= max_y,
            0 <= a < i && shape@[a].x == min_x,
            0 <= b < i && shape@[b].x == max_x,
            0 <= c < i && shape@[c].y == min_y,
            0 <= d < i && shape@[d].y == max_y,
        decreases shape@.len() - i,
    {
        let p = shape[i];
        if p.x < min_x {
            min_x = p.x;
            proof { a = i as int; }
        }
        if p.x > max_x {
            max_x = p.x;
            proof { b = i as int; }
        }
        if p.y < min_y {
            min_y = p.y;
            proof { c = i as int; }
        }
        if p.y > max_y {
            max_y = p.y;
            proof { d = i as int; }
        }
        i = i + 1;
    }
    (min_x, max_x, min_y, max_y)
}


// ---------------------------------------------------------------------------
// Pieces offered to the player
// ---------------------------------------------------------------------------
/// A new piece in a stash: not placed, its original shape and effects the
/// ones it starts with.
pub fn spawn_draggable_piece(
    type_id: usize,
    shape: &Vec<Coord>,
    color: PieceColor,
    points: i32,
    effects: &Vec<GameEffect>,
    board_side: BoardSide,
) -> (p: Piece)
    ensures
        p@ == (PieceView {
            type_id: type_id,
            shape: shape@,
            original_shape: shape@,
            color: color,
            points: points,
            effects: effects_view(effects@),
            original_effects: effects_view(effects@),
            placed_at: None,
            board_side: board_side,
        }),
{
    Piece {
        type_id,
        shape: copy_coords(shape),
        original_shape: copy_coords(shape),
        color,
        points,
        effects: copy_effects(effects),
        original_effects: copy_effects(effects),
        placed_at: None,
        board_side,
    }
}

/// Dynamic definitions have at least one effect to draw from.
pub open spec fn library_drawable(lib: Seq<RawPieceConfig>) -> bool {
    forall|i: int| 0 <= i < lib.len() ==> (#[trigger] lib[i]).piece_type == PieceType::Static || lib[i].effects@.len() > 0
}

/// Whether every dynamic definition of the library has an effect to draw.
pub fn check_library(library: &Vec<RawPieceConfig>) -> (r: bool)
    ensures
        r == library_drawable(library@),
{
    let mut i: usize = 0;
    while i < library.len()
        invariant
            i <= library@.len(),
            forall|j: int|
                0 <= j < i ==> (#[trigger] library@[j]).piece_type == PieceType::Static || library@[j].effects@.len() > 0,
        decreases library@.len() - i,
    {
        let def = &library[i];
        match def.piece_type {
            PieceType::Static => {},
            PieceType::Dynamic => {
                if def.effects.len() == 0 {
                    assert(!((library@[i as int]).piece_type == PieceType::Static || library@[i as int].effects@.len() > 0));
                    return false;
                }
            },
        }
        i = i + 1;
    }
    true
}

/// The piece is a fresh stash piece made from the definition: its shape and
/// points, unplaced, with the colour and effects the definition gives
/// (static) or a random colour and one random variant of one of its effects
/// (dynamic).
pub open spec fn drawn_from(raw: RawPieceConfig, map: ColorMap, pc: PieceView) -> bool {
    &&& pc.shape == raw.shape@
    &&& pc.original_shape == raw.shape@
    &&& pc.points == raw.points
    &&& pc.original_effects == pc.effects
    &&& pc.placed_at is None
    &&& raw.piece_type == PieceType::Static ==> pc.color == color_or_white(map, raw.color@) && pc.effects
        == baked_effects(raw_effects_view(raw.effects@), map)
    &&& raw.piece_type == PieceType::Dynamic ==> random_palette(pc.color) && pc.effects.len() == 1 && exists|j: int|
        0 <= j < raw.effects@.len() && random_variant_of(pc.effects[0], #[trigger] raw.effects@[j]@)
}

/// A stash piece drawn from a definition.
fn draw_piece(raw: &RawPieceConfig, type_id: usize, color_map: &ColorMap, board_side: BoardSide) -> (p: Piece)
    requires
        raw.piece_type == PieceType::Static || raw.effects@.len() > 0,
    ensures
        drawn_from(*raw, *color_map, p@),
        p@.type_id == type_id,
        p@.board_side == board_side,
{
    let (color, effects) = randomize_piece_properties(raw, color_map);
    let p = spawn_draggable_piece(type_id, &raw.shape, color, raw.points, &effects, board_side);
    proof {
        if raw.piece_type == PieceType::Dynamic {
            assert(p@.effects[0] == effects@[0]@);
        }
    }
    p
}

/// Up to three pieces drawn from different definitions.
pub open spec fn min3(n: int) -> int {
    if n < 3 {
        n
    } else {
        3
    }
}

/// The pieces offered in a draft round: none once the game is over;
/// otherwise pieces from up to three different definitions chosen at random,
/// each knowing the index of its definition, drawn with the colour map that
/// knows YELLOW.
pub fn refresh_draft_stash(library: &Vec<RawPieceConfig>, round_counter: &RoundCounter) -> (r: Option<Vec<Piece>>)
    requires
        library_drawable(library@),
    ensures
        match r {
            None => round_counter.game_over(),
            Some(v) => {
                &&& !round_counter.game_over()
                &&& v@.len() == min3(library@.len() as int)
                &&& forall|i: int, j: int|
                    0 <= i < v@.len() && 0 <= j < v@.len() && i != j ==> v@[i].type_id != v@[j].type_id
                &&& forall|i: int|
                    0 <= i < v@.len() ==> (#[trigger] v@[i]).type_id < library@.len() && drawn_from(
                        library@[v@[i].type_id as int],
                        ColorMap { with_yellow: true },
                        v@[i]@,
                    ) && v@[i].board_side == BoardSide::Single
            },
        },
{
    if round_counter.is_game_over() {
        return None;
    }
    let color_map = color_map_with_yellow();
    let indices = draw_stash_indices(library.len());
    let mut out: Vec<Piece> = Vec::new();
    let mut k: usize = 0;
    while k < indices.len()
        invariant
            k <= indices@.len(),
            indices@.len() == min3(library@.len() as int),
            indices@.no_duplicates(),
            forall|i: int| 0 <= i < indices@.len() ==> #[trigger] indices@[i] < library@.len(),
            library_drawable(library@),
            color_map == (ColorMap { with_yellow: true }),
            out@.len() == k,
            forall|i: int| 0 <= i < k ==> (#[trigger] out@[i]).type_id == indices@[i],
            forall|i: int|
                0 <= i < k ==> drawn_from(library@[indices@[i] as int], color_map, (#[trigger] out@[i])@)
                    && out@[i].board_side == BoardSide::Single,
        decreases indices@.len() - k,
    {
        let idx = indices[k];
        assert(library@[idx as int].piece_type == PieceType::Static || library@[idx as int].effects@.len() > 0);
        let p = draw_piece(&library[idx], idx, &color_map, BoardSide::Single);
        out.push(p);
        k = k + 1;
    }
    Some(out)
}

/// Entering the draft: a fresh counter for the set number of rounds, and
/// the first pieces offered (none when there are no rounds).
pub fn generate_draft_stash(library: &Vec<RawPieceConfig>, settings: &GameSettings) -> (r: (RoundCounter, Option<Vec<Piece>>))
    requires
        library_drawable(library@),
    ensures
        r.0.current == 0,
        r.0.total == settings.rounds,
        r.1 is None <==> settings.rounds == 0,
        r.1 matches Some(v) ==> v@.len() == min3(library@.len() as int) && forall|i: int|
            0 <= i < v@.len() ==> (#[trigger] v@[i]).type_id < library@.len() && drawn_from(
                library@[v@[i].type_id as int],
                ColorMap { with_yellow: true },
                v@[i]@,
            ),
        r.1 matches Some(v) ==> forall|i: int, j: int|
            0 <= i < v@.len() && 0 <= j < v@.len() && i != j ==> v@[i].type_id != v@[j].type_id,
{
    let round_counter = RoundCounter::new(settings.rounds);
    let stash = refresh_draft_stash(library, &round_counter);
    (round_counter, stash)
}

/// What the draft's confirm button did.
pub enum DraftConfirm {
    /// The game is over: nothing happens.
    Ignored,
    /// The round ended and it was the last one.
    Finished,
    /// The round ended; these pieces are offered next.
    NextStash(Vec<Piece>),
}

/// The definitions an offer is drawn from.
pub open spec fn offer_types(v: Seq<Piece>) -> Seq<usize> {
    v.map_values(|p: Piece| p.type_id)
}

/// An offer of `min(3, n)` pieces from a library of `n` definitions whose
/// pieces come from pairwise different definitions names exactly
/// `min(3, n)` different definitions, all of the library.
pub proof fn lemma_offer_spans_definitions(v: Seq<Piece>, n: int)
    requires
        v.len() == min3(n),
        forall|i: int| 0 <= i < v.len() ==> (#[trigger] v[i]).type_id < n,
        forall|i: int, j: int| 0 <= i < v.len() && 0 <= j < v.len() && i != j ==> v[i].type_id != v[j].type_id,
    ensures
        offer_types(v).to_set().len() == min3(n),
        forall|t: usize| #[trigger] offer_types(v).to_set().contains(t) ==> t < n,
{
    let ts = offer_types(v);
    assert forall|i: int, j: int| 0 <= i < ts.len() && 0 <= j < ts.len() && i != j implies ts[i] != ts[j] by {
        assert(ts[i] == v[i].type_id && ts[j] == v[j].type_id);
    }
    assert(ts.no_duplicates());
    ts.unique_seq_to_set();
    assert forall|t: usize| #[trigger] ts.to_set().contains(t) implies t < n by {
        let k = choose|k: int| 0 <= k < ts.len() && ts[k] == t;
        assert(ts[k] == v[k].type_id);
    }
}

/// The draft's confirm button: once the game is over it does nothing;
/// otherwise the round ends (placed pieces stay, the others are withdrawn)
/// and, unless that was the last round, new pieces are offered.
pub fn on_confirm_click(round_counter: &mut RoundCounter, library: &Vec<RawPieceConfig>) -> (r: DraftConfirm)
    requires
        library_drawable(library@),
    ensures
        old(round_counter).game_over() ==> r is Ignored && *final(round_counter) == *old(round_counter),
        !old(round_counter).game_over() ==> {
            &&& final(round_counter).current == old(round_counter).current + 1
            &&& final(round_counter).total == old(round_counter).total
            &&& (r is Finished <==> final(round_counter).game_over())
            &&& r matches DraftConfirm::NextStash(v) ==> v@.len() == min3(library@.len() as int) && forall|i: int|
                0 <= i < v@.len() ==> (#[trigger] v@[i]).type_id < library@.len() && drawn_from(
                    library@[v@[i].type_id as int],
                    ColorMap { with_yellow: true },
                    v@[i]@,
                )
            &&& r matches DraftConfirm::NextStash(v) ==> forall|i: int, j: int|
                0 <= i < v@.len() && 0 <= j < v@.len() && i != j ==> v@[i].type_id != v@[j].type_id
            &&& !(r is Ignored)
        },
{
    if round_counter.is_game_over() {
        return DraftConfirm::Ignored;
    }
    round_counter.advance();
    match refresh_draft_stash(library, round_counter) {
        Some(v) => DraftConfirm::NextStash(v),
        None => DraftConfirm::Finished,
    }
}

/// The sandbox stash: ten pieces drawn from each definition in turn, with
/// the standard colour map.
pub fn setup_sandbox(library: &Vec<RawPieceConfig>) -> (r: Vec<Piece>)
    requires
        library_drawable(library@),
    ensures
        r@.len() == 10 * library@.len(),
        forall|t: int, c: int|
            0 <= t < library@.len() && 0 <= c < 10 ==> (#[trigger] r@[10 * t + c]).type_id == t && drawn_from(
                library@[t],
                ColorMap { with_yellow: false },
                r@[10 * t + c]@,
            ) && r@[10 * t + c].board_side == BoardSide::Single,
{
    let color_map = get_color_map();
    let mut out: Vec<Piece> = Vec::new();
    let mut t: usize = 0;
    while t < library.len()
        invariant
            t <= library@.len(),
            library_drawable(library@),
            color_map == (ColorMap { with_yellow: false }),
            out@.len() == 10 * t,
            forall|t2: int, c: int|
                0 <= t2 < t && 0 <= c < 10 ==> (#[trigger] out@[10 * t2 + c]).type_id == t2 && drawn_from(
                    library@[t2],
                    color_map,
                    out@[10 * t2 + c]@,
                ) && out@[10 * t2 + c].board_side == BoardSide::Single,
        decreases library@.len() - t,
    {
        assert(library@[t as int].piece_type == PieceType::Static || library@[t as int].effects@.len() > 0);
        let mut c: usize = 0;
        while c < 10
            invariant
                c <= 10,
                t < library@.len(),
                library@[t as int].piece_type == PieceType::Static || library@[t as int].effects@.len() > 0,
                color_map == (ColorMap { with_yellow: false }),
                out@.len() == 10 * t + c,
                forall|t2: int, c2: int|
                    0 <= t2 < t && 0 <= c2 < 10 ==> (#[trigger] out@[10 * t2 + c2]).type_id == t2 && drawn_from(
                        library@[t2],
                        color_map,
                        out@[10 * t2 + c2]@,
                    ) && out@[10 * t2 + c2].board_side == BoardSide::Single,
                forall|c2: int|
                    0 <= c2 < c ==> (#[trigger] out@[10 * t + c2]).type_id == t && drawn_from(
                        library@[t as int],
                        color_map,
                        out@[10 * t + c2]@,
                    ) && out@[10 * t + c2].board_side == BoardSide::Single,
            decreases 10 - c,
        {
            let p = draw_piece(&library[t], t, &color_map, BoardSide::Single);
            out.push(p);
            c = c + 1;
        }
        assert forall|t2: int, c2: int| 0 <= t2 < t + 1 && 0 <= c2 < 10 implies (#[trigger] out@[10 * t2 + c2]).type_id
            == t2 && drawn_from(library@[t2], color_map, out@[10 * t2 + c2]@) && out@[10 * t2 + c2].board_side
            == BoardSide::Single by {
            if t2 < t {
            } else {
                assert(t2 == t);
            }
        }
        t = t + 1;
    }
    out
}

} // verus!
