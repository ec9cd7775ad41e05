//! Puzzles: fixed piece sets on a board with blocked cells, and the checking
//! of recorded solutions.
use vstd::prelude::*;

use std::collections::hash_map::DefaultHasher;
use std::hash::Hasher;
use vstd::std_specs::hash::DefaultHasherAdditionalSpecFns;
use vstd::string::{StrSliceExecFns, StringExecFns};

use crate::board::{points_of, pt, representable, shift, within, CellMap, CellSet, Coord, PieceColor};
use crate::colors::{color_map_with_yellow, color_or_white, get_color_map, lookup_color, ColorMap};
use crate::config::{RawConditionView, RawEffectCondition, RawEffectView, RawGameEffect, raw_effects_view};
use crate::model::{
    can_turn, copy_coords, copy_effects, effects_rotatable, effects_turnable, shape_can_rotate, effects_view, rotate_shape, rotated, rotated_effects_n,
    rotated_n, shape_rotatable, turn_shape_and_effects, turnable, BoardSide, EffectView, GameEffect,
    GameState, Piece, PieceView, pieces_view, lemma_rotated_n_succ, lemma_rotated_n_zero,
};
use crate::placement::{claim_cells, fits, paint_cells, with_cells};
use crate::scoring::{board_score, checked_score, recalculate_score_from_vectors, score_in_range, ScoreCtx, ScoreRules};
use crate::setup::{bake_effect_list, baked_effects};

verus! {

broadcast use {vstd::multiset::group_multiset_axioms, vstd::seq_lib::group_to_multiset_ensures};

/// A piece type of a puzzle: its shape, colour name, points, how many
/// copies may be used, and its effects.
#[derive(Clone, Debug)]
pub struct PuzzlePieceData {
    pub shape: Vec<Coord>,
    pub color: String,
    pub points: i32,
    pub count: u32,
    pub effects: Vec<RawGameEffect>,
}

pub struct PuzzlePieceView {
    pub shape: Seq<Coord>,
    pub color: Seq<char>,
    pub points: i32,
    pub count: u32,
    pub effects: Seq<RawEffectView>,
}

impl View for PuzzlePieceData {
    type V = PuzzlePieceView;

    open spec fn view(&self) -> PuzzlePieceView {
        PuzzlePieceView {
            shape: self.shape@,
            color: self.color@,
            points: self.points,
            count: self.count,
            effects: raw_effects_view(self.effects@),
        }
    }
}

/// A puzzle: the board size, the blocked cells, and the piece types.
#[derive(Clone, Debug)]
pub struct PuzzleData {
    pub board_size: Coord,
    pub blocked_cells: Vec<Coord>,
    pub pieces: Vec<PuzzlePieceData>,
}

pub struct PuzzleView {
    pub board_size: Coord,
    pub blocked: Seq<Coord>,
    pub pieces: Seq<PuzzlePieceView>,
}

impl View for PuzzleData {
    type V = PuzzleView;

    open spec fn view(&self) -> PuzzleView {
        PuzzleView {
            board_size: self.board_size,
            blocked: self.blocked_cells@,
            pieces: self.pieces@.map_values(|p: PuzzlePieceData| p@),
        }
    }
}

/// One placed piece of a solution: which piece type, where its origin is,
/// and how many quarter turns it was given.
#[derive(Clone, Copy, PartialEq, Eq, Structural, Debug, Hash)]
pub struct SolutionPlacement {
    pub piece: usize,
    pub pos: Coord,
    pub rot: u32,
}

/// A recorded solution: the score it claims, its placements, and when it
/// was made.
#[derive(Clone, Debug, Hash)]
pub struct Solution {
    pub score: i32,
    pub placements: Vec<SolutionPlacement>,
    pub timestamp: String,
}

pub open spec fn zero_timestamp() -> Seq<char> {
    seq!['0', '0', '0', '0', '-', '0', '0', '-', '0', '0', '-', '0', '0', '-', '0', '0', '-', '0', '0']
}

/// The timestamp of a solution recorded without one.
pub fn default_timestamp() -> (s: String)
    ensures
        s@ == zero_timestamp(),
{
    let s = "0000-00-00-00-00-00".to_owned();
    proof {
        reveal_strlit("0000-00-00-00-00-00");
    }
    s
}

// ---------------------------------------------------------------------------
// What a solution puts on the board
// ---------------------------------------------------------------------------
/// The colour map puzzles are checked with: RED, BLUE and GREEN.
pub open spec fn standard_map() -> ColorMap {
    ColorMap { with_yellow: false }
}

/// The effects of a piece type, colour names resolved.
pub open spec fn def_effects(def: PuzzlePieceView) -> Seq<EffectView> {
    baked_effects(def.effects, standard_map())
}

/// The piece a placement puts on the board: the piece type's shape and
/// effects turned `rot % 4` quarter turns, placed at `pos`.
pub open spec fn solution_piece(d: PuzzleView, pl: SolutionPlacement) -> PieceView {
    let def = d.pieces[pl.piece as int];
    let turns = (pl.rot % 4) as nat;
    let shape = rotated_n(def.shape, turns);
    let effects = rotated_effects_n(def_effects(def), turns);
    PieceView {
        type_id: pl.piece,
        shape: shape,
        original_shape: shape,
        color: color_or_white(standard_map(), def.color),
        points: def.points,
        effects: effects,
        original_effects: effects,
        placed_at: Some(pl.pos),
        board_side: BoardSide::Single,
    }
}

/// The state after some placements: copies used per piece type, the
/// occupied cells, and the placed pieces.
pub struct SolutionState {
    pub counts: Seq<int>,
    pub cells: Map<(int, int), PieceColor>,
    pub pieces: Seq<PieceView>,
}

pub open spec fn initial_solution_state(d: PuzzleView) -> SolutionState {
    SolutionState {
        counts: Seq::new(d.pieces.len(), |i: int| 0int),
        cells: Map::empty(),
        pieces: Seq::empty(),
    }
}

/// One placement: the piece type must exist, have a copy left, and its
/// turned shape must lie on the board on free, unblocked cells without
/// naming a cell twice.
pub open spec fn placement_step(d: PuzzleView, st: SolutionState, pl: SolutionPlacement) -> Option<SolutionState> {
    if pl.piece >= d.pieces.len() {
        None
    } else if st.counts[pl.piece as int] + 1 > d.pieces[pl.piece as int].count {
        None
    } else {
        let pc = solution_piece(d, pl);
        if fits(st.cells, points_of(d.blocked), d.board_size, pl.pos, pc.shape) && pc.shape.no_duplicates() {
            Some(
                SolutionState {
                    counts: st.counts.update(pl.piece as int, st.counts[pl.piece as int] + 1),
                    cells: with_cells(st.cells, pl.pos, pc.shape, pc.color),
                    pieces: st.pieces.push(pc),
                },
            )
        } else {
            None
        }
    }
}

/// The state after the first `k` placements, `None` once one is refused.
pub open spec fn solution_state(d: PuzzleView, pls: Seq<SolutionPlacement>, k: int) -> Option<SolutionState>
    decreases k,
{
    if k <= 0 {
        Some(initial_solution_state(d))
    } else {
        match solution_state(d, pls, k - 1) {
            Some(st) => placement_step(d, st, pls[k - 1]),
            None => None,
        }
    }
}

/// The scoring context of a solution's board, under the look-ahead rules.
pub open spec fn solution_ctx(d: PuzzleView, st: SolutionState) -> ScoreCtx {
    ScoreCtx { rules: ScoreRules::Lookahead, cells: st.cells, ps: st.pieces, size: d.board_size }
}

/// A solution is valid when every placement is accepted and the board it
/// builds scores exactly the score the solution claims.
pub open spec fn solution_valid(d: PuzzleView, pls: Seq<SolutionPlacement>, score: i32) -> bool {
    match solution_state(d, pls, pls.len() as int) {
        Some(st) => board_score(solution_ctx(d, st)) == score,
        None => false,
    }
}

// ---------------------------------------------------------------------------
// When checking can proceed
// ---------------------------------------------------------------------------
pub open spec fn condition_name_known(c: RawConditionView) -> bool {
    match c {
        RawConditionView::MatchesColor(n) => lookup_color(standard_map(), n) is Some,
        RawConditionView::NoColorOnBoard(n) => lookup_color(standard_map(), n) is Some,
        _ => true,
    }
}

/// The piece type's colour and the colours its effects name are known.
pub open spec fn def_names_known(def: PuzzlePieceView) -> bool {
    &&& lookup_color(standard_map(), def.color) is Some
    &&& forall|i: int| 0 <= i < def.effects.len() ==> condition_name_known(#[trigger] def.effects[i].condition)
}

/// A placement that passes the type and count checks names a piece type
/// whose colours are known and whose shape and effects can be turned.
pub open spec fn placement_checkable(d: PuzzleView, st: SolutionState, pl: SolutionPlacement) -> bool {
    (pl.piece < d.pieces.len() && st.counts[pl.piece as int] + 1 <= d.pieces[pl.piece as int].count) ==> {
        let def = d.pieces[pl.piece as int];
        let turns = (pl.rot % 4) as nat;
        &&& def_names_known(def)
        &&& turnable(def.shape, turns)
        &&& effects_turnable(def_effects(def), turns)
    }
}

/// Every placement that checking reaches is checkable.
pub open spec fn solution_checkable(d: PuzzleView, pls: Seq<SolutionPlacement>) -> bool {
    forall|k: int|
        0 <= k < pls.len() ==> match #[trigger] solution_state(d, pls, k) {
            Some(st) => placement_checkable(d, st, pls[k]),
            None => true,
        }
}

/// Scoring the board a solution builds stays within `i32`.
pub open spec fn solution_score_in_range(d: PuzzleView, pls: Seq<SolutionPlacement>) -> bool {
    match solution_state(d, pls, pls.len() as int) {
        Some(st) => score_in_range(solution_ctx(d, st)),
        None => true,
    }
}

proof fn lemma_state_stays_none(d: PuzzleView, pls: Seq<SolutionPlacement>, k: int, n: int)
    requires
        0 <= k <= n,
        solution_state(d, pls, k) is None,
    ensures
        solution_state(d, pls, n) is None,
    decreases n - k,
{
    if k < n {
        lemma_state_stays_none(d, pls, k, n - 1);
    }
}

fn blocked_set(cells: &Vec<Coord>) -> (s: CellSet)
    ensures
        s@ == points_of(cells@),
{
    let mut s = CellSet::new();
    let mut i: usize = 0;
    while i < cells.len()
        invariant
            i <= cells@.len(),
            s@ == points_of(cells@.take(i as int)),
        decreases cells@.len() - i,
    {
        s.insert(cells[i]);
        proof {
            let a = cells@.take(i as int);
            let b = cells@.take(i as int + 1);
            assert forall|p: (int, int)| points_of(b).contains(p) <==> points_of(a).insert(
                crate::board::pt(cells@[i as int]),
            ).contains(p) by {
                if points_of(b).contains(p) {
                    let j = choose|j: int| 0 <= j < b.len() && crate::board::pt(b[j]) == p;
                    if j < i {
                        assert(a[j] == b[j]);
                    }
                }
                if points_of(a).contains(p) {
                    let j = choose|j: int| 0 <= j < a.len() && crate::board::pt(a[j]) == p;
                    assert(a[j] == b[j]);
                }
                if p == crate::board::pt(cells@[i as int]) {
                    assert(b[i as int] == cells@[i as int]);
                }
            }
            assert(points_of(b) =~= points_of(a).insert(crate::board::pt(cells@[i as int])));
        }
        i = i + 1;
    }
    assert(cells@.take(i as int) =~= cells@);
    s
}

pub open spec fn counts_view(v: Seq<u64>) -> Seq<int> {
    v.map_values(|c: u64| c as int)
}

/// Build the board a solution describes: the occupied cells and the placed
/// pieces, or `None` as soon as a placement is refused (unknown piece type,
/// no copy left, or a turned shape that does not fit on free, unblocked
/// cells of the board).
pub fn solution_board(solution: &Solution, data: &PuzzleData) -> (r: Option<(CellMap, Vec<Piece>)>)
    requires
        solution_checkable(data@, solution.placements@),
    ensures
        match solution_state(data@, solution.placements@, solution.placements@.len() as int) {
            Some(st) => r matches Some(b) && b.0@ == st.cells && pieces_view(b.1@) == st.pieces,
            None => r is None,
        },
{
    let ghost d = data@;
    let ghost pls = solution.placements@;
    let color_map = get_color_map();
    let blocked = blocked_set(&data.blocked_cells);
    let mut counts: Vec<u64> = Vec::new();
    let mut j: usize = 0;
    while j < data.pieces.len()
        invariant
            j <= data.pieces@.len(),
            counts@.len() == j,
            forall|i: int| 0 <= i < j ==> #[trigger] counts@[i] == 0,
        decreases data.pieces@.len() - j,
    {
        counts.push(0);
        j = j + 1;
    }
    let mut cells = CellMap::new();
    let mut pieces: Vec<Piece> = Vec::new();
    assert(counts_view(counts@) =~= initial_solution_state(d).counts);
    assert(pieces_view(pieces@) =~= Seq::<PieceView>::empty());
    let mut k: usize = 0;
    while k < solution.placements.len()
        invariant
            k <= pls.len(),
            d == data@,
            pls == solution.placements@,
            color_map == standard_map(),
            blocked@ == points_of(d.blocked),
            solution_checkable(d, pls),
            counts@.len() == d.pieces.len(),
            forall|i: int| 0 <= i < counts@.len() ==> #[trigger] counts@[i] <= d.pieces[i].count,
            solution_state(d, pls, k as int) matches Some(st) && st.counts == counts_view(counts@) && st.cells
                == cells@ && st.pieces == pieces_view(pieces@),
        decreases pls.len() - k,
    {
        let ghost st = solution_state(d, pls, k as int)->Some_0;
        assert(pls[k as int] == solution.placements@[k as int]);
        let pl = solution.placements[k];
        assert(placement_checkable(d, st, pl));
        if pl.piece >= data.pieces.len() {
            proof {
                lemma_state_stays_none(d, pls, k as int + 1, pls.len() as int);
            }
            return None;
        }
        let def = &data.pieces[pl.piece];
        assert(d.pieces[pl.piece as int] == def@);
        let used = counts[pl.piece];
        if used + 1 > def.count as u64 {
            proof {
                lemma_state_stays_none(d, pls, k as int + 1, pls.len() as int);
            }
            return None;
        }
        let turns = pl.rot % 4;
        let baked = bake_effect_list(&def.effects, &color_map);
        let (shape, effects) = turn_shape_and_effects(&def.shape, &baked, turns);
        let color = color_map.get_or_white(&def.color);
        let ghost pc = solution_piece(d, pl);
        assert(shape@ == pc.shape);
        if !claim_cells(&mut cells, &blocked, data.board_size, pl.pos, &shape, color) {
            proof {
                lemma_state_stays_none(d, pls, k as int + 1, pls.len() as int);
            }
            return None;
        }
        counts.set(pl.piece, used + 1);
        let piece = Piece {
            type_id: pl.piece,
            shape: copy_coords(&shape),
            original_shape: shape,
            color,
            points: def.points,
            effects: copy_effects(&effects),
            original_effects: effects,
            placed_at: Some(pl.pos),
            board_side: BoardSide::Single,
        };
        let ghost old_pieces = pieces@;
        pieces.push(piece);
        proof {
            assert(piece@ == pc);
            assert(pieces_view(pieces@) =~= pieces_view(old_pieces).push(pc));
            assert(counts_view(counts@) =~= st.counts.update(pl.piece as int, st.counts[pl.piece as int] + 1));
        }
        k = k + 1;
    }
    Some((cells, pieces))
}

/// Whether a recorded solution is valid for the puzzle: every placement
/// names an existing piece type with a copy left, its turned shape lies on
/// free, unblocked cells of the board, and the board so built scores
/// exactly the solution's score.
pub fn validate_solution(solution: &Solution, puzzle_data: &PuzzleData) -> (r: bool)
    requires
        solution_checkable(puzzle_data@, solution.placements@),
        solution_score_in_range(puzzle_data@, solution.placements@),
    ensures
        r == solution_valid(puzzle_data@, solution.placements@, solution.score),
{
    match solution_board(solution, puzzle_data) {
        None => false,
        Some((cells, pieces)) => {
            let ghost st = solution_state(
                puzzle_data@,
                solution.placements@,
                solution.placements@.len() as int,
            )->Some_0;
            assert(crate::scoring::ctx_of(ScoreRules::Lookahead, &cells, &pieces, puzzle_data.board_size)
                == solution_ctx(puzzle_data@, st));
            recalculate_score_from_vectors(&cells, &pieces, puzzle_data.board_size) == solution.score
        },
    }
}


/// The sum of the base points of the pieces, effects left out.
pub open spec fn base_points(ps: Seq<PieceView>) -> int
    decreases ps.len(),
{
    if ps.len() == 0 {
        0
    } else {
        base_points(ps.drop_last()) + ps.last().points
    }
}

/// Every placement that the base-points check reaches names a piece type
/// whose shape can be turned as often as the placement asks.
pub open spec fn shapes_turnable(d: PuzzleView, pls: Seq<SolutionPlacement>) -> bool {
    forall|k: int|
        0 <= k < pls.len() ==> match #[trigger] solution_state(d, pls, k) {
            Some(st) => (pls[k].piece < d.pieces.len() && st.counts[pls[k].piece as int] + 1
                <= d.pieces[pls[k].piece as int].count) ==> turnable(
                d.pieces[pls[k].piece as int].shape,
                (pls[k].rot % 4) as nat,
            ),
            None => true,
        }
}

/// A solution is valid by base points when every placement is accepted and
/// the base points of the placed pieces add up to the solution's score.
pub open spec fn solution_valid_by_points(d: PuzzleView, pls: Seq<SolutionPlacement>, score: i32) -> bool {
    match solution_state(d, pls, pls.len() as int) {
        Some(st) => base_points(st.pieces) == score,
        None => false,
    }
}

/// The simpler check of a recorded solution: the same placement rules as
/// `validate_solution`, with the score taken as the sum of the placed pieces'
/// base points.
pub fn validate_solution_points(solution: &Solution, puzzle_data: &PuzzleData) -> (r: bool)
    requires
        shapes_turnable(puzzle_data@, solution.placements@),
    ensures
        r == solution_valid_by_points(puzzle_data@, solution.placements@, solution.score),
{
    let ghost d = puzzle_data@;
    let ghost pls = solution.placements@;
    let color_map = get_color_map();
    let blocked = blocked_set(&puzzle_data.blocked_cells);
    let no_effects: Vec<GameEffect> = Vec::new();
    let mut counts: Vec<u64> = Vec::new();
    let mut j: usize = 0;
    while j < puzzle_data.pieces.len()
        invariant
            j <= puzzle_data.pieces@.len(),
            counts@.len() == j,
            forall|i: int| 0 <= i < j ==> #[trigger] counts@[i] == 0,
        decreases puzzle_data.pieces@.len() - j,
    {
        counts.push(0);
        j = j + 1;
    }
    let mut cells = CellMap::new();
    let mut total: i128 = 0;
    assert(counts_view(counts@) =~= initial_solution_state(d).counts);
    let mut k: usize = 0;
    while k < solution.placements.len()
        invariant
            k <= pls.len(),
            d == puzzle_data@,
            pls == solution.placements@,
            color_map == standard_map(),
            blocked@ == points_of(d.blocked),
            no_effects@.len() == 0,
            shapes_turnable(d, pls),
            counts@.len() == d.pieces.len(),
            forall|i: int| 0 <= i < counts@.len() ==> #[trigger] counts@[i] <= d.pieces[i].count,
            -0x8000_0000 * k <= total <= 0x7fff_ffff * k,
            solution_state(d, pls, k as int) matches Some(st) && st.counts == counts_view(counts@) && st.cells
                == cells@ && base_points(st.pieces) == total,
        decreases pls.len() - k,
    {
        let ghost st = solution_state(d, pls, k as int)->Some_0;
        assert(pls[k as int] == solution.placements@[k as int]);
        let pl = solution.placements[k];
        if pl.piece >= puzzle_data.pieces.len() {
            proof {
                lemma_state_stays_none(d, pls, k as int + 1, pls.len() as int);
            }
            return false;
        }
        let def = &puzzle_data.pieces[pl.piece];
        assert(d.pieces[pl.piece as int] == def@);
        let used = counts[pl.piece];
        if used + 1 > def.count as u64 {
            proof {
                lemma_state_stays_none(d, pls, k as int + 1, pls.len() as int);
            }
            return false;
        }
        let turns = pl.rot % 4;
        proof {
            let ev = effects_view(no_effects@);
            assert forall|t: nat| t < turns as nat implies effects_rotatable(
                #[trigger] rotated_effects_n(ev, t),
            ) by {
                assert(rotated_effects_n(ev, t).len() == 0);
            }
        }
        let (shape, _) = turn_shape_and_effects(&def.shape, &no_effects, turns);
        let color = color_map.get_or_white(&def.color);
        let ghost pc = solution_piece(d, pl);
        assert(shape@ == pc.shape);
        if !claim_cells(&mut cells, &blocked, puzzle_data.board_size, pl.pos, &shape, color) {
            proof {
                lemma_state_stays_none(d, pls, k as int + 1, pls.len() as int);
            }
            return false;
        }
        counts.set(pl.piece, used + 1);
        total = total + def.points as i128;
        proof {
            let st2 = solution_state(d, pls, k as int + 1)->Some_0;
            assert(st2.pieces == st.pieces.push(pc));
            assert(st2.pieces.drop_last() =~= st.pieces);
            assert(counts_view(counts@) =~= st.counts.update(pl.piece as int, st.counts[pl.piece as int] + 1));
        }
        k = k + 1;
    }
    total == solution.score as i128
}


// ---------------------------------------------------------------------------
// Recovering how far a placed piece was turned
// ---------------------------------------------------------------------------
/// How many times `c` occurs in `v`.
fn count_of(v: &Vec<Coord>, c: Coord) -> (n: usize)
    ensures
        n as int == v@.to_multiset().count(c),
{
    let mut n: usize = 0;
    let mut i: usize = 0;
    while i < v.len()
        invariant
            i <= v@.len(),
            n <= i,
            n as int == v@.take(i as int).to_multiset().count(c),
        decreases v@.len() - i,
    {
        assert(v@.take(i as int + 1) =~= v@.take(i as int).push(v@[i as int]));
        if v[i] == c {
            n = n + 1;
        }
        i = i + 1;
    }
    assert(v@.take(i as int) =~= v@);
    n
}

/// Whether the two lists hold the same offsets, each as often.
fn same_offsets(a: &Vec<Coord>, b: &Vec<Coord>) -> (r: bool)
    ensures
        r == (a@.to_multiset() == b@.to_multiset()),
{
    let mut i: usize = 0;
    while i < a.len()
        invariant
            i <= a@.len(),
            forall|j: int| 0 <= j < i ==> a@.to_multiset().count(#[trigger] a@[j]) == b@.to_multiset().count(a@[j]),
        decreases a@.len() - i,
    {
        if count_of(a, a[i]) != count_of(b, a[i]) {
            return false;
        }
        i = i + 1;
    }
    let mut k: usize = 0;
    while k < b.len()
        invariant
            k <= b@.len(),
            forall|j: int| 0 <= j < a@.len() ==> a@.to_multiset().count(#[trigger] a@[j]) == b@.to_multiset().count(a@[j]),
            forall|j: int| 0 <= j < k ==> a@.to_multiset().count(#[trigger] b@[j]) == b@.to_multiset().count(b@[j]),
        decreases b@.len() - k,
    {
        if count_of(a, b[k]) != count_of(b, b[k]) {
            return false;
        }
        k = k + 1;
    }
    assert forall|x: Coord| a@.to_multiset().count(x) == b@.to_multiset().count(x) by {
        if a@.to_multiset().count(x) > 0 {
            assert(a@.contains(x));
            let j = choose|j: int| 0 <= j < a@.len() && a@[j] == x;
        } else if b@.to_multiset().count(x) > 0 {
            assert(b@.contains(x));
            let j = choose|j: int| 0 <= j < b@.len() && b@[j] == x;
        }
    }
    assert(a@.to_multiset() =~= b@.to_multiset());
    true
}

/// The shape turned `k` quarter turns holds the same offsets as `current`.
pub open spec fn rotation_matches(original: Seq<Coord>, current: Seq<Coord>, k: nat) -> bool {
    rotated_n(original, k).to_multiset() == current.to_multiset()
}

/// The fewest quarter turns (up to three) that turn `original` into
/// `current`, and 0 when none does.
pub open spec fn rotation_of(original: Seq<Coord>, current: Seq<Coord>) -> nat {
    if rotation_matches(original, current, 0) {
        0
    } else if rotation_matches(original, current, 1) {
        1
    } else if rotation_matches(original, current, 2) {
        2
    } else if rotation_matches(original, current, 3) {
        3
    } else {
        0
    }
}

/// Each turn that is tried can be made: a turn is tried only while the
/// turns before it did not match.
pub open spec fn rotation_computable(original: Seq<Coord>, current: Seq<Coord>) -> bool {
    forall|k: nat|
        k < 3 && (forall|j: nat| j <= k ==> !rotation_matches(original, current, j)) ==> shape_rotatable(
            #[trigger] rotated_n(original, k),
        )
}

/// How many quarter turns bring `original` to `current` (compared as
/// collections of offsets, in any order): the fewest from 0 to 3, or 0 when
/// no number of turns does.
pub fn compute_rotation(original: &Vec<Coord>, current: &Vec<Coord>) -> (r: u32)
    requires
        rotation_computable(original@, current@),
    ensures
        r as nat == rotation_of(original@, current@),
{
    let mut turned = copy_coords(original);
    proof {
        lemma_rotated_n_zero(original@, Seq::<EffectView>::empty());
    }
    let mut rot: u32 = 0;
    while rot < 4
        invariant
            rot <= 4,
            rotation_computable(original@, current@),
            rot < 4 ==> turned@ == rotated_n(original@, rot as nat),
            forall|j: nat| j < rot ==> !rotation_matches(original@, current@, j),
        decreases 4 - rot,
    {
        if same_offsets(&turned, current) {
            return rot;
        }
        if rot < 3 {
            assert(shape_rotatable(rotated_n(original@, rot as nat)));
            turned = rotate_shape(&turned);
            proof {
                lemma_rotated_n_succ(original@, rot as nat);
            }
        }
        rot = rot + 1;
    }
    0
}

/// A placed piece whose current shape is its piece type's shape turned `k`
/// quarter turns (up to three) is recorded with a number of turns that
/// gives back the same cells.
pub proof fn lemma_recorded_rotation_reproduces_shape(original: Seq<Coord>, k: nat)
    requires
        k < 4,
    ensures
        rotation_matches(original, rotated_n(original, k), rotation_of(original, rotated_n(original, k))),
        rotation_of(original, rotated_n(original, k)) <= k,
{
}

// ---------------------------------------------------------------------------
// Recording the current board as a solution
// ---------------------------------------------------------------------------
/// Every placed piece among the first `k` names a piece type of the puzzle.
pub open spec fn placed_types_known(ps: Seq<PieceView>, d: PuzzleView, k: int) -> bool {
    forall|j: int| 0 <= j < k && (#[trigger] ps[j]).placed_at is Some ==> ps[j].type_id < d.pieces.len()
}

/// The placements recorded for the placed pieces among the first `k`, in
/// order.
pub open spec fn recorded_placements(ps: Seq<PieceView>, d: PuzzleView, k: int) -> Seq<SolutionPlacement>
    decreases k,
{
    if k <= 0 {
        Seq::empty()
    } else {
        let before = recorded_placements(ps, d, k - 1);
        let pc = ps[k - 1];
        match pc.placed_at {
            Some(pos) => before.push(
                SolutionPlacement {
                    piece: pc.type_id,
                    pos: pos,
                    rot: rotation_of(d.pieces[pc.type_id as int].shape, pc.shape) as u32,
                },
            ),
            None => before,
        }
    }
}

/// Recording can proceed: each placed piece reached names a known piece type
/// whose turns can be tried against the piece's current shape.
pub open spec fn recording_computable(ps: Seq<PieceView>, d: PuzzleView) -> bool {
    forall|i: int|
        0 <= i < ps.len() && placed_types_known(ps, d, i) && (#[trigger] ps[i]).placed_at is Some
            && ps[i].type_id < d.pieces.len() ==> rotation_computable(
            d.pieces[ps[i].type_id as int].shape,
            ps[i].shape,
        )
}

/// The placements of the placed pieces, in order, each with its piece type,
/// origin and number of quarter turns; `None` when a placed piece names no
/// piece type of the puzzle or when nothing is placed.
pub fn solution_placements(pieces: &Vec<Piece>, puzzle_data: &PuzzleData) -> (r: Option<Vec<SolutionPlacement>>)
    requires
        recording_computable(pieces_view(pieces@), puzzle_data@),
    ensures
        match r {
            Some(v) => {
                &&& placed_types_known(pieces_view(pieces@), puzzle_data@, pieces@.len() as int)
                &&& v@ == recorded_placements(pieces_view(pieces@), puzzle_data@, pieces@.len() as int)
                &&& v@.len() > 0
            },
            None => !placed_types_known(pieces_view(pieces@), puzzle_data@, pieces@.len() as int)
                || recorded_placements(pieces_view(pieces@), puzzle_data@, pieces@.len() as int).len() == 0,
        },
{
    let ghost ps = pieces_view(pieces@);
    let ghost d = puzzle_data@;
    let mut placements: Vec<SolutionPlacement> = Vec::new();
    let mut i: usize = 0;
    while i < pieces.len()
        invariant
            i <= pieces@.len(),
            ps == pieces_view(pieces@),
            d == puzzle_data@,
            recording_computable(ps, d),
            placed_types_known(ps, d, i as int),
            placements@ == recorded_placements(ps, d, i as int),
        decreases pieces@.len() - i,
    {
        let piece = &pieces[i];
        assert(ps[i as int] == piece@);
        if let Some(pos) = piece.placed_at {
            if piece.type_id >= puzzle_data.pieces.len() {
                return None;
            }
            assert(d.pieces[piece.type_id as int] == puzzle_data.pieces@[piece.type_id as int]@);
            let rot = compute_rotation(&puzzle_data.pieces[piece.type_id].shape, &piece.shape);
            placements.push(SolutionPlacement { piece: piece.type_id, pos, rot });
        }
        i = i + 1;
    }
    if placements.len() == 0 {
        return None;
    }
    Some(placements)
}

/// The four bytes of a 32-bit value, least significant first.
pub open spec fn u32_bytes(v: u32) -> Seq<u8> {
    seq![(v % 256) as u8, ((v / 256) % 256) as u8, ((v / 65536) % 256) as u8, (v / 16777216) as u8]
}

/// The eight bytes of a 64-bit value, least significant first.
pub open spec fn u64_bytes(v: u64) -> Seq<u8> {
    u32_bytes((v % 4294967296) as u32) + u32_bytes((v / 4294967296) as u32)
}

/// The bytes of a placement: piece type, position and turns.
pub open spec fn placement_bytes(pl: SolutionPlacement) -> Seq<u8> {
    u64_bytes(pl.piece as u64) + u32_bytes(pl.pos.x as u32) + u32_bytes(pl.pos.y as u32) + u32_bytes(pl.rot)
}

pub open spec fn placements_bytes(ps: Seq<SolutionPlacement>) -> Seq<u8>
    decreases ps.len(),
{
    if ps.len() == 0 {
        Seq::empty()
    } else {
        placements_bytes(ps.drop_last()) + placement_bytes(ps.last())
    }
}

pub open spec fn chars_bytes(cs: Seq<char>) -> Seq<u8>
    decreases cs.len(),
{
    if cs.len() == 0 {
        Seq::empty()
    } else {
        chars_bytes(cs.drop_last()) + u32_bytes(cs.last() as u32)
    }
}

/// The bytes a solution is hashed over: its score, its placements (with
/// their count first) and its timestamp (with its length first), every
/// number in a fixed width, least significant byte first.
pub open spec fn solution_encoding(score: i32, pls: Seq<SolutionPlacement>, timestamp: Seq<char>) -> Seq<u8> {
    u32_bytes(score as u32) + u64_bytes(pls.len() as u64) + placements_bytes(pls) + u64_bytes(
        timestamp.len() as u64,
    ) + chars_bytes(timestamp)
}

fn push_u32(out: &mut Vec<u8>, v: u32)
    ensures
        final(out)@ == old(out)@ + u32_bytes(v),
{
    out.push((v % 256) as u8);
    out.push(((v / 256) % 256) as u8);
    out.push(((v / 65536) % 256) as u8);
    out.push((v / 16777216) as u8);
    assert(out@ =~= old(out)@ + u32_bytes(v));
}

fn push_u64(out: &mut Vec<u8>, v: u64)
    ensures
        final(out)@ == old(out)@ + u64_bytes(v),
{
    push_u32(out, (v % 4294967296) as u32);
    push_u32(out, (v / 4294967296) as u32);
    assert(out@ =~= old(out)@ + u64_bytes(v));
}

/// The bytes the solution is hashed over.
fn solution_bytes(solution: &Solution) -> (r: Vec<u8>)
    ensures
        r@ == solution_encoding(solution.score, solution.placements@, solution.timestamp@),
{
    let ghost pls = solution.placements@;
    let mut out: Vec<u8> = Vec::new();
    push_u32(&mut out, solution.score as u32);
    push_u64(&mut out, solution.placements.len() as u64);
    let ghost head = out@;
    let mut i: usize = 0;
    assert(pls.take(0) =~= Seq::<SolutionPlacement>::empty());
    assert(out@ =~= head + placements_bytes(pls.take(0)));
    while i < solution.placements.len()
        invariant
            i <= pls.len(),
            pls == solution.placements@,
            out@ == head + placements_bytes(pls.take(i as int)),
        decreases pls.len() - i,
    {
        let pl = solution.placements[i];
        push_u64(&mut out, pl.piece as u64);
        push_u32(&mut out, pl.pos.x as u32);
        push_u32(&mut out, pl.pos.y as u32);
        push_u32(&mut out, pl.rot);
        proof {
            assert(pls.take(i as int + 1).drop_last() =~= pls.take(i as int));
            assert(pls.take(i as int + 1).last() == pl);
            assert(out@ =~= head + placements_bytes(pls.take(i as int + 1)));
        }
        i = i + 1;
    }
    assert(pls.take(pls.len() as int) =~= pls);
    let text = solution.timestamp.as_str();
    let n = text.unicode_len();
    push_u64(&mut out, n as u64);
    let ghost mid = out@;
    let ghost cs = solution.timestamp@;
    let mut k: usize = 0;
    assert(cs.take(0) =~= Seq::<char>::empty());
    assert(out@ =~= mid + chars_bytes(cs.take(0)));
    while k < n
        invariant
            k <= n,
            n == cs.len(),
            cs == text@,
            out@ == mid + chars_bytes(cs.take(k as int)),
        decreases n - k,
    {
        let c = text.get_char(k);
        push_u32(&mut out, c as u32);
        proof {
            assert(cs.take(k as int + 1).drop_last() =~= cs.take(k as int));
            assert(cs.take(k as int + 1).last() == c);
            assert(out@ =~= mid + chars_bytes(cs.take(k as int + 1)));
        }
        k = k + 1;
    }
    assert(cs.take(cs.len() as int) =~= cs);
    assert(out@ =~= solution_encoding(solution.score, pls, cs));
    out
}

/// The current board as a solution: the placements of the placed pieces, the
/// board's score, and the local time; together with a hash of the solution
/// (used to tell whether it was saved already). `None` when a placed piece
/// names no piece type of the puzzle or when nothing is placed.
pub fn get_current_solution(
    pieces: &Vec<Piece>,
    puzzle_state: &GameState,
    puzzle_data: &PuzzleData,
) -> (r: Option<(Solution, u64)>)
    requires
        recording_computable(pieces_view(pieces@), puzzle_data@),
    ensures
        match r {
            Some(sh) => {
                &&& placed_types_known(pieces_view(pieces@), puzzle_data@, pieces@.len() as int)
                &&& sh.0.placements@ == recorded_placements(
                    pieces_view(pieces@),
                    puzzle_data@,
                    pieces@.len() as int,
                )
                &&& sh.0.placements@.len() > 0
                &&& sh.0.score == puzzle_state.score
                &&& timestamp_shaped(sh.0.timestamp@)
                &&& sh.1 == DefaultHasher::spec_finish(
                    seq![solution_encoding(sh.0.score, sh.0.placements@, sh.0.timestamp@)],
                )
            },
            None => !placed_types_known(pieces_view(pieces@), puzzle_data@, pieces@.len() as int)
                || recorded_placements(pieces_view(pieces@), puzzle_data@, pieces@.len() as int).len() == 0,
        },
{
    match solution_placements(pieces, puzzle_data) {
        None => None,
        Some(placements) => {
            let timestamp = local_timestamp();
            let solution = Solution { score: puzzle_state.score, placements, timestamp };
            let bytes = solution_bytes(&solution);
            let mut hasher = DefaultHasher::new();
            hasher.write(bytes.as_slice());
            let hash = hasher.finish();
            assert(hasher@ =~= seq![bytes@]);
            Some((solution, hash))
        },
    }
}

/// A solution is saved unless it has the hash of the last one saved.
pub fn solution_needs_saving(last_saved_hash: Option<u64>, hash: u64) -> (r: bool)
    ensures
        r == (last_saved_hash != Some(hash)),
{
    match last_saved_hash {
        Some(h) => h != hash,
        None => true,
    }
}

// ---------------------------------------------------------------------------
// Boards of a puzzle and of a recorded solution
// ---------------------------------------------------------------------------
/// The colour map puzzle pieces are drawn with: RED, BLUE, GREEN, YELLOW.
pub open spec fn puzzle_map() -> ColorMap {
    ColorMap { with_yellow: true }
}

/// The blocked cells that lie on the board.
pub open spec fn blocked_on_board(d: PuzzleView) -> Set<(int, int)> {
    points_of(d.blocked).filter(|p: (int, int)| within(p, d.board_size))
}

/// A piece of the stash of a puzzle: the piece type's shape, colour (white
/// when unknown), points and effects, not placed.
pub open spec fn stash_piece(d: PuzzleView, t: int) -> PieceView {
    let def = d.pieces[t];
    let effects = baked_effects(def.effects, puzzle_map());
    PieceView {
        type_id: t as usize,
        shape: def.shape,
        original_shape: def.shape,
        color: color_or_white(puzzle_map(), def.color),
        points: def.points,
        effects: effects,
        original_effects: effects,
        placed_at: None,
        board_side: BoardSide::Single,
    }
}

/// The stash of the first `t` piece types: `count` copies of each, in order.
pub open spec fn stash_upto(d: PuzzleView, t: int) -> Seq<PieceView>
    decreases t,
{
    if t <= 0 {
        Seq::empty()
    } else {
        stash_upto(d, t - 1) + Seq::new(d.pieces[t - 1].count as nat, |i: int| stash_piece(d, t - 1))
    }
}

/// The starting state of a puzzle: an empty board whose disabled cells are
/// the blocked cells on the board, score 0; and the stash of all copies of
/// every piece type.
pub fn setup_puzzle(puzzle_data: &PuzzleData) -> (r: (GameState, Vec<Piece>))
    ensures
        r.0.board_cells@ == Map::<(int, int), PieceColor>::empty(),
        r.0.disabled_cells@ == blocked_on_board(puzzle_data@),
        r.0.score == 0,
        pieces_view(r.1@) == stash_upto(puzzle_data@, puzzle_data@.pieces.len() as int),
{
    let ghost d = puzzle_data@;
    let mut disabled = CellSet::new();
    let mut i: usize = 0;
    while i < puzzle_data.blocked_cells.len()
        invariant
            i <= d.blocked.len(),
            d == puzzle_data@,
            disabled@ == points_of(d.blocked.take(i as int)).filter(|p: (int, int)| within(p, d.board_size)),
        decreases d.blocked.len() - i,
    {
        let cell = puzzle_data.blocked_cells[i];
        let ghost a = d.blocked.take(i as int);
        let ghost b = d.blocked.take(i as int + 1);
        proof {
            assert forall|p: (int, int)| points_of(b).contains(p) <==> (points_of(a).contains(p) || p == pt(cell)) by {
                if points_of(b).contains(p) {
                    let j = choose|j: int| 0 <= j < b.len() && pt(b[j]) == p;
                    if j < i {
                        assert(a[j] == b[j]);
                    }
                }
                if points_of(a).contains(p) {
                    let j = choose|j: int| 0 <= j < a.len() && pt(a[j]) == p;
                    assert(a[j] == b[j]);
                }
                if p == pt(cell) {
                    assert(b[i as int] == cell);
                }
            }
        }
        if crate::model::is_in_bounds(cell, puzzle_data.board_size) {
            disabled.insert(cell);
            assert(disabled@ =~= points_of(b).filter(|p: (int, int)| within(p, d.board_size)));
        } else {
            assert(disabled@ =~= points_of(b).filter(|p: (int, int)| within(p, d.board_size)));
        }
        i = i + 1;
    }
    assert(d.blocked.take(i as int) =~= d.blocked);
    let color_map = color_map_with_yellow();
    let mut pieces: Vec<Piece> = Vec::new();
    let mut t: usize = 0;
    while t < puzzle_data.pieces.len()
        invariant
            t <= d.pieces.len(),
            d == puzzle_data@,
            color_map == puzzle_map(),
            pieces_view(pieces@) == stash_upto(d, t as int),
        decreases d.pieces.len() - t,
    {
        let def = &puzzle_data.pieces[t];
        assert(d.pieces[t as int] == def@);
        let color = color_map.get_or_white(&def.color);
        let effects = bake_effect_list(&def.effects, &color_map);
        let ghost before = pieces_view(pieces@);
        let mut c: u32 = 0;
        while c < def.count
            invariant
                c <= def.count,
                d == puzzle_data@,
                t < d.pieces.len(),
                d.pieces[t as int] == def@,
                color == color_or_white(puzzle_map(), def.color@),
                effects_view(effects@) == baked_effects(raw_effects_view(def.effects@), puzzle_map()),
                pieces_view(pieces@) == before + Seq::new(c as nat, |k: int| stash_piece(d, t as int)),
            decreases def.count - c,
        {
            let piece = Piece {
                type_id: t,
                shape: copy_coords(&def.shape),
                original_shape: copy_coords(&def.shape),
                color,
                points: def.points,
                effects: copy_effects(&effects),
                original_effects: copy_effects(&effects),
                placed_at: None,
                board_side: BoardSide::Single,
            };
            let ghost prev = pieces@;
            pieces.push(piece);
            proof {
                assert(piece@ == stash_piece(d, t as int));
                assert(pieces_view(pieces@) =~= pieces_view(prev).push(piece@));
                assert(before + Seq::new(c as nat + 1, |k: int| stash_piece(d, t as int)) =~= (before
                    + Seq::new(c as nat, |k: int| stash_piece(d, t as int))).push(stash_piece(d, t as int)));
            }
            c = c + 1;
        }
        t = t + 1;
    }
    (GameState { board_cells: CellMap::new(), disabled_cells: disabled, score: 0 }, pieces)
}

/// The piece a recorded placement shows: the piece type's shape turned
/// `rot % 4` quarter turns, its colour (white when unknown) and points, no
/// effects, placed at `pos`.
pub open spec fn shown_piece(d: PuzzleView, pl: SolutionPlacement) -> PieceView {
    let def = d.pieces[pl.piece as int];
    let shape = rotated_n(def.shape, (pl.rot % 4) as nat);
    PieceView {
        type_id: 0,
        shape: shape,
        original_shape: shape,
        color: color_or_white(puzzle_map(), def.color),
        points: def.points,
        effects: Seq::empty(),
        original_effects: Seq::empty(),
        placed_at: Some(pl.pos),
        board_side: BoardSide::Single,
    }
}

/// The pieces shown for the first `k` placements (those naming an unknown
/// piece type are skipped).
pub open spec fn shown_pieces(d: PuzzleView, pls: Seq<SolutionPlacement>, k: int) -> Seq<PieceView>
    decreases k,
{
    if k <= 0 {
        Seq::empty()
    } else if pls[k - 1].piece < d.pieces.len() {
        shown_pieces(d, pls, k - 1).push(shown_piece(d, pls[k - 1]))
    } else {
        shown_pieces(d, pls, k - 1)
    }
}

/// The cells painted by the first `k` placements; a later piece paints over
/// an earlier one.
pub open spec fn shown_cells(d: PuzzleView, pls: Seq<SolutionPlacement>, k: int) -> Map<(int, int), PieceColor>
    decreases k,
{
    if k <= 0 {
        Map::empty()
    } else if pls[k - 1].piece < d.pieces.len() {
        let pc = shown_piece(d, pls[k - 1]);
        with_cells(shown_cells(d, pls, k - 1), pls[k - 1].pos, pc.shape, pc.color)
    } else {
        shown_cells(d, pls, k - 1)
    }
}

/// Every placement naming a known piece type can be turned and shown: its
/// cells are representable coordinates.
pub open spec fn solution_showable(d: PuzzleView, pls: Seq<SolutionPlacement>) -> bool {
    forall|k: int|
        0 <= k < pls.len() && (#[trigger] pls[k]).piece < d.pieces.len() ==> {
            let def = d.pieces[pls[k].piece as int];
            let turns = (pls[k].rot % 4) as nat;
            &&& turnable(def.shape, turns)
            &&& forall|j: int|
                0 <= j < def.shape.len() ==> representable(
                    #[trigger] shift(pls[k].pos, rotated_n(def.shape, turns)[j]),
                )
        }
}

/// The board showing a recorded solution: every placement naming a known
/// piece type paints its turned shape in its colour; the disabled cells are
/// all blocked cells; the score is the solution's. Also the shown pieces.
pub fn setup_solution_view(solution: &Solution, puzzle_data: &PuzzleData) -> (r: (GameState, Vec<Piece>))
    requires
        solution_showable(puzzle_data@, solution.placements@),
    ensures
        r.0.board_cells@ == shown_cells(puzzle_data@, solution.placements@, solution.placements@.len() as int),
        r.0.disabled_cells@ == points_of(puzzle_data@.blocked),
        r.0.score == solution.score,
        pieces_view(r.1@) == shown_pieces(puzzle_data@, solution.placements@, solution.placements@.len() as int),
{
    let ghost d = puzzle_data@;
    let ghost pls = solution.placements@;
    let color_map = color_map_with_yellow();
    let no_effects: Vec<GameEffect> = Vec::new();
    let mut cells = CellMap::new();
    let mut pieces: Vec<Piece> = Vec::new();
    assert(pieces_view(pieces@) =~= Seq::<PieceView>::empty());
    let mut k: usize = 0;
    while k < solution.placements.len()
        invariant
            k <= pls.len(),
            d == puzzle_data@,
            pls == solution.placements@,
            color_map == puzzle_map(),
            no_effects@.len() == 0,
            solution_showable(d, pls),
            cells@ == shown_cells(d, pls, k as int),
            pieces_view(pieces@) == shown_pieces(d, pls, k as int),
        decreases pls.len() - k,
    {
        let pl = solution.placements[k];
        assert(pls[k as int] == pl);
        if pl.piece < puzzle_data.pieces.len() {
            let def = &puzzle_data.pieces[pl.piece];
            assert(d.pieces[pl.piece as int] == def@);
            let color = color_map.get_or_white(&def.color);
            let (shape, _) = turn_shape_and_effects(&def.shape, &no_effects, pl.rot % 4);
            paint_cells(&mut cells, pl.pos, &shape, color);
            let piece = Piece {
                type_id: 0,
                shape: copy_coords(&shape),
                original_shape: shape,
                color,
                points: def.points,
                effects: Vec::new(),
                original_effects: Vec::new(),
                placed_at: Some(pl.pos),
                board_side: BoardSide::Single,
            };
            let ghost prev = pieces@;
            pieces.push(piece);
            proof {
                assert(effects_view(piece.effects@) =~= Seq::<EffectView>::empty());
                assert(effects_view(piece.original_effects@) =~= Seq::<EffectView>::empty());
                assert(piece@ == shown_piece(d, pl));
                assert(pieces_view(pieces@) =~= pieces_view(prev).push(piece@));
            }
        }
        k = k + 1;
    }
    let disabled = blocked_set(&puzzle_data.blocked_cells);
    (GameState { board_cells: cells, disabled_cells: disabled, score: solution.score }, pieces)
}


// ---------------------------------------------------------------------------
// Checking that the operations above can proceed
// ---------------------------------------------------------------------------
fn condition_known(c: &RawEffectCondition, map: &ColorMap) -> (r: bool)
    requires
        *map == standard_map(),
    ensures
        r == condition_name_known(c@),
{
    match c {
        RawEffectCondition::MatchesColor(n) => map.get(n).is_some(),
        RawEffectCondition::NoColorOnBoard(n) => map.get(n).is_some(),
        _ => true,
    }
}

fn names_known(def: &PuzzlePieceData, map: &ColorMap) -> (r: bool)
    requires
        *map == standard_map(),
    ensures
        r == def_names_known(def@),
{
    if map.get(&def.color).is_none() {
        return false;
    }
    let mut i: usize = 0;
    while i < def.effects.len()
        invariant
            i <= def.effects@.len(),
            *map == standard_map(),
            lookup_color(standard_map(), def.color@) is Some,
            forall|j: int| 0 <= j < i ==> condition_name_known(#[trigger] def@.effects[j].condition),
        decreases def.effects@.len() - i,
    {
        assert(def@.effects[i as int] == def.effects@[i as int]@);
        if !condition_known(&def.effects[i].condition, map) {
            assert(!condition_name_known(def@.effects[i as int].condition));
            return false;
        }
        i = i + 1;
    }
    true
}

/// Whether checking the solution can proceed: every placement it reaches
/// names known colours and can be turned, and its score stays within `i32`.
pub fn can_check_solution(solution: &Solution, data: &PuzzleData) -> (r: bool)
    ensures
        r == (solution_checkable(data@, solution.placements@) && solution_score_in_range(data@, solution.placements@)),
{
    let ghost d = data@;
    let ghost pls = solution.placements@;
    let color_map = get_color_map();
    let blocked = blocked_set(&data.blocked_cells);
    let mut counts: Vec<u64> = Vec::new();
    let mut j: usize = 0;
    while j < data.pieces.len()
        invariant
            j <= data.pieces@.len(),
            counts@.len() == j,
            forall|i: int| 0 <= i < j ==> #[trigger] counts@[i] == 0,
        decreases data.pieces@.len() - j,
    {
        counts.push(0);
        j = j + 1;
    }
    let mut cells = CellMap::new();
    let mut pieces: Vec<Piece> = Vec::new();
    assert(counts_view(counts@) =~= initial_solution_state(d).counts);
    assert(pieces_view(pieces@) =~= Seq::<PieceView>::empty());
    let mut k: usize = 0;
    while k < solution.placements.len()
        invariant
            k <= pls.len(),
            d == data@,
            pls == solution.placements@,
            color_map == standard_map(),
            blocked@ == points_of(d.blocked),
            forall|k2: int|
                0 <= k2 < k ==> match #[trigger] solution_state(d, pls, k2) {
                    Some(st) => placement_checkable(d, st, pls[k2]),
                    None => true,
                },
            counts@.len() == d.pieces.len(),
            forall|i: int| 0 <= i < counts@.len() ==> #[trigger] counts@[i] <= d.pieces[i].count,
            solution_state(d, pls, k as int) matches Some(st) && st.counts == counts_view(counts@) && st.cells
                == cells@ && st.pieces == pieces_view(pieces@),
        decreases pls.len() - k,
    {
        let ghost st = solution_state(d, pls, k as int)->Some_0;
        assert(pls[k as int] == solution.placements@[k as int]);
        let pl = solution.placements[k];
        if pl.piece >= data.pieces.len() {
            proof {
                lemma_state_stays_none(d, pls, k as int + 1, pls.len() as int);
                assert forall|k2: int| 0 <= k2 < pls.len() implies match #[trigger] solution_state(d, pls, k2) {
                    Some(st2) => placement_checkable(d, st2, pls[k2]),
                    None => true,
                } by {
                    if k2 > k {
                        lemma_state_stays_none(d, pls, k as int + 1, k2);
                    }
                }
            }
            return true;
        }
        let def = &data.pieces[pl.piece];
        assert(d.pieces[pl.piece as int] == def@);
        let used = counts[pl.piece];
        if used + 1 > def.count as u64 {
            proof {
                lemma_state_stays_none(d, pls, k as int + 1, pls.len() as int);
                assert forall|k2: int| 0 <= k2 < pls.len() implies match #[trigger] solution_state(d, pls, k2) {
                    Some(st2) => placement_checkable(d, st2, pls[k2]),
                    None => true,
                } by {
                    if k2 > k {
                        lemma_state_stays_none(d, pls, k as int + 1, k2);
                    }
                }
            }
            return true;
        }
        let turns = pl.rot % 4;
        let baked = bake_effect_list(&def.effects, &color_map);
        if !names_known(def, &color_map) || !can_turn(&def.shape, &baked, turns) {
            assert(!placement_checkable(d, st, pl));
            return false;
        }
        assert(placement_checkable(d, st, pl));
        let (shape, effects) = turn_shape_and_effects(&def.shape, &baked, turns);
        let color = color_map.get_or_white(&def.color);
        let ghost pc = solution_piece(d, pl);
        assert(shape@ == pc.shape);
        if !claim_cells(&mut cells, &blocked, data.board_size, pl.pos, &shape, color) {
            proof {
                lemma_state_stays_none(d, pls, k as int + 1, pls.len() as int);
                assert forall|k2: int| 0 <= k2 < pls.len() implies match #[trigger] solution_state(d, pls, k2) {
                    Some(st2) => placement_checkable(d, st2, pls[k2]),
                    None => true,
                } by {
                    if k2 > k {
                        lemma_state_stays_none(d, pls, k as int + 1, k2);
                    }
                }
            }
            return true;
        }
        counts.set(pl.piece, used + 1);
        let piece = Piece {
            type_id: pl.piece,
            shape: copy_coords(&shape),
            original_shape: shape,
            color,
            points: def.points,
            effects: copy_effects(&effects),
            original_effects: effects,
            placed_at: Some(pl.pos),
            board_side: BoardSide::Single,
        };
        let ghost old_pieces = pieces@;
        pieces.push(piece);
        proof {
            assert(piece@ == pc);
            assert(pieces_view(pieces@) =~= pieces_view(old_pieces).push(pc));
            assert(counts_view(counts@) =~= st.counts.update(pl.piece as int, st.counts[pl.piece as int] + 1));
        }
        k = k + 1;
    }
    let ghost st = solution_state(d, pls, pls.len() as int)->Some_0;
    assert(crate::scoring::ctx_of(ScoreRules::Lookahead, &cells, &pieces, data.board_size) == solution_ctx(d, st));
    checked_score(ScoreRules::Lookahead, &cells, &pieces, data.board_size).is_some()
}

/// Whether the turns of `current` against `original` can be tried.
fn rotation_can_be_computed(original: &Vec<Coord>, current: &Vec<Coord>) -> (r: bool)
    ensures
        r == rotation_computable(original@, current@),
{
    let mut turned = copy_coords(original);
    proof {
        lemma_rotated_n_zero(original@, Seq::<EffectView>::empty());
    }
    let mut k: u32 = 0;
    while k < 4
        invariant
            k <= 4,
            k < 4 ==> turned@ == rotated_n(original@, k as nat),
            forall|j: nat| j < k ==> !rotation_matches(original@, current@, j),
            forall|k2: nat| k2 < k && k2 < 3 ==> shape_rotatable(#[trigger] rotated_n(original@, k2)),
        decreases 4 - k,
    {
        if same_offsets(&turned, current) {
            proof {
                assert forall|k2: nat|
                    k2 < 3 && (forall|j: nat| j <= k2 ==> !rotation_matches(original@, current@, j)) implies shape_rotatable(
                    #[trigger] rotated_n(original@, k2),
                ) by {
                    if k2 >= k {
                        assert(rotation_matches(original@, current@, k as nat));
                    }
                }
            }
            return true;
        }
        if k < 3 {
            if !shape_can_rotate(&turned) {
                assert(!rotation_matches(original@, current@, k as nat));
                assert(!shape_rotatable(rotated_n(original@, k as nat)));
                return false;
            }
            turned = rotate_shape(&turned);
            proof {
                lemma_rotated_n_succ(original@, k as nat);
            }
        }
        k = k + 1;
    }
    true
}

/// Whether recording the current board can proceed: the turns of every
/// placed piece it reaches can be tried.
pub fn can_record(pieces: &Vec<Piece>, puzzle_data: &PuzzleData) -> (r: bool)
    ensures
        r == recording_computable(pieces_view(pieces@), puzzle_data@),
{
    let ghost ps = pieces_view(pieces@);
    let ghost d = puzzle_data@;
    let mut i: usize = 0;
    while i < pieces.len()
        invariant
            i <= pieces@.len(),
            ps == pieces_view(pieces@),
            d == puzzle_data@,
            placed_types_known(ps, d, i as int),
            forall|i2: int|
                0 <= i2 < i && placed_types_known(ps, d, i2) && (#[trigger] ps[i2]).placed_at is Some && ps[i2].type_id
                    < d.pieces.len() ==> rotation_computable(d.pieces[ps[i2].type_id as int].shape, ps[i2].shape),
        decreases pieces@.len() - i,
    {
        let piece = &pieces[i];
        assert(ps[i as int] == piece@);
        if piece.placed_at.is_some() {
            if piece.type_id >= puzzle_data.pieces.len() {
                proof {
                    assert forall|i2: int|
                        0 <= i2 < ps.len() && placed_types_known(ps, d, i2) && (#[trigger] ps[i2]).placed_at is Some
                            && ps[i2].type_id < d.pieces.len() implies rotation_computable(
                        d.pieces[ps[i2].type_id as int].shape,
                        ps[i2].shape,
                    ) by {
                        if i2 > i {
                            assert(!placed_types_known(ps, d, i2)) by {
                                assert(ps[i as int].placed_at is Some);
                            }
                        }
                    }
                }
                return true;
            }
            assert(d.pieces[piece.type_id as int] == puzzle_data.pieces@[piece.type_id as int]@);
            if !rotation_can_be_computed(&puzzle_data.pieces[piece.type_id].shape, &piece.shape) {
                return false;
            }
        }
        i = i + 1;
    }
    true
}

/// Whether showing the solution can proceed: every placement naming a known
/// piece type can be turned and its cells are representable coordinates.
pub fn can_show_solution(solution: &Solution, data: &PuzzleData) -> (r: bool)
    ensures
        r == solution_showable(data@, solution.placements@),
{
    let ghost d = data@;
    let ghost pls = solution.placements@;
    let no_effects: Vec<GameEffect> = Vec::new();
    let mut k: usize = 0;
    while k < solution.placements.len()
        invariant
            k <= pls.len(),
            d == data@,
            pls == solution.placements@,
            no_effects@.len() == 0,
            forall|k2: int|
                0 <= k2 < k && (#[trigger] pls[k2]).piece < d.pieces.len() ==> {
                    let def = d.pieces[pls[k2].piece as int];
                    let turns = (pls[k2].rot % 4) as nat;
                    &&& turnable(def.shape, turns)
                    &&& forall|j: int|
                        0 <= j < def.shape.len() ==> representable(
                            #[trigger] shift(pls[k2].pos, rotated_n(def.shape, turns)[j]),
                        )
                },
        decreases pls.len() - k,
    {
        let pl = solution.placements[k];
        assert(pls[k as int] == pl);
        if pl.piece < data.pieces.len() {
            let def = &data.pieces[pl.piece];
            assert(d.pieces[pl.piece as int] == def@);
            let turns = pl.rot % 4;
            assert(effects_view(no_effects@) =~= Seq::<EffectView>::empty());
            proof {
                let ev = effects_view(no_effects@);
                assert forall|t: nat| t < turns as nat implies effects_rotatable(
                    #[trigger] rotated_effects_n(ev, t),
                ) by {
                    assert(rotated_effects_n(ev, t).len() == 0);
                }
            }
            if !can_turn(&def.shape, &no_effects, turns) {
                assert(!turnable(d.pieces[pls[k as int].piece as int].shape, (pls[k as int].rot % 4) as nat));
                return false;
            }
            let (shape, _) = turn_shape_and_effects(&def.shape, &no_effects, turns);
            let mut j: usize = 0;
            while j < shape.len()
                invariant
                    j <= shape@.len(),
                    shape@ == rotated_n(def@.shape, turns as nat),
                    d == data@,
                    pls == solution.placements@,
                    k < pls.len(),
                    pls[k as int] == pl,
                    pl.piece < d.pieces.len(),
                    d.pieces[pl.piece as int] == def@,
                    turns == pl.rot % 4,
                    forall|j2: int| 0 <= j2 < j ==> representable(#[trigger] shift(pl.pos, shape@[j2])),
                decreases shape@.len() - j,
            {
                let (px, py) = crate::board::shift_exec(pl.pos, shape[j]);
                if px < i32::MIN as i64 || px > i32::MAX as i64 || py < i32::MIN as i64 || py > i32::MAX as i64 {
                    assert(!representable(shift(pl.pos, shape@[j as int])));
                    assert(!representable(
                        shift(pls[k as int].pos, rotated_n(d.pieces[pls[k as int].piece as int].shape, (pls[k as int].rot % 4) as nat)[j as int]),
                    ));
                    return false;
                }
                j = j + 1;
            }
        }
        k = k + 1;
    }
    true
}

// ---------------------------------------------------------------------------
// Saved solution files
// ---------------------------------------------------------------------------
/// An ASCII decimal digit.
pub open spec fn ascii_digit(c: char) -> bool {
    48 <= (c as u32) <= 57
}

/// Whether the character is in Unicode's decimal-digit class (`Nd`), the
/// class `\d` stands for in the `regex` crate.
pub uninterp spec fn unicode_decimal_digit(c: char) -> bool;

/// Whether `regex` matches the one character against `^\d$`, where `\d` is
/// the Unicode class `Nd`. The contract names the result and states that the
/// ASCII digits, which lie in `Nd`, match.
#[verifier::external_body]
fn regex_decimal_digit(c: char) -> (r: bool)
    ensures
        r == unicode_decimal_digit(c),
        ascii_digit(c) ==> r,
{
    regex::Regex::new(r"^\d$").unwrap().is_match(&c.to_string())
}

/// A digit of a saved solution's name: a Unicode decimal digit (the ASCII
/// digits among them).
pub open spec fn name_digit(c: char) -> bool {
    ascii_digit(c) || unicode_decimal_digit(c)
}

/// The character that position `i` of a saved solution's name must hold.
pub open spec fn name_char_ok(i: int, c: char) -> bool {
    if i == 4 || i == 7 || i == 10 || i == 13 || i == 16 {
        c == '-'
    } else if i == 19 {
        c == '.'
    } else if i == 20 {
        c == 'r'
    } else if i == 21 {
        c == 'o'
    } else if i == 22 {
        c == 'n'
    } else {
        name_digit(c)
    }
}

/// A file name the player's saved solutions carry: `DDDD-DD-DD-DD-DD-DD.ron`
/// with decimal digits `D`: 23 characters, `-` at positions 4, 7, 10, 13
/// and 16, `.ron` at positions 19 to 22, digits everywhere else.
pub open spec fn user_solution_name(name: Seq<char>) -> bool {
    name.len() == 23 && forall|i: int| 0 <= i < 23 ==> name_char_ok(i, #[trigger] name[i])
}

fn is_name_digit(c: char) -> (r: bool)
    ensures
        r == name_digit(c),
{
    if (c as u32) >= 48 && (c as u32) <= 57 {
        true
    } else {
        regex_decimal_digit(c)
    }
}

/// Whether a file of a puzzle's solution directory is one the player saved
/// (and so is deleted when progress is reset).
pub fn is_user_solution_file(name: &str) -> (r: bool)
    ensures
        r == user_solution_name(name@),
{
    let n = name.unicode_len();
    if n != 23 {
        return false;
    }
    let mut i: usize = 0;
    while i < 23
        invariant
            n == name@.len(),
            n == 23,
            i <= 23,
            forall|k: int| 0 <= k < i ==> name_char_ok(k, #[trigger] name@[k]),
        decreases 23 - i,
    {
        let c = name.get_char(i);
        let ok = if i == 4 || i == 7 || i == 10 || i == 13 || i == 16 {
            c == '-'
        } else if i == 19 {
            c == '.'
        } else if i == 20 {
            c == 'r'
        } else if i == 21 {
            c == 'o'
        } else if i == 22 {
            c == 'n'
        } else {
            is_name_digit(c)
        };
        if !ok {
            assert(!name_char_ok(i as int, name@[i as int]));
            return false;
        }
        i = i + 1;
    }
    true
}

/// The format of the timestamps solutions are saved under:
/// year-month-day-hour-minute-second.
pub open spec fn timestamp_format() -> Seq<char> {
    "%Y-%m-%d-%H-%M-%S"@
}

/// What every local time written in `timestamp_format` looks like: the
/// year, then `-` and two ASCII digits five times (month, day, hour, minute,
/// second). Years 0 to 9999 are four ASCII digits, which makes 19
/// characters; other years carry a sign and at least four digits.
pub open spec fn timestamp_shaped(t: Seq<char>) -> bool {
    let n = t.len() as int;
    &&& n >= 19
    &&& forall|k: int| 0 <= k < 15 ==> if k % 3 == 0 {
        #[trigger] t[n - 15 + k] == '-'
    } else {
        ascii_digit(t[n - 15 + k])
    }
    &&& n == 19 ==> forall|k: int| 0 <= k < 4 ==> ascii_digit(#[trigger] t[k])
    &&& n != 19 ==> t[0] == '+' || t[0] == '-'
}

/// The local time written with `chrono::Local::now().format(format)`. It
/// depends on the clock; the contract states the shape that chrono's `%Y`,
/// `%m`, `%d`, `%H`, `%M` and `%S` give every time (years 0 to 9999 as four
/// zero-padded digits, others with a sign; the rest as two zero-padded
/// digits).
#[verifier::external_body]
fn local_time_text(format: &str) -> (r: String)
    requires
        format@ == timestamp_format(),
    ensures
        timestamp_shaped(r@),
{
    chrono::Local::now().format(format).to_string()
}

/// The local time as a solution's timestamp.
fn local_timestamp() -> (r: String)
    ensures
        timestamp_shaped(r@),
{
    let format = "%Y-%m-%d-%H-%M-%S";
    proof {
        reveal_strlit("%Y-%m-%d-%H-%M-%S");
    }
    local_time_text(format)
}

/// The name of the file a solution is saved in: its timestamp and `.ron`.
pub fn solution_file_name(timestamp: &String) -> (r: String)
    ensures
        r@ == timestamp@ + ".ron"@,
{
    let mut name = timestamp.as_str().to_owned();
    name.append(".ron");
    name
}

/// A solution saved under a timestamp from a year 0 to 9999 is recognised as
/// one the player saved, and so is deleted when progress is reset.
pub proof fn lemma_saved_solutions_recognised(timestamp: Seq<char>)
    requires
        timestamp_shaped(timestamp),
        timestamp.len() == 19,
    ensures
        user_solution_name(timestamp + ".ron"@),
{
    reveal_strlit(".ron");
    let name = timestamp + ".ron"@;
    assert forall|i: int| 0 <= i < 23 implies name_char_ok(i, #[trigger] name[i]) by {
        if i < 4 {
            assert(ascii_digit(timestamp[i]));
        } else if i < 19 {
            assert(timestamp[19 - 15 + (i - 4)] == timestamp[i]);
        }
    }
}

} // verus!
