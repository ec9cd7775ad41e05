//! The duel: the player and the computer opponent each fill a board from
//! the same offered pieces; with blocking on, every round ends with each
//! side disabling a cell of the other's board.
use vstd::prelude::*;

use crate::ai::{
    avail_at, best_block_at, blocked_in_range, blocked_value, cand_fits, cand_valid, cand_value,
    cell_free, first_fit_at, first_free_placement, lemma_free_pieces_scan_turnable, greedy_best_at, greedy_block_cell, greedy_in_range,
    greedy_placement, on_board, origin_at, pick_first_free, pieces_freely_rotatable, placement_matches,
    scan_before, AIPlacement,
};
use crate::board::{pt, within, Coord};
use crate::model::{
    copy_coords, copy_effects, is_in_bounds, pieces_view, rotated_effects_n, rotated_n, BoardSide,
    GameState, Piece, PieceView,
};
use crate::placement::{add_piece_cells, fits, with_cells};
use crate::scoring::{board_score, ctx_of, recalculate_score_with_size, score_in_range, ScoreRules};
use crate::session::RoundCounter;
use crate::settings::{AIType, GameSettings};
use crate::config::RawPieceConfig;
use crate::colors::{get_color_map, ColorMap};
use crate::setup::{draw_stash_indices, drawn_from, library_drawable, min3, randomize_piece_properties, spawn_draggable_piece};

verus! {

/// Whether rounds end with each side blocking a cell.
#[derive(Clone, Copy, PartialEq, Eq, Structural, Debug)]
pub enum DuelMode {
    Basic,
    Destroy,
}

/// What the confirm button does next: place the offered piece, or commit
/// the chosen cell to block.
#[derive(Clone, Copy, PartialEq, Eq, Structural, Debug)]
pub enum DuelTurn {
    Place,
    Destroy,
}

impl Default for DuelTurn {
    fn default() -> (t: DuelTurn)
        ensures
            t == DuelTurn::Place,
    {
        DuelTurn::Place
    }
}

/// Both boards, the mode, whose turn it is, and the opponent cell the player
/// has chosen to block.
pub struct DuelState {
    pub player: GameState,
    pub opponent: GameState,
    pub mode: DuelMode,
    pub turn: DuelTurn,
    pub pending_disable: Option<Coord>,
}

impl Default for DuelState {
    /// Two empty boards, no blocking, the place turn, nothing chosen.
    fn default() -> (s: DuelState)
        ensures
            s.player.board_cells@ == Map::<(int, int), crate::board::PieceColor>::empty(),
            s.player.disabled_cells@ == Set::<(int, int)>::empty(),
            s.player.score == 0,
            s.opponent.board_cells@ == Map::<(int, int), crate::board::PieceColor>::empty(),
            s.opponent.disabled_cells@ == Set::<(int, int)>::empty(),
            s.opponent.score == 0,
            s.mode == DuelMode::Basic,
            s.turn == DuelTurn::Place,
            s.pending_disable is None,
    {
        DuelState {
            player: GameState::new(),
            opponent: GameState::new(),
            mode: DuelMode::Basic,
            turn: DuelTurn::Place,
            pending_disable: None,
        }
    }
}

/// The player clicks a cell of the opponent's board during the destroy
/// turn: a cell on the board that is neither occupied nor disabled becomes
/// the chosen cell (replacing any earlier choice). Returns whether it did.
pub fn handle_destroy_input(duel: &mut DuelState, grid: Coord, board_size: Coord) -> (chosen: bool)
    ensures
        chosen == (old(duel).turn == DuelTurn::Destroy && within(pt(grid), board_size)
            && !old(duel).opponent.board_cells@.contains_key(pt(grid))
            && !old(duel).opponent.disabled_cells@.contains(pt(grid))),
        chosen ==> final(duel).pending_disable == Some(grid),
        !chosen ==> final(duel).pending_disable == old(duel).pending_disable,
        final(duel).player == old(duel).player,
        final(duel).opponent == old(duel).opponent,
        final(duel).mode == old(duel).mode,
        final(duel).turn == old(duel).turn,
{
    if duel.turn != DuelTurn::Destroy {
        return false;
    }
    if is_in_bounds(grid, board_size) && !duel.opponent.board_cells.contains_key(grid)
        && !duel.opponent.disabled_cells.contains(grid) {
        duel.pending_disable = Some(grid);
        true
    } else {
        false
    }
}

// ---------------------------------------------------------------------------
// Confirming a turn
// ---------------------------------------------------------------------------
/// The turn after confirming.
pub open spec fn next_turn(mode: DuelMode, turn: DuelTurn) -> DuelTurn {
    match turn {
        DuelTurn::Place => if mode == DuelMode::Destroy {
            DuelTurn::Destroy
        } else {
            DuelTurn::Place
        },
        DuelTurn::Destroy => DuelTurn::Place,
    }
}

/// Confirming ends the round: after placing without blocking, or after
/// blocking.
pub open spec fn confirm_ends_round(mode: DuelMode, turn: DuelTurn) -> bool {
    turn == DuelTurn::Destroy || mode == DuelMode::Basic
}

/// The opponent's piece for candidate `(r, y, x)` of offered piece `pc`:
/// turned `r` quarter turns and placed at `(x, y)` on the opponent's side.
pub open spec fn opponent_piece_for(pc: PieceView, r: int, y: int, x: int) -> PieceView {
    let shape = rotated_n(pc.shape, r as nat);
    let effects = rotated_effects_n(pc.effects, r as nat);
    PieceView {
        type_id: 0,
        shape: shape,
        original_shape: shape,
        color: pc.color,
        points: pc.points,
        effects: effects,
        original_effects: effects,
        placed_at: Some(origin_at(x, y)),
        board_side: BoardSide::Right,
    }
}

/// The opponent's move is the greedy choice (for the greedy opponent) or the
/// first candidate that fits (for the others); `None` when there is none.
pub open spec fn ai_place_choice(
    ai: AIType,
    ps: Seq<PieceView>,
    cells: Map<(int, int), crate::board::PieceColor>,
    disabled: Set<(int, int)>,
    placed: Seq<PieceView>,
    size: Coord,
    chosen: Option<PieceView>,
) -> bool {
    match chosen {
        Some(p) => exists|i: int, r: int, y: int, x: int|
            (if ai == AIType::Greedy {
                greedy_best_at(ps, cells, disabled, placed, size, i, r, y, x)
            } else {
                first_fit_at(ps, cells, disabled, size, i, r, y, x)
            }) && p == #[trigger] opponent_piece_for(ps[i], r, y, x),
        None => if ai == AIType::Greedy {
            forall|i: int, r: int, y: int, x: int|
                cand_valid(ps.len() as int, size, i, r, y, x) && #[trigger] cand_fits(ps, cells, disabled, size, i, r, y, x)
                    ==> cand_value(ps, cells, placed, size, i, r, y, x) <= -1000000
        } else {
            forall|i: int, r: int, y: int, x: int|
                cand_valid(ps.len() as int, size, i, r, y, x) ==> !#[trigger] cand_fits(ps, cells, disabled, size, i, r, y, x)
        },
    }
}

/// The cell the opponent blocks on the player's board: the greedy choice (for
/// the greedy opponent) or the first free cell in row-major order (for the
/// others); `None` when there is none.
pub open spec fn ai_block_choice(
    ai: AIType,
    ps: Seq<PieceView>,
    cells: Map<(int, int), crate::board::PieceColor>,
    disabled: Set<(int, int)>,
    size: Coord,
    chosen: Option<Coord>,
) -> bool {
    if ai == AIType::Greedy {
        match chosen {
            Some(c) => best_block_at(ps, cells, disabled, size, c),
            None => forall|y: int, x: int|
                #[trigger] avail_at(cells, disabled, size, y, x) ==> blocked_value(ps, (x, y)) <= -1,
        }
    } else {
        match chosen {
            Some(c) => on_board(size, c.y as int, c.x as int) && cell_free(cells, disabled, c.y as int, c.x as int)
                && forall|y2: int, x2: int|
                on_board(size, y2, x2) && scan_before(y2, x2, c.y as int, c.x as int) ==> !#[trigger] cell_free(
                    cells,
                    disabled,
                    y2,
                    x2,
                ),
            None => forall|y2: int, x2: int| on_board(size, y2, x2) ==> !#[trigger] cell_free(cells, disabled, y2, x2),
        }
    }
}

/// What confirming did, for the screen to show: whether anything happened,
/// the piece the opponent placed, the cells blocked on the opponent's and
/// on the player's board, and whether a new round of pieces is to be
/// offered.
pub struct DuelConfirm {
    pub acted: bool,
    pub opponent_piece: Option<Piece>,
    pub committed_block: Option<Coord>,
    pub opponent_block: Option<Coord>,
    pub new_stash: bool,
}

pub open spec fn opt_view(p: Option<Piece>) -> Option<PieceView> {
    match p {
        Some(x) => Some(x@),
        None => None,
    }
}

/// The offered pieces can be turned, and, for the greedy opponent, its
/// ratings stay within `i32` (needed on the place turn); the greedy block
/// ratings stay within `i32` (needed on the destroy turn).
pub open spec fn confirm_computable(
    duel: DuelState,
    ai: AIType,
    player_pieces: Seq<PieceView>,
    opponent_drafts: Seq<PieceView>,
    opponent_pieces: Seq<PieceView>,
    size: Coord,
) -> bool {
    &&& duel.turn == DuelTurn::Place ==> pieces_freely_rotatable(opponent_drafts)
    &&& duel.turn == DuelTurn::Place && ai == AIType::Greedy ==> greedy_in_range(
        opponent_drafts,
        duel.opponent.board_cells@,
        duel.opponent.disabled_cells@,
        opponent_pieces,
        size,
    )
    &&& duel.turn == DuelTurn::Destroy && ai == AIType::Greedy ==> forall|y: int, x: int|
        #[trigger] avail_at(duel.player.board_cells@, duel.player.disabled_cells@, size, y, x)
            ==> blocked_in_range(player_pieces, (x, y))
}

fn opponent_piece(pl: &AIPlacement) -> (p: Piece)
    ensures
        p@ == (PieceView {
            type_id: 0,
            shape: pl.shape@,
            original_shape: pl.shape@,
            color: pl.color,
            points: pl.raw_config.points,
            effects: crate::model::effects_view(pl.effects@),
            original_effects: crate::model::effects_view(pl.effects@),
            placed_at: Some(pl.origin),
            board_side: BoardSide::Right,
        }),
{
    Piece {
        type_id: 0,
        shape: copy_coords(&pl.shape),
        original_shape: copy_coords(&pl.shape),
        color: pl.color,
        points: pl.raw_config.points,
        effects: copy_effects(&pl.effects),
        original_effects: copy_effects(&pl.effects),
        placed_at: Some(pl.origin),
        board_side: BoardSide::Right,
    }
}

/// The confirm button. Once the game is over it does nothing. On the place
/// turn the opponent places one of its offered pieces (the greedy choice or
/// the first that fits); with blocking on, the destroy turn follows,
/// otherwise the round ends. On the destroy turn the player's chosen cell
/// (if any) is disabled on the opponent's board, the opponent disables a
/// cell of the player's board (the greedy choice or the first free cell),
/// and the round ends. When a round ends and the game is not over, new
/// pieces are to be offered.
pub fn on_confirm_click_duel(
    duel: &mut DuelState,
    round_counter: &mut RoundCounter,
    ai_mode: AIType,
    player_pieces: &Vec<Piece>,
    opponent_drafts: &Vec<Piece>,
    opponent_pieces: &Vec<Piece>,
    board_size: Coord,
) -> (r: DuelConfirm)
    requires
        !old(round_counter).game_over() ==> confirm_computable(
            *old(duel),
            ai_mode,
            pieces_view(player_pieces@),
            pieces_view(opponent_drafts@),
            pieces_view(opponent_pieces@),
            board_size,
        ),
    ensures
        old(round_counter).game_over() ==> !r.acted && *final(duel) == *old(duel) && *final(round_counter)
            == *old(round_counter) && r.opponent_piece is None && r.committed_block is None
            && r.opponent_block is None && !r.new_stash,
        !old(round_counter).game_over() ==> {
            &&& r.acted
            &&& final(duel).mode == old(duel).mode
            &&& final(duel).turn == next_turn(old(duel).mode, old(duel).turn)
            &&& final(round_counter).total == old(round_counter).total
            &&& final(round_counter).current == old(round_counter).current + if confirm_ends_round(
                old(duel).mode,
                old(duel).turn,
            ) {
                1int
            } else {
                0int
            }
            &&& r.new_stash == (confirm_ends_round(old(duel).mode, old(duel).turn)
                && !final(round_counter).game_over())
        },
        !old(round_counter).game_over() && old(duel).turn == DuelTurn::Place ==> {
            &&& ai_place_choice(
                ai_mode,
                pieces_view(opponent_drafts@),
                old(duel).opponent.board_cells@,
                old(duel).opponent.disabled_cells@,
                pieces_view(opponent_pieces@),
                board_size,
                opt_view(r.opponent_piece),
            )
            &&& final(duel).opponent.board_cells@ == match r.opponent_piece {
                Some(p) => with_cells(old(duel).opponent.board_cells@, p.placed_at->0, p@.shape, p.color),
                None => old(duel).opponent.board_cells@,
            }
            &&& final(duel).opponent.disabled_cells@ == old(duel).opponent.disabled_cells@
            &&& final(duel).opponent.score == old(duel).opponent.score
            &&& final(duel).player == old(duel).player
            &&& final(duel).pending_disable == if old(duel).mode == DuelMode::Destroy {
                None
            } else {
                old(duel).pending_disable
            }
            &&& r.committed_block is None
            &&& r.opponent_block is None
        },
        !old(round_counter).game_over() && old(duel).turn == DuelTurn::Destroy ==> {
            &&& r.committed_block == old(duel).pending_disable
            &&& final(duel).opponent.disabled_cells@ == match old(duel).pending_disable {
                Some(c) => old(duel).opponent.disabled_cells@.insert(pt(c)),
                None => old(duel).opponent.disabled_cells@,
            }
            &&& final(duel).opponent.board_cells@ == old(duel).opponent.board_cells@
            &&& final(duel).opponent.score == old(duel).opponent.score
            &&& ai_block_choice(
                ai_mode,
                pieces_view(player_pieces@),
                old(duel).player.board_cells@,
                old(duel).player.disabled_cells@,
                board_size,
                r.opponent_block,
            )
            &&& final(duel).player.disabled_cells@ == match r.opponent_block {
                Some(c) => old(duel).player.disabled_cells@.insert(pt(c)),
                None => old(duel).player.disabled_cells@,
            }
            &&& final(duel).player.board_cells@ == old(duel).player.board_cells@
            &&& final(duel).player.score == old(duel).player.score
            &&& final(duel).pending_disable is None
            &&& r.opponent_piece is None
        },
{
    let none = DuelConfirm {
        acted: false,
        opponent_piece: None,
        committed_block: None,
        opponent_block: None,
        new_stash: false,
    };
    if round_counter.is_game_over() {
        return none;
    }
    match duel.turn {
        DuelTurn::Place => {
            let placement = if ai_mode == AIType::Greedy {
                greedy_placement(opponent_drafts, &duel.opponent, opponent_pieces, board_size)
            } else {
                proof {
                    lemma_free_pieces_scan_turnable(
                        pieces_view(opponent_drafts@),
                        duel.opponent.board_cells@,
                        duel.opponent.disabled_cells@,
                        board_size,
                    );
                }
                first_free_placement(opponent_drafts, &duel.opponent, board_size)
            };
            let ghost ps = pieces_view(opponent_drafts@);
            let ghost cells = duel.opponent.board_cells@;
            let ghost dis = duel.opponent.disabled_cells@;
            let ghost placed = pieces_view(opponent_pieces@);
            let opponent_piece = match placement {
                Some(pl) => {
                    let piece = opponent_piece(&pl);
                    proof {
                        let (i, rr, y, x) = choose|i: int, rr: int, y: int, x: int|
                            (if ai_mode == AIType::Greedy {
                                greedy_best_at(ps, cells, dis, placed, board_size, i, rr, y, x)
                            } else {
                                first_fit_at(ps, cells, dis, board_size, i, rr, y, x)
                            }) && placement_matches(pl, ps[i], rr, y, x);
                        assert(fits(cells, dis, board_size, origin_at(x, y), rotated_n(ps[i].shape, rr as nat)));
                        assert(piece@ == opponent_piece_for(ps[i], rr, y, x));
                        assert forall|j: int| 0 <= j < pl.shape@.len() implies within(
                            #[trigger] crate::board::shift(pl.origin, pl.shape@[j]),
                            board_size,
                        ) by {
                            assert(crate::model::available(
                                cells,
                                dis,
                                board_size,
                                crate::board::shift(origin_at(x, y), rotated_n(ps[i].shape, rr as nat)[j]),
                            ));
                        }
                    }
                    add_piece_cells(&mut duel.opponent.board_cells, pl.origin, &pl.shape, pl.color, board_size);
                    Some(piece)
                },
                None => None,
            };
            if duel.mode == DuelMode::Destroy {
                duel.turn = DuelTurn::Destroy;
                duel.pending_disable = None;
                DuelConfirm {
                    acted: true,
                    opponent_piece,
                    committed_block: None,
                    opponent_block: None,
                    new_stash: false,
                }
            } else {
                round_counter.advance();
                let new_stash = !round_counter.is_game_over();
                DuelConfirm { acted: true, opponent_piece, committed_block: None, opponent_block: None, new_stash }
            }
        },
        DuelTurn::Destroy => {
            let committed = duel.pending_disable;
            duel.pending_disable = None;
            if let Some(cell) = committed {
                duel.opponent.disabled_cells.insert(cell);
            }
            let ai_cell = if ai_mode == AIType::Greedy {
                greedy_block_cell(&duel.player, player_pieces, board_size)
            } else {
                pick_first_free(&duel.player.board_cells, &duel.player.disabled_cells, board_size)
            };
            if let Some(cell) = ai_cell {
                duel.player.disabled_cells.insert(cell);
            }
            duel.turn = DuelTurn::Place;
            round_counter.advance();
            let new_stash = !round_counter.is_game_over();
            DuelConfirm {
                acted: true,
                opponent_piece: None,
                committed_block: committed,
                opponent_block: ai_cell,
                new_stash,
            }
        },
    }
}

/// With blocking on, confirming twice from the place turn comes back to the
/// place turn and ends exactly one round; without blocking, every confirm
/// ends a round and the turn stays the place turn.
pub proof fn lemma_turns_alternate(mode: DuelMode)
    ensures
        next_turn(mode, next_turn(mode, DuelTurn::Place)) == DuelTurn::Place,
        mode == DuelMode::Destroy ==> next_turn(mode, DuelTurn::Place) == DuelTurn::Destroy
            && !confirm_ends_round(mode, DuelTurn::Place) && confirm_ends_round(mode, DuelTurn::Destroy),
        mode == DuelMode::Basic ==> next_turn(mode, DuelTurn::Place) == DuelTurn::Place && confirm_ends_round(
            mode,
            DuelTurn::Place,
        ),
{
}

/// Store both boards' scores (the board rules).
pub fn recalculate_duel_score_system(
    duel: &mut DuelState,
    player_pieces: &Vec<Piece>,
    opponent_pieces: &Vec<Piece>,
    board_size: Coord,
)
    requires
        score_in_range(ctx_of(ScoreRules::Board, &old(duel).player.board_cells, player_pieces, board_size)),
        score_in_range(ctx_of(ScoreRules::Board, &old(duel).opponent.board_cells, opponent_pieces, board_size)),
    ensures
        final(duel).player.score == board_score(
            ctx_of(ScoreRules::Board, &old(duel).player.board_cells, player_pieces, board_size),
        ),
        final(duel).opponent.score == board_score(
            ctx_of(ScoreRules::Board, &old(duel).opponent.board_cells, opponent_pieces, board_size),
        ),
        final(duel).player.board_cells@ == old(duel).player.board_cells@,
        final(duel).player.disabled_cells@ == old(duel).player.disabled_cells@,
        final(duel).opponent.board_cells@ == old(duel).opponent.board_cells@,
        final(duel).opponent.disabled_cells@ == old(duel).opponent.disabled_cells@,
        final(duel).mode == old(duel).mode,
        final(duel).turn == old(duel).turn,
        final(duel).pending_disable == old(duel).pending_disable,
{
    let p = recalculate_score_with_size(&duel.player.board_cells, player_pieces, board_size);
    let o = recalculate_score_with_size(&duel.opponent.board_cells, opponent_pieces, board_size);
    duel.player.score = p;
    duel.opponent.score = o;
}

/// The duel's starting state: blocking as the settings say, two empty
/// boards, the place turn; and a round counter for the set number of rounds.
pub fn setup_duel(settings: &GameSettings) -> (r: (DuelState, RoundCounter))
    ensures
        r.0.mode == if settings.duel_blocking_enabled {
            DuelMode::Destroy
        } else {
            DuelMode::Basic
        },
        r.0.turn == DuelTurn::Place,
        r.0.pending_disable is None,
        r.0.player.board_cells@ == Map::<(int, int), crate::board::PieceColor>::empty(),
        r.0.player.disabled_cells@ == Set::<(int, int)>::empty(),
        r.0.player.score == 0,
        r.0.opponent.board_cells@ == Map::<(int, int), crate::board::PieceColor>::empty(),
        r.0.opponent.disabled_cells@ == Set::<(int, int)>::empty(),
        r.0.opponent.score == 0,
        r.1.current == 0,
        r.1.total == settings.rounds,
{
    let mode = if settings.duel_blocking_enabled {
        DuelMode::Destroy
    } else {
        DuelMode::Basic
    };
    let mut state = DuelState::default();
    state.mode = mode;
    (state, RoundCounter::new(settings.rounds))
}


/// The pieces offered in a duel round: the same draws for both sides.
pub struct DuelStash {
    /// The definitions drawn, in order.
    pub indices: Vec<usize>,
    /// The player's pieces (left board), numbered by position.
    pub player: Vec<Piece>,
    /// The opponent's copies of the same pieces (right board).
    pub opponent: Vec<Piece>,
}

/// The pieces offered in a duel round: none once the game is over;
/// otherwise pieces from up to three different definitions chosen at random
/// (standard colour map), numbered by their position, one copy for each side.
pub fn generate_duel_stash(library: &Vec<RawPieceConfig>, round_counter: &RoundCounter) -> (r: Option<DuelStash>)
    requires
        library_drawable(library@),
    ensures
        match r {
            None => round_counter.game_over(),
            Some(st) => {
                &&& !round_counter.game_over()
                &&& st.indices@.len() == min3(library@.len() as int)
                &&& st.indices@.no_duplicates()
                &&& st.player@.len() == st.indices@.len()
                &&& st.opponent@.len() == st.indices@.len()
                &&& forall|i: int|
                    0 <= i < st.indices@.len() ==> (#[trigger] st.indices@[i]) < library@.len() && drawn_from(
                        library@[st.indices@[i] as int],
                        ColorMap { with_yellow: false },
                        st.player@[i]@,
                    ) && st.player@[i].type_id == i && st.player@[i].board_side == BoardSide::Left
                        && st.opponent@[i]@ == (PieceView { board_side: BoardSide::Right, ..st.player@[i]@ })
            },
        },
{
    if round_counter.is_game_over() {
        return None;
    }
    let color_map = get_color_map();
    let indices = draw_stash_indices(library.len());
    let mut player: Vec<Piece> = Vec::new();
    let mut opponent: Vec<Piece> = Vec::new();
    let mut k: usize = 0;
    while k < indices.len()
        invariant
            k <= indices@.len(),
            indices@.len() == min3(library@.len() as int),
            forall|i: int| 0 <= i < indices@.len() ==> #[trigger] indices@[i] < library@.len(),
            library_drawable(library@),
            color_map == (ColorMap { with_yellow: false }),
            player@.len() == k,
            opponent@.len() == k,
            forall|i: int|
                0 <= i < k ==> drawn_from(library@[indices@[i] as int], color_map, (#[trigger] player@[i])@)
                    && player@[i].type_id == i && player@[i].board_side == BoardSide::Left
                    && opponent@[i]@ == (PieceView { board_side: BoardSide::Right, ..player@[i]@ }),
        decreases indices@.len() - k,
    {
        let idx = indices[k];
        let raw = &library[idx];
        assert(raw.piece_type == crate::config::PieceType::Static || raw.effects@.len() > 0);
        let (color, effects) = randomize_piece_properties(raw, &color_map);
        let left = spawn_draggable_piece(k, &raw.shape, color, raw.points, &effects, BoardSide::Left);
        let right = spawn_draggable_piece(k, &raw.shape, color, raw.points, &effects, BoardSide::Right);
        proof {
            if raw.piece_type == crate::config::PieceType::Dynamic {
                assert(left@.effects[0] == effects@[0]@);
            }
        }
        player.push(left);
        opponent.push(right);
        k = k + 1;
    }
    Some(DuelStash { indices, player, opponent })
}

} // verus!
