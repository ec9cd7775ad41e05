//! The screens of the game and how one moves between them, and the round
//! counter of the draft and duel modes.
use vstd::prelude::*;

verus! {

/// The screens of the game.
#[derive(Clone, Copy, PartialEq, Eq, Structural, Debug, Hash)]
pub enum AppState {
    Menu,
    Sandbox,
    Draft,
    Duel,
    Settings,
    Controls,
    PuzzlesList,
    Puzzle,
    SolutionList,
    SolutionView,
}

impl Default for AppState {
    fn default() -> (s: AppState)
        ensures
            s == AppState::Menu,
    {
        AppState::Menu
    }
}

/// Where Escape leads from a screen: back one level in the puzzle screens,
/// to the menu from everywhere else, and nowhere from the menu.
pub open spec fn escape_spec(s: AppState) -> Option<AppState> {
    match s {
        AppState::Puzzle => Some(AppState::PuzzlesList),
        AppState::SolutionView => Some(AppState::SolutionList),
        AppState::SolutionList => Some(AppState::PuzzlesList),
        AppState::PuzzlesList => Some(AppState::Menu),
        AppState::Controls => Some(AppState::Menu),
        AppState::Menu => None,
        _ => Some(AppState::Menu),
    }
}

/// The screen Escape switches to, if any.
pub fn handle_escape(current: AppState) -> (next: Option<AppState>)
    ensures
        next == escape_spec(current),
{
    match current {
        AppState::Puzzle => Some(AppState::PuzzlesList),
        AppState::SolutionView => Some(AppState::SolutionList),
        AppState::SolutionList => Some(AppState::PuzzlesList),
        AppState::PuzzlesList => Some(AppState::Menu),
        AppState::Controls => Some(AppState::Menu),
        AppState::Menu => None,
        _ => Some(AppState::Menu),
    }
}

/// The screen reached from `s` by pressing Escape `n` times.
pub open spec fn after_escapes(s: AppState, n: nat) -> AppState
    decreases n,
{
    if n == 0 {
        s
    } else {
        match escape_spec(s) {
            Some(t) => after_escapes(t, (n - 1) as nat),
            None => s,
        }
    }
}

/// Pressing Escape at most three times from any screen reaches the menu, and
/// the menu stays where it is.
pub proof fn lemma_escape_reaches_menu(s: AppState)
    ensures
        after_escapes(s, 3) == AppState::Menu,
        escape_spec(AppState::Menu) is None,
{
    reveal_with_fuel(after_escapes, 4);
}

/// What Ctrl+N does on a screen.
#[derive(Clone, Copy, PartialEq, Eq, Structural, Debug)]
pub enum ResetAction {
    /// Return every placed piece to the stash and empty the board.
    ClearBoard,
    /// Enter the screen again, starting it over.
    Restart(AppState),
    Nothing,
}

/// What Ctrl+N does: the sandbox clears its board; the draft and duel start
/// over; the puzzle clears its board when its state exists and starts over
/// otherwise; other screens ignore it.
pub fn handle_reset(current: AppState, puzzle_state_exists: bool) -> (a: ResetAction)
    ensures
        a == match current {
            AppState::Sandbox => ResetAction::ClearBoard,
            AppState::Draft => ResetAction::Restart(AppState::Draft),
            AppState::Duel => ResetAction::Restart(AppState::Duel),
            AppState::Puzzle => if puzzle_state_exists {
                ResetAction::ClearBoard
            } else {
                ResetAction::Restart(AppState::Puzzle)
            },
            _ => ResetAction::Nothing,
        },
{
    match current {
        AppState::Sandbox => ResetAction::ClearBoard,
        AppState::Draft => ResetAction::Restart(AppState::Draft),
        AppState::Duel => ResetAction::Restart(AppState::Duel),
        AppState::Puzzle => if puzzle_state_exists {
            ResetAction::ClearBoard
        } else {
            ResetAction::Restart(AppState::Puzzle)
        },
        _ => ResetAction::Nothing,
    }
}

pub open spec fn menu_target_spec(label: Seq<char>) -> Option<AppState> {
    if label == "Sandbox"@ {
        Some(AppState::Sandbox)
    } else if label == "Draft"@ {
        Some(AppState::Draft)
    } else if label == "Duel"@ {
        Some(AppState::Duel)
    } else if label == "Puzzles"@ {
        Some(AppState::PuzzlesList)
    } else if label == "Settings"@ {
        Some(AppState::Settings)
    } else {
        None
    }
}

/// The screen a menu button leads to, by its label.
pub fn menu_interaction(label: &String) -> (next: Option<AppState>)
    ensures
        next == menu_target_spec(label@),
{
    if *label == "Sandbox".to_owned() {
        Some(AppState::Sandbox)
    } else if *label == "Draft".to_owned() {
        Some(AppState::Draft)
    } else if *label == "Duel".to_owned() {
        Some(AppState::Duel)
    } else if *label == "Puzzles".to_owned() {
        Some(AppState::PuzzlesList)
    } else if *label == "Settings".to_owned() {
        Some(AppState::Settings)
    } else {
        None
    }
}

// ---------------------------------------------------------------------------
// Rounds
// ---------------------------------------------------------------------------
/// How many rounds have been played out of how many.
#[derive(Clone, Copy, PartialEq, Eq, Structural, Debug)]
pub struct RoundCounter {
    pub current: u32,
    pub total: u32,
}

impl RoundCounter {
    /// A counter at round 0 of `total`.
    pub fn new(total: u32) -> (r: RoundCounter)
        ensures
            r.current == 0,
            r.total == total,
    {
        RoundCounter { current: 0, total }
    }

    pub open spec fn game_over(self) -> bool {
        self.current >= self.total
    }

    /// Whether all rounds have been played.
    pub fn is_game_over(&self) -> (r: bool)
        ensures
            r == self.game_over(),
    {
        self.current >= self.total
    }

    /// One more round played.
    pub fn advance(&mut self)
        requires
            old(self).current < u32::MAX,
        ensures
            final(self).current == old(self).current + 1,
            final(self).total == old(self).total,
    {
        self.current = self.current + 1;
    }

    /// The round number shown: the rounds played, at most the total.
    pub fn displayed_current(&self) -> (r: u32)
        ensures
            r == if self.current <= self.total {
                self.current
            } else {
                self.total
            },
    {
        if self.current <= self.total {
            self.current
        } else {
            self.total
        }
    }
}

/// The counter after `k` rounds played from `r`, one `advance` each.
pub open spec fn advanced_times(r: RoundCounter, k: nat) -> RoundCounter
    decreases k,
{
    if k == 0 {
        r
    } else {
        let p = advanced_times(r, (k - 1) as nat);
        RoundCounter { current: (p.current + 1) as u32, total: p.total }
    }
}

/// A counter made by `new(total)` and then advanced `k` times (each call's
/// `requires` met along the way) stands at round `k` of `total`, and is over
/// exactly when `k` has reached the total: the game lasts `total` rounds.
pub proof fn lemma_game_lasts_total_rounds(total: u32, k: nat)
    requires
        k <= u32::MAX,
    ensures
        forall|j: nat| j < k ==> (#[trigger] advanced_times(RoundCounter { current: 0, total }, j)).current
            < u32::MAX,
        advanced_times(RoundCounter { current: 0, total }, k).current == k,
        advanced_times(RoundCounter { current: 0, total }, k).total == total,
        advanced_times(RoundCounter { current: 0, total }, k).game_over() <==> k >= total,
    decreases k,
{
    if k > 0 {
        lemma_game_lasts_total_rounds(total, (k - 1) as nat);
        assert forall|j: nat| j < k implies (#[trigger] advanced_times(RoundCounter { current: 0, total }, j)).current
            < u32::MAX by {
            if j < k - 1 {
            } else {
                assert(j == k - 1);
            }
        }
    }
}

} // verus!
