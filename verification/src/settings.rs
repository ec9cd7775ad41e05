//! Game settings: the values the settings screen edits and the rules of its
//! buttons.
use vstd::prelude::*;

use crate::board::Coord;

verus! {

/// How the computer opponent chooses its moves.
#[derive(Clone, Copy, PartialEq, Eq, Structural, Debug, Hash)]
pub enum AIType {
    Dummy,
    Greedy,
    Random,
}

impl Default for AIType {
    fn default() -> (t: AIType)
        ensures
            t == AIType::Dummy,
    {
        AIType::Dummy
    }
}

/// The settings in force.
#[derive(Clone, Copy, PartialEq, Eq, Structural, Debug)]
pub struct GameSettings {
    pub duel_blocking_enabled: bool,
    pub ai_mode: AIType,
    pub rounds: u32,
    pub board_width: u32,
    pub board_height: u32,
    pub same_piece_set: bool,
}

impl Default for GameSettings {
    /// Blocking on, the plain opponent, 20 rounds, a 10 by 10 board, and the
    /// same pieces for both players.
    fn default() -> (s: GameSettings)
        ensures
            s.duel_blocking_enabled,
            s.ai_mode == AIType::Dummy,
            s.rounds == 20,
            s.board_width == 10,
            s.board_height == 10,
            s.same_piece_set,
    {
        GameSettings {
            duel_blocking_enabled: true,
            ai_mode: AIType::Dummy,
            rounds: 20,
            board_width: 10,
            board_height: 10,
            same_piece_set: true,
        }
    }
}

/// The settings being edited on the settings screen.
#[derive(Clone, Copy, PartialEq, Eq, Structural, Debug)]
pub struct TempSettings {
    pub duel_blocking_enabled: bool,
    pub ai_mode: AIType,
    pub rounds: u32,
    pub board_width: u32,
    pub board_height: u32,
    pub same_piece_set: bool,
}

/// The size of the board, in cells.
#[derive(Clone, Copy, PartialEq, Eq, Structural, Debug)]
pub struct BoardSize(pub Coord);

impl Default for BoardSize {
    fn default() -> (b: BoardSize)
        ensures
            b.0 == (Coord { x: 10, y: 10 }),
    {
        BoardSize(Coord { x: 10, y: 10 })
    }
}

/// Which setting a checkbox or radio button edits.
#[derive(Clone, Copy, PartialEq, Eq, Structural, Debug)]
pub enum SettingKey {
    DuelBlocking,
    AIMode,
    SamePieceSet,
}

/// The edited copy the settings screen starts from: the settings in force.
pub fn setup_settings(settings: &GameSettings) -> (t: TempSettings)
    ensures
        t.duel_blocking_enabled == settings.duel_blocking_enabled,
        t.ai_mode == settings.ai_mode,
        t.rounds == settings.rounds,
        t.board_width == settings.board_width,
        t.board_height == settings.board_height,
        t.same_piece_set == settings.same_piece_set,
{
    TempSettings {
        duel_blocking_enabled: settings.duel_blocking_enabled,
        ai_mode: settings.ai_mode,
        rounds: settings.rounds,
        board_width: settings.board_width,
        board_height: settings.board_height,
        same_piece_set: settings.same_piece_set,
    }
}

/// Flip a checkbox and copy its new value into the setting it edits (the
/// opponent kind is set by radio buttons, not by a checkbox). Returns the
/// new value.
pub fn toggle_checkbox(temp: &mut TempSettings, checked: bool, key: SettingKey) -> (value: bool)
    ensures
        value == !checked,
        final(temp).duel_blocking_enabled == if key == SettingKey::DuelBlocking {
            value
        } else {
            old(temp).duel_blocking_enabled
        },
        final(temp).same_piece_set == if key == SettingKey::SamePieceSet {
            value
        } else {
            old(temp).same_piece_set
        },
        final(temp).ai_mode == old(temp).ai_mode,
        final(temp).rounds == old(temp).rounds,
        final(temp).board_width == old(temp).board_width,
        final(temp).board_height == old(temp).board_height,
{
    let value = !checked;
    match key {
        SettingKey::DuelBlocking => temp.duel_blocking_enabled = value,
        SettingKey::SamePieceSet => temp.same_piece_set = value,
        SettingKey::AIMode => {},
    }
    value
}

/// The text of a checkbox: `[x]` when checked, `[ ]` otherwise.
pub fn checkbox_label(checked: bool) -> (s: String)
    ensures
        s@ == if checked {
            "[x]"@
        } else {
            "[ ]"@
        },
{
    if checked {
        "[x]".to_owned()
    } else {
        "[ ]".to_owned()
    }
}

/// Choose the opponent kind of a radio button; returns whether the button
/// showing `shown` is now the highlighted one.
pub fn radio_click(temp: &mut TempSettings, selected: AIType, shown: AIType) -> (highlighted: bool)
    ensures
        *final(temp) == (TempSettings { ai_mode: selected, ..*old(temp) }),
        highlighted == (shown == selected),
{
    temp.ai_mode = selected;
    shown == selected
}

/// One less, stopping at 0.
pub open spec fn sat_dec(v: u32) -> u32 {
    if v == 0 {
        0
    } else {
        (v - 1) as u32
    }
}

/// One more, stopping at the largest `u32`.
pub open spec fn sat_inc(v: u32) -> u32 {
    if v == u32::MAX {
        v
    } else {
        (v + 1) as u32
    }
}

/// The decrease button takes effect when the lowered value is still at
/// least `lo`.
pub open spec fn decrease_takes(v: u32, pressed: bool, lo: u32) -> bool {
    pressed && sat_dec(v) >= lo
}

pub open spec fn after_decrease(v: u32, pressed: bool, lo: u32) -> u32 {
    if decrease_takes(v, pressed, lo) {
        sat_dec(v)
    } else {
        v
    }
}

/// The increase button takes effect when the raised value is still at most
/// `hi`.
pub open spec fn increase_takes(v: u32, pressed: bool, hi: u32) -> bool {
    pressed && sat_inc(v) <= hi
}

pub open spec fn after_increase(v: u32, pressed: bool, hi: u32) -> u32 {
    if increase_takes(v, pressed, hi) {
        sat_inc(v)
    } else {
        v
    }
}

/// A counter setting after its buttons: the decrease button first, then the
/// increase button.
pub open spec fn after_buttons(v: u32, dec: bool, inc: bool, lo: u32, hi: u32) -> u32 {
    after_increase(after_decrease(v, dec, lo), inc, hi)
}

/// The value shown after the buttons: the value set by the last button that
/// took effect, if any did.
pub open spec fn shown_after_buttons(v: u32, dec: bool, inc: bool, lo: u32, hi: u32) -> Option<u32> {
    if increase_takes(after_decrease(v, dec, lo), inc, hi) {
        Some(after_buttons(v, dec, inc, lo, hi))
    } else if decrease_takes(v, dec, lo) {
        Some(after_decrease(v, dec, lo))
    } else {
        None
    }
}

fn step_counter(value: &mut u32, decrease_pressed: bool, increase_pressed: bool, lo: u32, hi: u32) -> (shown: Option<u32>)
    ensures
        *final(value) == after_buttons(*old(value), decrease_pressed, increase_pressed, lo, hi),
        shown == shown_after_buttons(*old(value), decrease_pressed, increase_pressed, lo, hi),
        lo <= *old(value) <= hi ==> lo <= *final(value) <= hi,
{
    let mut shown: Option<u32> = None;
    if decrease_pressed {
        let new_val = value.saturating_sub(1);
        if new_val >= lo {
            *value = new_val;
            shown = Some(new_val);
        }
    }
    if increase_pressed {
        let new_val = value.saturating_add(1);
        if new_val <= hi {
            *value = new_val;
            shown = Some(new_val);
        }
    }
    shown
}

/// The rounds buttons: the count moves by one within 1..=99. Returns the
/// value to show when a button took effect.
pub fn handle_rounds_buttons(temp: &mut TempSettings, decrease_pressed: bool, increase_pressed: bool) -> (shown: Option<u32>)
    ensures
        *final(temp) == (TempSettings {
            rounds: after_buttons(old(temp).rounds, decrease_pressed, increase_pressed, 1, 99),
            ..*old(temp)
        }),
        shown == shown_after_buttons(old(temp).rounds, decrease_pressed, increase_pressed, 1, 99),
        1 <= old(temp).rounds <= 99 ==> 1 <= final(temp).rounds <= 99,
{
    step_counter(&mut temp.rounds, decrease_pressed, increase_pressed, 1, 99)
}

/// The width buttons: the width moves by one within 7..=12. Returns the
/// value to show when a button took effect.
pub fn handle_width_buttons(temp: &mut TempSettings, decrease_pressed: bool, increase_pressed: bool) -> (shown: Option<u32>)
    ensures
        *final(temp) == (TempSettings {
            board_width: after_buttons(old(temp).board_width, decrease_pressed, increase_pressed, 7, 12),
            ..*old(temp)
        }),
        shown == shown_after_buttons(old(temp).board_width, decrease_pressed, increase_pressed, 7, 12),
        7 <= old(temp).board_width <= 12 ==> 7 <= final(temp).board_width <= 12,
{
    step_counter(&mut temp.board_width, decrease_pressed, increase_pressed, 7, 12)
}

/// The height buttons: the height moves by one within 7..=12. Returns the
/// value to show when a button took effect.
pub fn handle_height_buttons(temp: &mut TempSettings, decrease_pressed: bool, increase_pressed: bool) -> (shown: Option<u32>)
    ensures
        *final(temp) == (TempSettings {
            board_height: after_buttons(old(temp).board_height, decrease_pressed, increase_pressed, 7, 12),
            ..*old(temp)
        }),
        shown == shown_after_buttons(old(temp).board_height, decrease_pressed, increase_pressed, 7, 12),
        7 <= old(temp).board_height <= 12 ==> 7 <= final(temp).board_height <= 12,
{
    step_counter(&mut temp.board_height, decrease_pressed, increase_pressed, 7, 12)
}

/// Put the edited settings in force; the board takes the new width and
/// height.
pub fn apply_settings(temp: &TempSettings, settings: &mut GameSettings) -> (size: BoardSize)
    ensures
        final(settings).duel_blocking_enabled == temp.duel_blocking_enabled,
        final(settings).ai_mode == temp.ai_mode,
        final(settings).rounds == temp.rounds,
        final(settings).board_width == temp.board_width,
        final(settings).board_height == temp.board_height,
        final(settings).same_piece_set == temp.same_piece_set,
        size.0 == (Coord { x: temp.board_width as i32, y: temp.board_height as i32 }),
{
    settings.duel_blocking_enabled = temp.duel_blocking_enabled;
    settings.ai_mode = temp.ai_mode;
    settings.rounds = temp.rounds;
    settings.board_width = temp.board_width;
    settings.board_height = temp.board_height;
    settings.same_piece_set = temp.same_piece_set;
    BoardSize(Coord { x: settings.board_width as i32, y: settings.board_height as i32 })
}

/// The buttons keep a counter that is within `lo..=hi` within it, whatever
/// is pressed.
pub proof fn lemma_buttons_keep_range(v: u32, dec: bool, inc: bool, lo: u32, hi: u32)
    requires
        lo <= v <= hi,
    ensures
        lo <= after_buttons(v, dec, inc, lo, hi) <= hi,
{
}

} // verus!
