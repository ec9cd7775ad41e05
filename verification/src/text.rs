//! The texts the game shows: effect descriptions, tooltips and labels.
use vstd::prelude::*;
use vstd::string::StringExecFns;

use crate::board::PieceColor;
use crate::colors::{blue_name, color_name, green_name, red_name};
use crate::model::{EffectCondition, EffectView, GameEffect, Piece, PieceView, effects_view};
use crate::session::RoundCounter;

verus! {

// ---------------------------------------------------------------------------
// String operations of std
// ---------------------------------------------------------------------------
/// The text of `s` with every match of a non-empty `from` replaced by `to`:
/// matches are taken from the left and do not overlap.
pub open spec fn replaced(s: Seq<char>, from: Seq<char>, to: Seq<char>) -> Seq<char>
    decreases s.len(),
{
    if from.len() == 0 || s.len() < from.len() {
        s
    } else if s.take(from.len() as int) == from {
        to + replaced(s.skip(from.len() as int), from, to)
    } else {
        seq![s[0]] + replaced(s.drop_first(), from, to)
    }
}

/// `str::replace` with a non-empty pattern: every match of `from` in `s`,
/// found from the left without overlap, is replaced by `to`.
#[verifier::external_body]
fn replace_all(s: &str, from: &str, to: &str) -> (r: String)
    requires
        from@.len() > 0,
    ensures
        r@ == replaced(s@, from@, to@),
{
    s.replace(from, to)
}

/// The two texts one after the other.
fn concat(a: &str, b: &str) -> (r: String)
    ensures
        r@ == a@ + b@,
{
    let mut text = a.to_owned();
    text.append(b);
    text
}

pub open spec fn digit_char(d: int) -> char {
    (48 + d) as char
}

/// The decimal digits of a natural number, without leading zeros.
pub open spec fn digits(n: nat) -> Seq<char>
    decreases n,
{
    if n < 10 {
        seq![digit_char(n as int)]
    } else {
        digits(n / 10).push(digit_char((n % 10) as int))
    }
}

/// An integer written in decimal, with a leading minus sign when negative.
pub open spec fn decimal(n: int) -> Seq<char> {
    if n < 0 {
        seq!['-'] + digits((-n) as nat)
    } else {
        digits(n as nat)
    }
}

/// An integer as text, from `ToString::to_string` (its `Display` impl writes
/// the decimal digits, after a minus sign when negative).
#[verifier::external_body]
fn decimal_text(n: i128) -> (r: String)
    ensures
        r@ == decimal(n as int),
{
    n.to_string()
}

// ---------------------------------------------------------------------------
// Effect descriptions
// ---------------------------------------------------------------------------
/// The description templates of the effects, by key (such as `IsEmpty` or
/// `MatchesColor(X)`).
pub struct EffectDescriptions {
    pub descriptions: Vec<(String, String)>,
}

/// The template of the first entry from index `i` on with this key.
pub open spec fn template_from(d: Seq<(String, String)>, key: Seq<char>, i: int) -> Option<Seq<char>>
    decreases d.len() - i,
{
    if i < 0 || i >= d.len() {
        None
    } else if d[i].0@ == key {
        Some(d[i].1@)
    } else {
        template_from(d, key, i + 1)
    }
}

/// The template for a key, or `Unknown effect: ` and the key.
pub open spec fn template_or_unknown(d: Seq<(String, String)>, key: Seq<char>) -> Seq<char> {
    match template_from(d, key, 0) {
        Some(t) => t,
        None => "Unknown effect: "@ + key,
    }
}

/// The name a colour is shown with.
pub open spec fn shown_color_name(c: PieceColor) -> Seq<char> {
    match c {
        PieceColor::Red => red_name(),
        PieceColor::Blue => blue_name(),
        PieceColor::Green => green_name(),
        _ => seq!['U', 'N', 'K', 'N', 'O', 'W', 'N'],
    }
}

/// The description of a condition: its template with `{X}` replaced by the
/// colour name or the size.
pub open spec fn description_of(cond: EffectCondition, d: Seq<(String, String)>) -> Seq<char> {
    match cond {
        EffectCondition::MatchesColor(c) => replaced(
            template_or_unknown(d, "MatchesColor(X)"@),
            "{X}"@,
            shown_color_name(c),
        ),
        EffectCondition::IsEmpty => template_or_unknown(d, "IsEmpty"@),
        EffectCondition::NoColorOnBoard(c) => replaced(
            template_or_unknown(d, "NoColorOnBoard(X)"@),
            "{X}"@,
            shown_color_name(c),
        ),
        EffectCondition::MatchesSize(n) => replaced(
            template_or_unknown(d, "MatchesSize(X)"@),
            "{X}"@,
            decimal(n as int),
        ),
    }
}

fn template_for(descs: &EffectDescriptions, key: &str) -> (r: String)
    ensures
        r@ == template_or_unknown(descs.descriptions@, key@),
{
    let mut i: usize = 0;
    while i < descs.descriptions.len()
        invariant
            i <= descs.descriptions@.len(),
            template_from(descs.descriptions@, key@, 0) == template_from(descs.descriptions@, key@, i as int),
        decreases descs.descriptions@.len() - i,
    {
        let k = key.to_owned();
        if descs.descriptions[i].0 == k {
            return descs.descriptions[i].1.clone();
        }
        i = i + 1;
    }
    concat("Unknown effect: ", key)
}

fn color_text(c: PieceColor) -> (s: String)
    ensures
        s@ == shown_color_name(c),
{
    color_name(c)
}

/// The description shown for an effect condition.
pub fn get_effect_description(cond: &EffectCondition, descs: &EffectDescriptions) -> (r: String)
    ensures
        r@ == description_of(*cond, descs.descriptions@),
{
    match cond {
        EffectCondition::MatchesColor(c) => {
            let template = template_for(descs, "MatchesColor(X)");
            let name = color_text(*c);
            proof {
                reveal_strlit("{X}");
            }
            replace_all(template.as_str(), "{X}", name.as_str())
        },
        EffectCondition::IsEmpty => template_for(descs, "IsEmpty"),
        EffectCondition::NoColorOnBoard(c) => {
            let template = template_for(descs, "NoColorOnBoard(X)");
            let name = color_text(*c);
            proof {
                reveal_strlit("{X}");
            }
            replace_all(template.as_str(), "{X}", name.as_str())
        },
        EffectCondition::MatchesSize(n) => {
            let template = template_for(descs, "MatchesSize(X)");
            let size = decimal_text(*n as i128);
            proof {
                reveal_strlit("{X}");
            }
            replace_all(template.as_str(), "{X}", size.as_str())
        },
    }
}

// ---------------------------------------------------------------------------
// Tooltips
// ---------------------------------------------------------------------------
/// The tooltip lines of the first `k` effects: each `\n- ` and its
/// description with `{points}` replaced by the effect's points.
pub open spec fn effect_lines(es: Seq<EffectView>, d: Seq<(String, String)>, k: int) -> Seq<char>
    decreases k,
{
    if k <= 0 {
        Seq::empty()
    } else {
        effect_lines(es, d, k - 1) + "\n- "@ + replaced(
            description_of(es[k - 1].condition, d),
            "{points}"@,
            decimal(es[k - 1].points as int),
        )
    }
}

/// The tooltip of a piece: `Gain N points.`, then, when it has effects,
/// `Effects:` and a line for each.
pub open spec fn tooltip_of(pc: PieceView, d: Seq<(String, String)>) -> Seq<char> {
    let head = "Gain "@ + decimal(pc.points as int) + " points."@;
    if pc.effects.len() == 0 {
        head
    } else {
        head + "\nEffects:"@ + effect_lines(pc.effects, d, pc.effects.len() as int)
    }
}

/// The text of the tooltip shown for a hovered piece.
pub fn tooltip_text(piece: &Piece, descs: &EffectDescriptions) -> (r: String)
    ensures
        r@ == tooltip_of(piece@, descs.descriptions@),
{
    let points = decimal_text(piece.points as i128);
    let a = concat("Gain ", points.as_str());
    let mut text = concat(a.as_str(), " points.");
    if piece.effects.len() == 0 {
        return text;
    }
    text = concat(text.as_str(), "\nEffects:");
    let ghost head = text@;
    let ghost es = effects_view(piece.effects@);
    let mut i: usize = 0;
    while i < piece.effects.len()
        invariant
            i <= piece.effects@.len(),
            es == effects_view(piece.effects@),
            text@ == head + effect_lines(es, descs.descriptions@, i as int),
        decreases piece.effects@.len() - i,
    {
        let effect = &piece.effects[i];
        assert(es[i as int] == effect@);
        let desc = get_effect_description(&effect.condition, descs);
        let pts = decimal_text(effect.points as i128);
        proof {
            reveal_strlit("{points}");
        }
        let line = replace_all(desc.as_str(), "{points}", pts.as_str());
        let t1 = concat(text.as_str(), "\n- ");
        text = concat(t1.as_str(), line.as_str());
        proof {
            assert(text@ =~= head + effect_lines(es, descs.descriptions@, i as int + 1));
        }
        i = i + 1;
    }
    text
}

/// The word a puzzle tooltip puts for `{color}`: the colour's name for
/// colour conditions, `empty` otherwise.
pub open spec fn puzzle_color_word(cond: EffectCondition) -> Seq<char> {
    match cond {
        EffectCondition::MatchesColor(c) => shown_color_name(c),
        EffectCondition::NoColorOnBoard(c) => shown_color_name(c),
        _ => "empty"@,
    }
}

pub open spec fn puzzle_effect_lines(es: Seq<EffectView>, d: Seq<(String, String)>, k: int) -> Seq<char>
    decreases k,
{
    if k <= 0 {
        Seq::empty()
    } else {
        puzzle_effect_lines(es, d, k - 1) + "\n- "@ + replaced(
            replaced(description_of(es[k - 1].condition, d), "{points}"@, decimal(es[k - 1].points as int)),
            "{color}"@,
            puzzle_color_word(es[k - 1].condition),
        )
    }
}

/// The tooltip of a puzzle piece: `Gain N points.`, then, when it has
/// effects, a blank line, `Effects:`, and a line for each (with `{points}`
/// and `{color}` filled in).
pub open spec fn puzzle_tooltip_of(pc: PieceView, d: Seq<(String, String)>) -> Seq<char> {
    let head = "Gain "@ + decimal(pc.points as int) + " points."@;
    if pc.effects.len() == 0 {
        head
    } else {
        head + "\n\nEffects:"@ + puzzle_effect_lines(pc.effects, d, pc.effects.len() as int)
    }
}

fn color_word(cond: &EffectCondition) -> (s: String)
    ensures
        s@ == puzzle_color_word(*cond),
{
    match cond {
        EffectCondition::MatchesColor(c) => color_text(*c),
        EffectCondition::NoColorOnBoard(c) => color_text(*c),
        _ => "empty".to_owned(),
    }
}

/// The text of the tooltip shown for a hovered puzzle piece.
pub fn puzzle_tooltip_text(piece: &Piece, descs: &EffectDescriptions) -> (r: String)
    ensures
        r@ == puzzle_tooltip_of(piece@, descs.descriptions@),
{
    let points = decimal_text(piece.points as i128);
    let a = concat("Gain ", points.as_str());
    let mut text = concat(a.as_str(), " points.");
    if piece.effects.len() == 0 {
        return text;
    }
    text = concat(text.as_str(), "\n\nEffects:");
    let ghost head = text@;
    let ghost es = effects_view(piece.effects@);
    let mut i: usize = 0;
    while i < piece.effects.len()
        invariant
            i <= piece.effects@.len(),
            es == effects_view(piece.effects@),
            text@ == head + puzzle_effect_lines(es, descs.descriptions@, i as int),
        decreases piece.effects@.len() - i,
    {
        let effect = &piece.effects[i];
        assert(es[i as int] == effect@);
        let desc = get_effect_description(&effect.condition, descs);
        let pts = decimal_text(effect.points as i128);
        proof {
            reveal_strlit("{points}");
        }
        let with_points = replace_all(desc.as_str(), "{points}", pts.as_str());
        let word = color_word(&effect.condition);
        proof {
            reveal_strlit("{color}");
        }
        let line = replace_all(with_points.as_str(), "{color}", word.as_str());
        let t1 = concat(text.as_str(), "\n- ");
        text = concat(t1.as_str(), line.as_str());
        proof {
            assert(text@ =~= head + puzzle_effect_lines(es, descs.descriptions@, i as int + 1));
        }
        i = i + 1;
    }
    text
}

// ---------------------------------------------------------------------------
// Labels
// ---------------------------------------------------------------------------
/// A label and a number: `prefix` followed by the number in decimal.
pub fn number_label(prefix: &str, n: i64) -> (r: String)
    ensures
        r@ == prefix@ + decimal(n as int),
{
    let digits = decimal_text(n as i128);
    concat(prefix, digits.as_str())
}

/// A contribution as shown next to a placed piece: a plus sign before
/// numbers from 0 up.
pub fn contribution_label(contribution: i32) -> (r: String)
    ensures
        r@ == if contribution >= 0 {
            "+"@ + decimal(contribution as int)
        } else {
            decimal(contribution as int)
        },
{
    let digits = decimal_text(contribution as i128);
    if contribution >= 0 {
        concat("+", digits.as_str())
    } else {
        digits
    }
}

/// The round text next to the confirm button: `Round:`, a line break, and
/// the round shown over the total.
pub fn round_label(round_counter: &RoundCounter) -> (r: String)
    ensures
        r@ == "Round:\n"@ + decimal(
            if round_counter.current <= round_counter.total {
                round_counter.current as int
            } else {
                round_counter.total as int
            },
        ) + "/"@ + decimal(round_counter.total as int),
{
    let shown = decimal_text(round_counter.displayed_current() as i128);
    let total = decimal_text(round_counter.total as i128);
    let a = concat("Round:\n", shown.as_str());
    let b = concat(a.as_str(), "/");
    concat(b.as_str(), total.as_str())
}

} // verus!
