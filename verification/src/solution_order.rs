//! Whether a recorded solution is valid, and what it scores, depends on its
//! placements as a collection: not on their order, not on full turns added to
//! a placement, and not on the solution's timestamp.
use vstd::prelude::*;

use crate::board::{covers, points_of, shift, within, Coord, PieceColor};
use crate::model::{BoardSide, PieceView};
use crate::placement::{fits, with_cells};
use crate::puzzle::{
    solution_ctx, solution_piece, solution_state, solution_valid, PuzzleView, Solution, SolutionPlacement,
};
use crate::scoring::{board_score, lemma_score_ignores_order, piece_covers, placed_disjoint, with_pieces};

verus! {

/// The placement with its number of turns reduced to 0..3.
pub open spec fn normalized(pl: SolutionPlacement) -> SolutionPlacement {
    SolutionPlacement { piece: pl.piece, pos: pl.pos, rot: pl.rot % 4 }
}

/// The placements with their turns reduced to 0..3.
pub open spec fn normalized_all(s: Seq<SolutionPlacement>) -> Seq<SolutionPlacement> {
    s.map_values(|pl: SolutionPlacement| normalized(pl))
}

/// The turned shape a placement puts down.
pub open spec fn shape_of(d: PuzzleView, pl: SolutionPlacement) -> Seq<Coord> {
    solution_piece(d, pl).shape
}

/// No point is covered by both placements.
pub open spec fn apart(d: PuzzleView, a: SolutionPlacement, b: SolutionPlacement) -> bool {
    forall|p: (int, int)| #[trigger] covers(a.pos, shape_of(d, a), p) ==> !covers(b.pos, shape_of(d, b), p)
}

/// The placement names a piece type and, on its own, lies on free board
/// cells: on the board, not blocked, no cell named twice.
pub open spec fn fits_alone(d: PuzzleView, pl: SolutionPlacement) -> bool {
    &&& pl.piece < d.pieces.len()
    &&& shape_of(d, pl).no_duplicates()
    &&& forall|j: int|
        0 <= j < shape_of(d, pl).len() ==> within(#[trigger] shift(pl.pos, shape_of(d, pl)[j]), d.board_size)
            && !points_of(d.blocked).contains(shift(pl.pos, shape_of(d, pl)[j]))
}

/// How many placements of `s` use piece type `t`.
pub open spec fn type_count(s: Seq<SolutionPlacement>, t: int) -> int
    decreases s.len(),
{
    if s.len() == 0 {
        0
    } else {
        type_count(s.drop_last(), t) + if s.last().piece == t {
            1int
        } else {
            0
        }
    }
}

/// Placement `x` is accepted after the placements `prev`.
pub open spec fn step_ok(d: PuzzleView, prev: Seq<SolutionPlacement>, x: SolutionPlacement) -> bool {
    &&& fits_alone(d, x)
    &&& type_count(prev, x.piece as int) + 1 <= d.pieces[x.piece as int].count
    &&& forall|k: int| 0 <= k < prev.len() ==> apart(d, #[trigger] prev[k], x)
}

/// Every placement of `s` is accepted after the ones before it.
pub open spec fn all_ok(d: PuzzleView, s: Seq<SolutionPlacement>) -> bool
    decreases s.len(),
{
    if s.len() == 0 {
        true
    } else {
        all_ok(d, s.drop_last()) && step_ok(d, s.drop_last(), s.last())
    }
}

/// The cells the placements of `s` occupy, later placements painted last.
pub open spec fn cells_of(d: PuzzleView, s: Seq<SolutionPlacement>) -> Map<(int, int), PieceColor>
    decreases s.len(),
{
    if s.len() == 0 {
        Map::empty()
    } else {
        let pc = solution_piece(d, s.last());
        with_cells(cells_of(d, s.drop_last()), s.last().pos, pc.shape, pc.color)
    }
}

/// The pieces the placements of `s` put on the board.
pub open spec fn pieces_of(d: PuzzleView, s: Seq<SolutionPlacement>) -> Seq<PieceView> {
    s.map_values(|pl: SolutionPlacement| solution_piece(d, pl))
}

proof fn lemma_cells_dom(d: PuzzleView, s: Seq<SolutionPlacement>, p: (int, int))
    ensures
        cells_of(d, s).contains_key(p) <==> exists|k: int|
            0 <= k < s.len() && #[trigger] covers(s[k].pos, shape_of(d, s[k]), p),
    decreases s.len(),
{
    if s.len() > 0 {
        let t = s.drop_last();
        let x = s.last();
        lemma_cells_dom(d, t, p);
        assert(cells_of(d, s).contains_key(p) == (cells_of(d, t).contains_key(p) || covers(x.pos, shape_of(d, x), p)));
        if cells_of(d, s).contains_key(p) {
            if covers(x.pos, shape_of(d, x), p) {
                assert(covers(s[s.len() - 1].pos, shape_of(d, s[s.len() - 1]), p));
            } else {
                let k = choose|k: int| 0 <= k < t.len() && #[trigger] covers(t[k].pos, shape_of(d, t[k]), p);
                assert(s[k] == t[k]);
            }
        }
        if exists|k: int| 0 <= k < s.len() && #[trigger] covers(s[k].pos, shape_of(d, s[k]), p) {
            let k = choose|k: int| 0 <= k < s.len() && #[trigger] covers(s[k].pos, shape_of(d, s[k]), p);
            if k < s.len() - 1 {
                assert(t[k] == s[k]);
            }
        }
    }
}

/// The state after the first `k` placements is reached exactly when those
/// placements are all accepted, and it holds their cells, their pieces and
/// their counts per type.
proof fn lemma_state_of_prefix(d: PuzzleView, pls: Seq<SolutionPlacement>, k: int)
    requires
        0 <= k <= pls.len(),
    ensures
        (solution_state(d, pls, k) is Some) == all_ok(d, pls.take(k)),
        solution_state(d, pls, k) matches Some(st) ==> {
            &&& st.cells == cells_of(d, pls.take(k))
            &&& st.pieces == pieces_of(d, pls.take(k))
            &&& st.counts.len() == d.pieces.len()
            &&& forall|t: int| 0 <= t < d.pieces.len() ==> #[trigger] st.counts[t] == type_count(pls.take(k), t)
        },
    decreases k,
{
    if k == 0 {
        assert(pls.take(0) =~= Seq::<SolutionPlacement>::empty());
        assert(pieces_of(d, pls.take(0)) =~= Seq::<PieceView>::empty());
    } else {
        lemma_state_of_prefix(d, pls, k - 1);
        let s = pls.take(k);
        let prev = pls.take(k - 1);
        assert(s.drop_last() =~= prev);
        let x = pls[k - 1];
        assert(s.last() == x);
        match solution_state(d, pls, k - 1) {
            None => {},
            Some(st) => {
                let pc = solution_piece(d, x);
                if x.piece < d.pieces.len() && st.counts[x.piece as int] + 1 <= d.pieces[x.piece as int].count {
                    let f = fits(st.cells, points_of(d.blocked), d.board_size, x.pos, pc.shape);
                    let sh = pc.shape;
                    if f {
                        assert forall|m: int| 0 <= m < prev.len() implies apart(d, #[trigger] prev[m], x) by {
                            assert forall|p: (int, int)| #[trigger] covers(prev[m].pos, shape_of(d, prev[m]), p) implies !covers(
                                x.pos,
                                shape_of(d, x),
                                p,
                            ) by {
                                lemma_cells_dom(d, prev, p);
                                if covers(x.pos, shape_of(d, x), p) {
                                    let j = choose|j: int| 0 <= j < sh.len() && shift(x.pos, sh[j]) == p;
                                    assert(crate::model::available(st.cells, points_of(d.blocked), d.board_size, shift(x.pos, sh[j])));
                                }
                            }
                        }
                    } else {
                        let j = choose|j: int|
                            0 <= j < sh.len() && !crate::model::available(
                                st.cells,
                                points_of(d.blocked),
                                d.board_size,
                                #[trigger] shift(x.pos, sh[j]),
                            );
                        let p = shift(x.pos, sh[j]);
                        lemma_cells_dom(d, prev, p);
                        if st.cells.contains_key(p) && fits_alone(d, x) {
                            let m = choose|m: int| 0 <= m < prev.len() && #[trigger] covers(prev[m].pos, shape_of(d, prev[m]), p);
                            assert(covers(x.pos, shape_of(d, x), p));
                            assert(!apart(d, prev[m], x));
                        }
                    }
                }
                if solution_state(d, pls, k) is Some {
                    let st2 = solution_state(d, pls, k)->Some_0;
                    assert(pieces_of(d, s) =~= pieces_of(d, prev).push(pc));
                    assert forall|t: int| 0 <= t < d.pieces.len() implies #[trigger] st2.counts[t] == type_count(s, t) by {
                    }
                }
            },
        }
    }
}

proof fn lemma_state_normalized(d: PuzzleView, pls: Seq<SolutionPlacement>, k: int)
    requires
        0 <= k <= pls.len(),
    ensures
        solution_state(d, pls, k) == solution_state(d, normalized_all(pls), k),
    decreases k,
{
    if k > 0 {
        lemma_state_normalized(d, pls, k - 1);
        let pl = pls[k - 1];
        assert(normalized_all(pls)[k - 1] == normalized(pl));
        assert((pl.rot % 4) % 4 == pl.rot % 4);
        assert(solution_piece(d, pl) == solution_piece(d, normalized(pl)));
    }
}

proof fn lemma_type_count_remove(s: Seq<SolutionPlacement>, j: int, t: int)
    requires
        0 <= j < s.len(),
    ensures
        type_count(s, t) == type_count(s.remove(j), t) + if s[j].piece == t {
            1int
        } else {
            0
        },
    decreases s.len(),
{
    if j == s.len() - 1 {
        assert(s.remove(j) =~= s.drop_last());
    } else {
        lemma_type_count_remove(s.drop_last(), j, t);
        assert(s.remove(j).drop_last() =~= s.drop_last().remove(j));
        assert(s.remove(j).last() == s.last());
    }
}

proof fn lemma_type_count_permuted(s1: Seq<SolutionPlacement>, s2: Seq<SolutionPlacement>, t: int)
    requires
        s1.to_multiset() == s2.to_multiset(),
    ensures
        type_count(s1, t) == type_count(s2, t),
    decreases s1.len(),
{
    broadcast use vstd::seq_lib::to_multiset_contains, vstd::seq_lib::to_multiset_len;

    if s1.len() == 0 {
        assert(s1.to_multiset().len() == s1.len());
        assert(s2.to_multiset().len() == s2.len());
    } else {
        let x = s1.last();
        assert(s1.to_multiset().contains(x)) by {
            assert(s1.contains(x));
        }
        let j = choose|j: int| 0 <= j < s2.len() && s2[j] == x;
        vstd::seq_lib::to_multiset_remove(s1, s1.len() - 1);
        vstd::seq_lib::to_multiset_remove(s2, j);
        assert(s1.remove(s1.len() - 1) =~= s1.drop_last());
        lemma_type_count_permuted(s1.drop_last(), s2.remove(j), t);
        lemma_type_count_remove(s2, j, t);
    }
}

proof fn lemma_paint_commutes(
    c: Map<(int, int), PieceColor>,
    a_pos: Coord,
    a_shape: Seq<Coord>,
    a_color: PieceColor,
    b_pos: Coord,
    b_shape: Seq<Coord>,
    b_color: PieceColor,
)
    requires
        forall|p: (int, int)| #[trigger] covers(a_pos, a_shape, p) ==> !covers(b_pos, b_shape, p),
    ensures
        with_cells(with_cells(c, a_pos, a_shape, a_color), b_pos, b_shape, b_color) == with_cells(
            with_cells(c, b_pos, b_shape, b_color),
            a_pos,
            a_shape,
            a_color,
        ),
{
    assert(with_cells(with_cells(c, a_pos, a_shape, a_color), b_pos, b_shape, b_color) =~= with_cells(
        with_cells(c, b_pos, b_shape, b_color),
        a_pos,
        a_shape,
        a_color,
    ));
}

/// Moving one placement to the end changes neither whether all placements
/// are accepted nor, when they are, the cells they occupy.
proof fn lemma_move_to_end(d: PuzzleView, s: Seq<SolutionPlacement>, j: int)
    requires
        0 <= j < s.len(),
    ensures
        all_ok(d, s) == all_ok(d, s.remove(j).push(s[j])),
        all_ok(d, s) ==> cells_of(d, s) == cells_of(d, s.remove(j).push(s[j])),
    decreases s.len(),
{
    let moved = s.remove(j).push(s[j]);
    if j == s.len() - 1 {
        assert(moved =~= s);
    } else {
        let t = s.drop_last();
        let y = s.last();
        let r = t.remove(j);
        let z = t[j];
        lemma_move_to_end(d, t, j);
        assert(s.remove(j) =~= r.push(y));
        assert(moved.drop_last() =~= r.push(y));
        assert(r.push(y).drop_last() =~= r);
        assert(t.remove(j).push(t[j]).drop_last() =~= r);
        assert(z == s[j]);
        // all_ok(t) == all_ok(r) && step_ok(r, z)
        // all_ok(s) == all_ok(t) && step_ok(t, y)
        // all_ok(moved) == all_ok(r) && step_ok(r, y) && step_ok(r.push(y), z)
        lemma_type_count_remove(t, j, y.piece as int);
        assert(r.push(y).drop_last() == r);
        assert(type_count(r.push(y), z.piece as int) == type_count(r, z.piece as int) + if y.piece == z.piece {
            1int
        } else {
            0
        });
        let left = step_ok(d, r, z) && step_ok(d, t, y);
        let right = step_ok(d, r, y) && step_ok(d, r.push(y), z);
        assert((forall|k: int| 0 <= k < t.len() ==> apart(d, #[trigger] t[k], y)) <==> ((forall|k: int|
            0 <= k < r.len() ==> apart(d, #[trigger] r[k], y)) && apart(d, z, y))) by {
            if forall|k: int| 0 <= k < r.len() ==> apart(d, #[trigger] r[k], y) {
                if apart(d, z, y) {
                    assert forall|k: int| 0 <= k < t.len() implies apart(d, #[trigger] t[k], y) by {
                        if k < j {
                            assert(t[k] == r[k]);
                        } else if k > j {
                            assert(t[k] == r[k - 1]);
                        }
                    }
                }
            }
            if forall|k: int| 0 <= k < t.len() ==> apart(d, #[trigger] t[k], y) {
                assert(apart(d, t[j], y));
                assert forall|k: int| 0 <= k < r.len() implies apart(d, #[trigger] r[k], y) by {
                    if k < j {
                        assert(r[k] == t[k]);
                    } else {
                        assert(r[k] == t[k + 1]);
                    }
                }
            }
        }
        assert((forall|k: int| 0 <= k < r.push(y).len() ==> apart(d, #[trigger] r.push(y)[k], z)) <==> ((forall|k: int|
            0 <= k < r.len() ==> apart(d, #[trigger] r[k], z)) && apart(d, y, z))) by {
            if forall|k: int| 0 <= k < r.len() ==> apart(d, #[trigger] r[k], z) {
                if apart(d, y, z) {
                    assert forall|k: int| 0 <= k < r.push(y).len() implies apart(d, #[trigger] r.push(y)[k], z) by {
                        if k < r.len() {
                            assert(r.push(y)[k] == r[k]);
                        }
                    }
                }
            }
            if forall|k: int| 0 <= k < r.push(y).len() ==> apart(d, #[trigger] r.push(y)[k], z) {
                assert(apart(d, r.push(y)[r.len() as int], z));
                assert forall|k: int| 0 <= k < r.len() implies apart(d, #[trigger] r[k], z) by {
                    assert(r.push(y)[k] == r[k]);
                }
            }
        }
        assert(apart(d, z, y) <==> apart(d, y, z)) by {
            if apart(d, z, y) {
                assert forall|p: (int, int)| #[trigger] covers(y.pos, shape_of(d, y), p) implies !covers(
                    z.pos,
                    shape_of(d, z),
                    p,
                ) by {
                    if covers(z.pos, shape_of(d, z), p) {
                        assert(!covers(y.pos, shape_of(d, y), p));
                    }
                }
            }
            if apart(d, y, z) {
                assert forall|p: (int, int)| #[trigger] covers(z.pos, shape_of(d, z), p) implies !covers(
                    y.pos,
                    shape_of(d, y),
                    p,
                ) by {
                    if covers(y.pos, shape_of(d, y), p) {
                        assert(!covers(z.pos, shape_of(d, z), p));
                    }
                }
            }
        }
        assert(left == right);
        assert(moved.last() == z);
        assert(t.remove(j).push(t[j]).last() == z);
        assert(all_ok(d, t.remove(j).push(t[j])) == (all_ok(d, r) && step_ok(d, r, z)));
        assert(all_ok(d, r.push(y)) == (all_ok(d, r) && step_ok(d, r, y)));
        assert(all_ok(d, moved) == (all_ok(d, r.push(y)) && step_ok(d, r.push(y), z)));
        assert(all_ok(d, s) == (all_ok(d, t) && step_ok(d, t, y)));
        if all_ok(d, s) {
            assert(cells_of(d, t.remove(j).push(t[j])) == with_cells(
                cells_of(d, r),
                z.pos,
                solution_piece(d, z).shape,
                solution_piece(d, z).color,
            ));
            assert(cells_of(d, r.push(y)) == with_cells(
                cells_of(d, r),
                y.pos,
                solution_piece(d, y).shape,
                solution_piece(d, y).color,
            ));
            let pz = solution_piece(d, z);
            let py = solution_piece(d, y);
            assert(apart(d, t[j], y));
            lemma_paint_commutes(cells_of(d, r), z.pos, pz.shape, pz.color, y.pos, py.shape, py.color);
        }
    }
}

/// Listing the same placements in another order changes neither whether
/// they are all accepted nor, when they are, the cells they occupy and the
/// pieces they put down.
proof fn lemma_permuted(d: PuzzleView, s1: Seq<SolutionPlacement>, s2: Seq<SolutionPlacement>)
    requires
        s1.to_multiset() == s2.to_multiset(),
    ensures
        all_ok(d, s1) == all_ok(d, s2),
        all_ok(d, s1) ==> cells_of(d, s1) == cells_of(d, s2) && pieces_of(d, s1).to_multiset() == pieces_of(
            d,
            s2,
        ).to_multiset(),
    decreases s1.len(),
{
    broadcast use vstd::seq_lib::to_multiset_contains, vstd::seq_lib::to_multiset_len;

    if s1.len() == 0 {
        assert(s1.to_multiset().len() == s1.len());
        assert(s2.to_multiset().len() == s2.len());
        assert(s1 =~= s2);
    } else {
        let x = s1.last();
        let t = s1.drop_last();
        assert(s1.to_multiset().contains(x)) by {
            assert(s1.contains(x));
        }
        let j = choose|j: int| 0 <= j < s2.len() && s2[j] == x;
        let r = s2.remove(j);
        vstd::seq_lib::to_multiset_remove(s1, s1.len() - 1);
        vstd::seq_lib::to_multiset_remove(s2, j);
        assert(s1.remove(s1.len() - 1) =~= t);
        lemma_permuted(d, t, r);
        lemma_move_to_end(d, s2, j);
        assert(r.push(x).drop_last() =~= r);
        assert(r.push(x).last() == x);
        lemma_type_count_permuted(t, r, x.piece as int);
        assert((forall|k: int| 0 <= k < t.len() ==> apart(d, #[trigger] t[k], x)) <==> (forall|k: int|
            0 <= k < r.len() ==> apart(d, #[trigger] r[k], x))) by {
            if forall|k: int| 0 <= k < t.len() ==> apart(d, #[trigger] t[k], x) {
                assert forall|k: int| 0 <= k < r.len() implies apart(d, #[trigger] r[k], x) by {
                    assert(r.contains(r[k]));
                    assert(r.to_multiset().contains(r[k]));
                    let k2 = choose|k2: int| 0 <= k2 < t.len() && t[k2] == r[k];
                    assert(apart(d, t[k2], x));
                }
            }
            if forall|k: int| 0 <= k < r.len() ==> apart(d, #[trigger] r[k], x) {
                assert forall|k: int| 0 <= k < t.len() implies apart(d, #[trigger] t[k], x) by {
                    assert(t.contains(t[k]));
                    assert(t.to_multiset().contains(t[k]));
                    let k2 = choose|k2: int| 0 <= k2 < r.len() && r[k2] == t[k];
                    assert(apart(d, r[k2], x));
                }
            }
        }
        assert(step_ok(d, t, x) == step_ok(d, r, x));
        assert(all_ok(d, r.push(x)) == (all_ok(d, r) && step_ok(d, r, x)));
        if all_ok(d, s1) {
            let ps2 = pieces_of(d, s2);
            let px = solution_piece(d, x);
            assert(pieces_of(d, s1) =~= pieces_of(d, t).push(px));
            assert(ps2.remove(j) =~= pieces_of(d, r));
            vstd::seq_lib::to_multiset_remove(ps2, j);
            vstd::seq_lib::to_multiset_build(pieces_of(d, t), px);
            assert(ps2.contains(px)) by {
                assert(ps2[j] == px);
            }
            assert(ps2.to_multiset().contains(px));
            assert(ps2.to_multiset().remove(px).insert(px) =~= ps2.to_multiset()) by {
                broadcast use vstd::multiset::group_multiset_axioms;
            }
        }
    }
}

proof fn lemma_all_ok_apart(d: PuzzleView, s: Seq<SolutionPlacement>)
    requires
        all_ok(d, s),
    ensures
        forall|i: int, j: int| 0 <= i < j < s.len() ==> apart(d, #[trigger] s[i], #[trigger] s[j]),
    decreases s.len(),
{
    if s.len() > 0 {
        let t = s.drop_last();
        lemma_all_ok_apart(d, t);
        assert forall|i: int, j: int| 0 <= i < j < s.len() implies apart(d, #[trigger] s[i], #[trigger] s[j]) by {
            assert(s[i] == t[i]);
            if j < s.len() - 1 {
                assert(s[j] == t[j]);
            } else {
                assert(apart(d, t[i], s.last()));
            }
        }
    }
}

proof fn lemma_all_ok_disjoint(d: PuzzleView, s: Seq<SolutionPlacement>)
    requires
        all_ok(d, s),
    ensures
        placed_disjoint(pieces_of(d, s)),
{
    lemma_all_ok_apart(d, s);
    let ps = pieces_of(d, s);
    assert forall|i: int, j: int, p: (int, int)|
        0 <= i < ps.len() && 0 <= j < ps.len() && i != j && #[trigger] piece_covers(ps[i], p) implies !#[trigger] piece_covers(
        ps[j],
        p,
    ) by {
        assert(ps[i] == solution_piece(d, s[i]));
        assert(ps[j] == solution_piece(d, s[j]));
        assert(piece_covers(ps[i], p) == covers(s[i].pos, shape_of(d, s[i]), p));
        assert(piece_covers(ps[j], p) == covers(s[j].pos, shape_of(d, s[j]), p));
        if i < j {
            assert(apart(d, s[i], s[j]));
            assert(covers(s[i].pos, shape_of(d, s[i]), p));
        } else {
            assert(apart(d, s[j], s[i]));
            if covers(s[j].pos, shape_of(d, s[j]), p) {
                assert(!covers(s[i].pos, shape_of(d, s[i]), p));
            }
        }
    }
}

/// Whether a solution is valid does not depend on the order of its
/// placements, on full turns added to a placement, or on its timestamp: two
/// solutions with the same score whose placements are the same once each
/// turn count is taken modulo four are both valid or both not.
pub proof fn lemma_validity_ignores_order(d: PuzzleView, s1: Solution, s2: Solution)
    requires
        normalized_all(s1.placements@).to_multiset() == normalized_all(s2.placements@).to_multiset(),
        s1.score == s2.score,
    ensures
        solution_valid(d, s1.placements@, s1.score) == solution_valid(d, s2.placements@, s2.score),
{
    broadcast use vstd::seq_lib::to_multiset_len;

    let p1 = s1.placements@;
    let p2 = s2.placements@;
    let n1 = normalized_all(p1);
    let n2 = normalized_all(p2);
    assert(n1.to_multiset().len() == n1.len());
    assert(n2.to_multiset().len() == n2.len());
    assert(p1.len() == p2.len());
    lemma_state_normalized(d, p1, p1.len() as int);
    lemma_state_normalized(d, p2, p2.len() as int);
    lemma_state_of_prefix(d, n1, n1.len() as int);
    lemma_state_of_prefix(d, n2, n2.len() as int);
    assert(n1.take(n1.len() as int) =~= n1);
    assert(n2.take(n2.len() as int) =~= n2);
    lemma_permuted(d, n1, n2);
    if all_ok(d, n1) {
        let st1 = solution_state(d, n1, n1.len() as int)->Some_0;
        let st2 = solution_state(d, n2, n2.len() as int)->Some_0;
        let ctx = solution_ctx(d, st1);
        lemma_all_ok_disjoint(d, n1);
        let u = PieceView {
            type_id: 0,
            shape: Seq::empty(),
            original_shape: Seq::empty(),
            color: PieceColor::White,
            points: 0,
            effects: Seq::empty(),
            original_effects: Seq::empty(),
            placed_at: None,
            board_side: BoardSide::Single,
        };
        lemma_score_ignores_order(ctx, st2.pieces, u);
        assert(solution_ctx(d, st2) == with_pieces(ctx, st2.pieces));
    }
}

} // verus!


