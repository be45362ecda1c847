//! The backtracking solver: a pure function over a board snapshot that fills
//! all empty cells or reports failure, with deterministic ordering (row-major
//! cell scan, ascending candidates, first success accepted).

use vstd::prelude::*;

use crate::grid::box_cell;
use crate::grid::col_cell;
use crate::grid::is_legal_move;
use crate::grid::is_peer;
use crate::grid::legal_at;
use crate::grid::lemma_peer_symmetric;
use crate::grid::lemma_unit_cells_peers;
use crate::grid::row_cell;

verus! {

/// Every cell of `b` is legal against its peers: no live conflict.
pub open spec fn board_ok(b: Seq<u8>) -> bool {
    forall|k: int| 0 <= k < 81 ==> #[trigger] legal_at(b, k, b[k])
}

/// Every cell of `b` holds a value in `0..=9`.
pub open spec fn cells_in_range(b: Seq<u8>) -> bool {
    forall|k: int| 0 <= k < 81 ==> #[trigger] b[k] <= 9
}

/// A completed, conflict-free grid: 81 cells, each in `1..=9`, none
/// repeating in its row, column or box.
pub open spec fn solved(b: Seq<u8>) -> bool {
    &&& b.len() == 81
    &&& forall|k: int| 0 <= k < 81 ==> 1 <= #[trigger] b[k] <= 9
    &&& board_ok(b)
}

/// Every cell filled in `b` holds the same value in `c`.
pub open spec fn keeps_filled(b: Seq<u8>, c: Seq<u8>) -> bool {
    forall|k: int| 0 <= k < 81 && #[trigger] b[k] != 0 ==> c[k] == b[k]
}

/// The search from cell `i` on: the first empty cell at or after `i` is the
/// branch point. This spec-level account makes the solver's outcome a
/// function of the input board alone, which is the solver's determinism.
pub open spec fn search(b: Seq<u8>, i: int) -> (Seq<u8>, bool)
    decreases 81 - i, 10int,
{
    if i < 0 || 81 <= i {
        (b, true)
    } else if b[i] != 0 {
        search(b, i + 1)
    } else {
        search_candidates(b, i, 1)
    }
}

/// Candidates `g..=9` for the empty cell `i`, tried in ascending order; the
/// first whose sub-search succeeds wins, and a failed placement is undone
/// before the next candidate.
pub open spec fn search_candidates(b: Seq<u8>, i: int, g: int) -> (Seq<u8>, bool)
    decreases 81 - i, 10 - g,
{
    if g < 1 || 9 < g || i < 0 || 81 <= i {
        (b, false)
    } else if legal_at(b, i, g as u8) {
        let (c, ok) = search(b.update(i, g as u8), i + 1);
        if ok {
            (c, true)
        } else {
            search_candidates(b, i, g + 1)
        }
    } else {
        search_candidates(b, i, g + 1)
    }
}

/// A failed search leaves the board exactly as it was: every placement made
/// on a dead branch has been undone by the unwind.
pub proof fn lemma_search_failure(b: Seq<u8>, i: int)
    ensures
        !search(b, i).1 ==> search(b, i).0 == b,
    decreases 81 - i, 10int,
{
    if i < 0 || 81 <= i {
    } else if b[i] != 0 {
        lemma_search_failure(b, i + 1);
    } else {
        lemma_candidates_failure(b, i, 1);
    }
}

proof fn lemma_candidates_failure(b: Seq<u8>, i: int, g: int)
    ensures
        !search_candidates(b, i, g).1 ==> search_candidates(b, i, g).0 == b,
    decreases 81 - i, 10 - g,
{
    if g < 1 || 9 < g || i < 0 || 81 <= i {
    } else {
        lemma_candidates_failure(b, i, g + 1);
    }
}

/// Placing a legal nonzero value on an empty cell keeps every cell of the
/// board legal: the new cell by choice of value, and each old cell because a
/// conflict with the new value would already have made the placement illegal.
proof fn lemma_place_keeps_ok(b: Seq<u8>, i: int, v: u8)
    requires
        b.len() == 81,
        0 <= i < 81,
        b[i] == 0,
        v != 0,
        legal_at(b, i, v),
        board_ok(b),
    ensures
        board_ok(b.update(i, v)),
{
    let b2 = b.update(i, v);
    assert forall|t: int| 0 <= t < 81 implies #[trigger] legal_at(b2, t, b2[t]) by {
        if t == i {
            assert forall|j: int| #[trigger] is_peer(i, j) implies b2[j] != v by {
                assert(b[j] != v);
            }
        } else {
            let w = b[t];
            assert(legal_at(b, t, w));
            if w != 0 {
                assert forall|j: int| #[trigger] is_peer(t, j) implies b2[j] != w by {
                    if j == i {
                        lemma_peer_symmetric(t, i);
                        assert(is_peer(i, t));
                        assert(b[t] != v);
                    } else {
                        assert(b[j] != w);
                    }
                }
            }
        }
    }
}

/// Solver soundness: on a conflict-free in-range board whose first `i` cells
/// are filled, a successful search yields a fully solved grid that keeps
/// every originally filled cell.
pub proof fn lemma_search_sound(b: Seq<u8>, i: int)
    requires
        b.len() == 81,
        0 <= i <= 81,
        board_ok(b),
        cells_in_range(b),
        forall|k: int| 0 <= k < i ==> #[trigger] b[k] != 0,
    ensures
        search(b, i).1 ==> solved(search(b, i).0) && keeps_filled(b, search(b, i).0),
    decreases 81 - i, 10int,
{
    if 81 <= i {
        assert(solved(b));
    } else if b[i] != 0 {
        lemma_search_sound(b, i + 1);
    } else {
        lemma_candidates_sound(b, i, 1);
    }
}

proof fn lemma_candidates_sound(b: Seq<u8>, i: int, g: int)
    requires
        b.len() == 81,
        0 <= i < 81,
        1 <= g <= 10,
        board_ok(b),
        cells_in_range(b),
        forall|k: int| 0 <= k < i ==> #[trigger] b[k] != 0,
        b[i] == 0,
    ensures
        search_candidates(b, i, g).1 ==> solved(search_candidates(b, i, g).0) && keeps_filled(
            b,
            search_candidates(b, i, g).0,
        ),
    decreases 81 - i, 10 - g,
{
    if 9 < g {
    } else {
        if legal_at(b, i, g as u8) {
            let b2 = b.update(i, g as u8);
            lemma_place_keeps_ok(b, i, g as u8);
            assert(cells_in_range(b2)) by {
                assert forall|k: int| 0 <= k < 81 implies #[trigger] b2[k] <= 9 by {
                    if k != i {
                        assert(b[k] <= 9);
                    }
                }
            }
            lemma_search_sound(b2, i + 1);
            let (c, ok) = search(b2, i + 1);
            if ok {
                assert(keeps_filled(b, c)) by {
                    assert forall|k: int| 0 <= k < 81 && #[trigger] b[k] != 0 implies c[k] == b[k] by {
                        assert(b2[k] == b[k]);
                    }
                }
            }
        }
        lemma_candidates_sound(b, i, g + 1);
    }
}

/// Value `v` stands somewhere in row `r` of board `b`.
pub open spec fn appears_in_row(b: Seq<u8>, r: int, v: u8) -> bool {
    exists|k: int| 0 <= k < 9 && b[#[trigger] row_cell(r, k)] == v
}

/// Value `v` stands somewhere in column `c` of board `b`.
pub open spec fn appears_in_col(b: Seq<u8>, c: int, v: u8) -> bool {
    exists|k: int| 0 <= k < 9 && b[#[trigger] col_cell(c, k)] == v
}

/// Value `v` stands somewhere in box `x` of board `b`.
pub open spec fn appears_in_box(b: Seq<u8>, x: int, v: u8) -> bool {
    exists|k: int| 0 <= k < 9 && b[#[trigger] box_cell(x, k)] == v
}

/// Nine pairwise distinct values drawn from `1..=9` cover all of `1..=9`.
proof fn lemma_pigeonhole(s: Seq<int>)
    requires
        s.len() == 9,
        forall|k: int| 0 <= k < 9 ==> 1 <= #[trigger] s[k] <= 9,
        forall|k1: int, k2: int|
            0 <= k1 < 9 && 0 <= k2 < 9 && k1 != k2 ==> s[k1] != s[k2],
    ensures
        forall|v: int| 1 <= v <= 9 ==> s.contains(v),
{
    broadcast use vstd::seq_lib::seq_to_set_is_finite;

    assert(s.no_duplicates());
    s.unique_seq_to_set();
    vstd::set_lib::lemma_int_range(1, 10);
    assert(s.to_set().subset_of(vstd::set_lib::set_int_range(1, 10))) by {
        assert forall|x: int| s.to_set().contains(x) implies vstd::set_lib::set_int_range(
            1,
            10,
        ).contains(x) by {
            let k = choose|k: int| 0 <= k < s.len() && s[k] == x;
            assert(1 <= s[k] <= 9);
        }
    }
    vstd::set_lib::lemma_subset_equality(s.to_set(), vstd::set_lib::set_int_range(1, 10));
    assert forall|v: int| 1 <= v <= 9 implies s.contains(v) by {
        assert(vstd::set_lib::set_int_range(1, 10).contains(v));
        assert(s.to_set().contains(v));
    }
}

/// In a solved board, value `v` appears among the nine cells `f` enumerates,
/// provided those cells are pairwise peers: the nine values are then
/// pairwise distinct, all in `1..=9`, so by pigeonhole they cover `1..=9`.
proof fn lemma_unit_complete(b: Seq<u8>, f: spec_fn(int) -> int, v: u8)
    requires
        solved(b),
        1 <= v <= 9,
        forall|k: int| 0 <= k < 9 ==> 0 <= #[trigger] f(k) < 81,
        forall|k1: int, k2: int|
            0 <= k1 < 9 && 0 <= k2 < 9 && k1 != k2 ==> is_peer(#[trigger] f(k1), #[trigger] f(k2)),
    ensures
        exists|k: int| 0 <= k < 9 && b[#[trigger] f(k)] == v,
{
    let s = Seq::new(9, |k: int| b[f(k)] as int);
    assert forall|k1: int, k2: int|
        0 <= k1 < 9 && 0 <= k2 < 9 && k1 != k2 implies s[k1] != s[k2] by {
        assert(is_peer(f(k1), f(k2)));
        let w = b[f(k1)];
        assert(legal_at(b, f(k1), w));
        assert(b[f(k2)] != w);
    }
    lemma_pigeonhole(s);
    assert(s.contains(v as int));
    let k = choose|k: int| 0 <= k < s.len() && s[k] == v as int;
    assert(b[f(k)] == v);
}

/// A solved grid holds each of `1..=9` exactly once in every row, every
/// column and every 3x3 box: at least once by pigeonhole over nine pairwise
/// distinct values, and at most once because two cells of one unit are peers
/// and a solved grid has no conflicting peers.
pub proof fn lemma_solved_units(b: Seq<u8>)
    requires
        solved(b),
    ensures
        forall|u: int, v: u8| 0 <= u < 9 && 1 <= v <= 9 ==> #[trigger] appears_in_row(b, u, v),
        forall|u: int, v: u8| 0 <= u < 9 && 1 <= v <= 9 ==> #[trigger] appears_in_col(b, u, v),
        forall|u: int, v: u8| 0 <= u < 9 && 1 <= v <= 9 ==> #[trigger] appears_in_box(b, u, v),
        forall|u: int, k1: int, k2: int|
            #![trigger row_cell(u, k1), row_cell(u, k2)]
            0 <= u < 9 && 0 <= k1 < 9 && 0 <= k2 < 9 && k1 != k2 ==> b[row_cell(u, k1)] != b[
                row_cell(u, k2)
            ],
        forall|u: int, k1: int, k2: int|
            #![trigger col_cell(u, k1), col_cell(u, k2)]
            0 <= u < 9 && 0 <= k1 < 9 && 0 <= k2 < 9 && k1 != k2 ==> b[col_cell(u, k1)] != b[
                col_cell(u, k2)
            ],
        forall|u: int, k1: int, k2: int|
            #![trigger box_cell(u, k1), box_cell(u, k2)]
            0 <= u < 9 && 0 <= k1 < 9 && 0 <= k2 < 9 && k1 != k2 ==> b[box_cell(u, k1)] != b[
                box_cell(u, k2)
            ],
{
    assert forall|u: int, k1: int, k2: int|
        0 <= u < 9 && 0 <= k1 < 9 && 0 <= k2 < 9 && k1 != k2 implies b[
        #[trigger] row_cell(u, k1)] != b[#[trigger] row_cell(u, k2)] by {
        lemma_unit_cells_peers(u, k1, k2);
        assert(legal_at(b, row_cell(u, k1), b[row_cell(u, k1)]));
    }
    assert forall|u: int, k1: int, k2: int|
        0 <= u < 9 && 0 <= k1 < 9 && 0 <= k2 < 9 && k1 != k2 implies b[
        #[trigger] col_cell(u, k1)] != b[#[trigger] col_cell(u, k2)] by {
        lemma_unit_cells_peers(u, k1, k2);
        assert(legal_at(b, col_cell(u, k1), b[col_cell(u, k1)]));
    }
    assert forall|u: int, k1: int, k2: int|
        0 <= u < 9 && 0 <= k1 < 9 && 0 <= k2 < 9 && k1 != k2 implies b[
        #[trigger] box_cell(u, k1)] != b[#[trigger] box_cell(u, k2)] by {
        lemma_unit_cells_peers(u, k1, k2);
        assert(legal_at(b, box_cell(u, k1), b[box_cell(u, k1)]));
    }
    assert forall|u: int, v: u8| 0 <= u < 9 && 1 <= v <= 9 implies #[trigger] appears_in_row(
        b,
        u,
        v,
    ) by {
        let ghost f = |k: int| row_cell(u, k);
        assert forall|k1: int, k2: int|
            0 <= k1 < 9 && 0 <= k2 < 9 && k1 != k2 implies is_peer(
            #[trigger] f(k1),
            #[trigger] f(k2),
        ) by {
            lemma_unit_cells_peers(u, k1, k2);
        }
        assert forall|k: int| 0 <= k < 9 implies 0 <= #[trigger] f(k) < 81 by {
            lemma_unit_cells_peers(u, k, (k + 1) % 9);
        }
        lemma_unit_complete(b, f, v);
        let k = choose|k: int| 0 <= k < 9 && b[#[trigger] f(k)] == v;
        assert(b[row_cell(u, k)] == v);
    }
    assert forall|u: int, v: u8| 0 <= u < 9 && 1 <= v <= 9 implies #[trigger] appears_in_col(
        b,
        u,
        v,
    ) by {
        let ghost f = |k: int| col_cell(u, k);
        assert forall|k1: int, k2: int|
            0 <= k1 < 9 && 0 <= k2 < 9 && k1 != k2 implies is_peer(
            #[trigger] f(k1),
            #[trigger] f(k2),
        ) by {
            lemma_unit_cells_peers(u, k1, k2);
        }
        assert forall|k: int| 0 <= k < 9 implies 0 <= #[trigger] f(k) < 81 by {
            lemma_unit_cells_peers(u, k, (k + 1) % 9);
        }
        lemma_unit_complete(b, f, v);
        let k = choose|k: int| 0 <= k < 9 && b[#[trigger] f(k)] == v;
        assert(b[col_cell(u, k)] == v);
    }
    assert forall|u: int, v: u8| 0 <= u < 9 && 1 <= v <= 9 implies #[trigger] appears_in_box(
        b,
        u,
        v,
    ) by {
        let ghost f = |k: int| box_cell(u, k);
        assert forall|k1: int, k2: int|
            0 <= k1 < 9 && 0 <= k2 < 9 && k1 != k2 implies is_peer(
            #[trigger] f(k1),
            #[trigger] f(k2),
        ) by {
            lemma_unit_cells_peers(u, k1, k2);
        }
        assert forall|k: int| 0 <= k < 9 implies 0 <= #[trigger] f(k) < 81 by {
            lemma_unit_cells_peers(u, k, (k + 1) % 9);
        }
        lemma_unit_complete(b, f, v);
        let k = choose|k: int| 0 <= k < 9 && b[#[trigger] f(k)] == v;
        assert(b[box_cell(u, k)] == v);
    }
}

/// Fills every empty cell of the 81-cell board in place or reports failure:
/// plain deterministic backtracking, scanning cells in row-major order and
/// candidates ascending, accepting the first success. The outcome equals
/// `search` on the input, so identical input boards always yield identical
/// output boards and the same flag. On failure the board is left exactly as
/// it was given; on success from a conflict-free in-range board, the result
/// is a solved grid that keeps every originally filled cell.
pub fn solve(board: &mut Vec<u8>) -> (r: bool)
    requires
        old(board)@.len() == 81,
    ensures
        final(board)@.len() == 81,
        (final(board)@, r) == search(old(board)@, 0),
        !r ==> final(board)@ == old(board)@,
        r && board_ok(old(board)@) && cells_in_range(old(board)@) ==> solved(final(board)@)
            && keeps_filled(old(board)@, final(board)@),
{
    let r = solve_from(board, 0);
    proof {
        if !r {
            lemma_search_failure(old(board)@, 0);
        } else if board_ok(old(board)@) && cells_in_range(old(board)@) {
            lemma_search_sound(old(board)@, 0);
        }
    }
    r
}

fn solve_from(board: &mut Vec<u8>, i: usize) -> (r: bool)
    requires
        old(board)@.len() == 81,
        i <= 81,
    ensures
        final(board)@.len() == 81,
        (final(board)@, r) == search(old(board)@, i as int),
    decreases 81 - i,
{
    if i == 81 {
        return true;
    }
    let v = board[i];
    if v != 0 {
        return solve_from(board, i + 1);
    }
    let ghost b0 = board@;
    let mut guess: u8 = 1;
    while guess <= 9
        invariant
            board@ == b0,
            b0 == old(board)@,
            b0.len() == 81,
            i < 81,
            b0[i as int] == 0,
            1 <= guess <= 10,
            search_candidates(b0, i as int, 1) == search_candidates(b0, i as int, guess as int),
        decreases 10 - guess,
    {
        if is_legal_move(board, i, guess) {
            board.set(i, guess);
            let ghost b2 = board@;
            if solve_from(board, i + 1) {
                proof {
                    assert(search_candidates(b0, i as int, guess as int) == (board@, true));
                    assert(search(b0, i as int) == (board@, true));
                }
                return true;
            }
            proof {
                lemma_search_failure(b2, i as int + 1);
                assert(board@ == b2);
            }
            board.set(i, 0);
            proof {
                assert(board@ =~= b0);
                assert(search_candidates(b0, i as int, guess as int) == search_candidates(
                    b0,
                    i as int,
                    guess as int + 1,
                ));
            }
        } else {
            proof {
                assert(search_candidates(b0, i as int, guess as int) == search_candidates(
                    b0,
                    i as int,
                    guess as int + 1,
                ));
            }
        }
        guess += 1;
    }
    proof {
        assert(search_candidates(b0, i as int, 10) == (b0, false));
        assert(search(b0, i as int) == (b0, false));
    }
    false
}

} // verus!
