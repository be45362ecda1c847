//! The geometry of the 9x9 grid and the single source of truth for cell
//! legality: a cell value is legal iff no peer (same row, column or 3x3 box)
//! holds the same nonzero value.

use vstd::prelude::*;

verus! {

/// Row of cell `i`, for `i` in `0..81`.
pub open spec fn row_of(i: int) -> int {
    i / 9
}

/// Column of cell `i`, for `i` in `0..81`.
pub open spec fn col_of(i: int) -> int {
    i % 9
}

/// 3x3 box of cell `i`, numbered row-major in `0..9`.
pub open spec fn box_of(i: int) -> int {
    (i / 9 / 3) * 3 + (i % 9) / 3
}

/// Cells `i` and `j` are peers: distinct cells sharing a row, column or box.
pub open spec fn is_peer(i: int, j: int) -> bool {
    &&& 0 <= i < 81
    &&& 0 <= j < 81
    &&& i != j
    &&& (row_of(i) == row_of(j) || col_of(i) == col_of(j) || box_of(i) == box_of(j))
}

/// Value `v` may stand at cell `i` of board `b`: an empty cell is always
/// legal, and a nonzero value is legal iff no peer holds the same value.
pub open spec fn legal_at(b: Seq<u8>, i: int, v: u8) -> bool {
    v == 0 || forall|j: int| #[trigger] is_peer(i, j) ==> b[j] != v
}

/// The `o`-th cell of `i`'s row, for `o` in `0..9`.
pub open spec fn row_slot(i: int, o: int) -> int {
    row_of(i) * 9 + o
}

/// The `o`-th cell of `i`'s column, for `o` in `0..9`.
pub open spec fn col_slot(i: int, o: int) -> int {
    o * 9 + col_of(i)
}

/// The `o`-th cell of `i`'s box, for `o` in `0..9`.
pub open spec fn box_slot(i: int, o: int) -> int {
    ((i / 9 / 3) * 3 + o / 3) * 9 + ((i % 9 / 3) * 3 + o % 3)
}

/// The `k`-th cell of row `r`, for `k` in `0..9`.
pub open spec fn row_cell(r: int, k: int) -> int {
    r * 9 + k
}

/// The `k`-th cell of column `c`, for `k` in `0..9`.
pub open spec fn col_cell(c: int, k: int) -> int {
    k * 9 + c
}

/// The `k`-th cell of box `x`, scanned row-major inside the box.
pub open spec fn box_cell(x: int, k: int) -> int {
    ((x / 3) * 3 + k / 3) * 9 + (x % 3) * 3 + k % 3
}

/// Two distinct slots of one row, one column or one box are valid cells and
/// peers of each other.
pub proof fn lemma_unit_cells_peers(u: int, k1: int, k2: int)
    requires
        0 <= u < 9,
        0 <= k1 < 9,
        0 <= k2 < 9,
        k1 != k2,
    ensures
        0 <= row_cell(u, k1) < 81,
        0 <= col_cell(u, k1) < 81,
        0 <= box_cell(u, k1) < 81,
        is_peer(row_cell(u, k1), row_cell(u, k2)),
        is_peer(col_cell(u, k1), col_cell(u, k2)),
        is_peer(box_cell(u, k1), box_cell(u, k2)),
{
    vstd::arithmetic::div_mod::lemma_fundamental_div_mod_converse(row_cell(u, k1), 9, u, k1);
    vstd::arithmetic::div_mod::lemma_fundamental_div_mod_converse(row_cell(u, k2), 9, u, k2);
    vstd::arithmetic::div_mod::lemma_fundamental_div_mod_converse(col_cell(u, k1), 9, k1, u);
    vstd::arithmetic::div_mod::lemma_fundamental_div_mod_converse(col_cell(u, k2), 9, k2, u);
    lemma_box_cell_box(u, k1);
    lemma_box_cell_box(u, k2);
    assert(box_cell(u, k1) != box_cell(u, k2)) by {
        vstd::arithmetic::div_mod::lemma_fundamental_div_mod(k1, 3);
        vstd::arithmetic::div_mod::lemma_fundamental_div_mod(k2, 3);
    }
}

/// The `k`-th slot of box `x` is a valid cell lying in box `x`.
proof fn lemma_box_cell_box(x: int, k: int)
    requires
        0 <= x < 9,
        0 <= k < 9,
    ensures
        0 <= box_cell(x, k) < 81,
        box_of(box_cell(x, k)) == x,
        row_of(box_cell(x, k)) == (x / 3) * 3 + k / 3,
        col_of(box_cell(x, k)) == (x % 3) * 3 + k % 3,
{
    let br = (x / 3) * 3 + k / 3;
    let bc = (x % 3) * 3 + k % 3;
    assert(0 <= br < 9);
    assert(0 <= bc < 9);
    vstd::arithmetic::div_mod::lemma_fundamental_div_mod_converse(br * 9 + bc, 9, br, bc);
    vstd::arithmetic::div_mod::lemma_fundamental_div_mod_converse(br, 3, x / 3, k / 3);
    vstd::arithmetic::div_mod::lemma_fundamental_div_mod_converse(bc, 3, x % 3, k % 3);
    vstd::arithmetic::div_mod::lemma_fundamental_div_mod(x, 3);
}

/// Peerhood is symmetric.
pub proof fn lemma_peer_symmetric(i: int, j: int)
    ensures
        is_peer(i, j) == is_peer(j, i),
{
}

/// Each slot of `i`'s row, column or box is a valid cell, and a peer of `i`
/// unless it is `i` itself.
pub proof fn lemma_slots_valid(i: int, o: int)
    requires
        0 <= i < 81,
        0 <= o < 9,
    ensures
        0 <= row_slot(i, o) < 81,
        0 <= col_slot(i, o) < 81,
        0 <= box_slot(i, o) < 81,
        row_slot(i, o) != i ==> is_peer(i, row_slot(i, o)),
        col_slot(i, o) != i ==> is_peer(i, col_slot(i, o)),
        box_slot(i, o) != i ==> is_peer(i, box_slot(i, o)),
{
    vstd::arithmetic::div_mod::lemma_fundamental_div_mod(i, 9);
    let r = row_of(i);
    let c = col_of(i);
    assert(0 <= r < 9);
    assert(0 <= c < 9);
    vstd::arithmetic::div_mod::lemma_fundamental_div_mod_converse(r * 9 + o, 9, r, o);
    vstd::arithmetic::div_mod::lemma_fundamental_div_mod_converse(o * 9 + c, 9, o, c);
    let br = (i / 9 / 3) * 3 + o / 3;
    let bc = (i % 9 / 3) * 3 + o % 3;
    assert(0 <= br < 9);
    assert(0 <= bc < 9);
    vstd::arithmetic::div_mod::lemma_fundamental_div_mod_converse(br * 9 + bc, 9, br, bc);
    assert(box_of(box_slot(i, o)) == box_of(i)) by {
        vstd::arithmetic::div_mod::lemma_fundamental_div_mod_converse(br, 3, i / 9 / 3, o / 3);
        vstd::arithmetic::div_mod::lemma_fundamental_div_mod_converse(bc, 3, i % 9 / 3, o % 3);
    }
}

/// Every peer of `i` appears among the 27 slots that `i`'s row, column and
/// box enumerate.
pub proof fn lemma_peers_covered(i: int, j: int)
    requires
        is_peer(i, j),
    ensures
        exists|o: int|
            0 <= o < 9 && (j == row_slot(i, o) || j == col_slot(i, o) || j == box_slot(i, o)),
{
    vstd::arithmetic::div_mod::lemma_fundamental_div_mod(j, 9);
    if row_of(i) == row_of(j) {
        let o = col_of(j);
        assert(0 <= o < 9 && j == row_slot(i, o));
    } else if col_of(i) == col_of(j) {
        let o = row_of(j);
        assert(0 <= o < 9 && j == col_slot(i, o));
    } else {
        let rj = row_of(j);
        let cj = col_of(j);
        let o = (rj % 3) * 3 + cj % 3;
        vstd::arithmetic::div_mod::lemma_fundamental_div_mod(rj, 3);
        vstd::arithmetic::div_mod::lemma_fundamental_div_mod(cj, 3);
        assert(0 <= o < 9);
        vstd::arithmetic::div_mod::lemma_fundamental_div_mod_converse(o, 3, rj % 3, cj % 3);
        assert(o / 3 == rj % 3 && o % 3 == cj % 3);
        assert(i / 9 / 3 == rj / 3 && i % 9 / 3 == cj / 3) by {
            assert(box_of(i) == box_of(j));
            assert(0 <= i % 9 / 3 < 3 && 0 <= cj / 3 < 3);
        }
        assert(box_slot(i, o) == ((rj / 3) * 3 + rj % 3) * 9 + ((cj / 3) * 3 + cj % 3));
        assert(j == box_slot(i, o));
    }
}

/// Changing a cell that is neither `t` nor a peer of `t` cannot change
/// whether `t`'s value is legal.
pub proof fn lemma_legal_at_update_other(b: Seq<u8>, i: int, v: u8, t: int)
    requires
        b.len() == 81,
        0 <= i < 81,
        0 <= t < 81,
        t != i,
        !is_peer(t, i),
    ensures
        legal_at(b.update(i, v), t, b[t]) == legal_at(b, t, b[t]),
{
    let b2 = b.update(i, v);
    let w = b[t];
    if w != 0 {
        if legal_at(b, t, w) {
            assert forall|j: int| #[trigger] is_peer(t, j) implies b2[j] != w by {
                assert(j != i);
            }
        }
        if legal_at(b2, t, w) {
            assert forall|j: int| #[trigger] is_peer(t, j) implies b[j] != w by {
                assert(j != i);
            }
        }
    }
}

/// Decides peerhood of two cells.
pub fn are_peers(i: usize, k: usize) -> (r: bool)
    requires
        i < 81,
        k < 81,
    ensures
        r == is_peer(i as int, k as int),
{
    i != k && (i / 9 == k / 9 || i % 9 == k % 9 || (i / 9 / 3) * 3 + (i % 9) / 3 == (k / 9 / 3)
        * 3 + (k % 9) / 3)
}

/// The stateless constraint checker: may cell `index` of `board` legally hold
/// `value`, given the rest of the board? True iff no peer in the same row,
/// column or box holds `value`; an empty value is always legal.
pub fn is_legal_move(board: &Vec<u8>, index: usize, value: u8) -> (r: bool)
    requires
        board@.len() == 81,
        index < 81,
    ensures
        r == legal_at(board@, index as int, value),
{
    if value == 0 {
        return true;
    }
    let row = index / 9;
    let col = index % 9;
    let mut other: usize = 0;
    while other < 9
        invariant
            board@.len() == 81,
            index < 81,
            value != 0,
            row == index / 9,
            col == index % 9,
            other <= 9,
            forall|o: int| 0 <= o < other ==> (#[trigger] row_slot(index as int, o) != index
                ==> board@[row_slot(index as int, o)] != value),
            forall|o: int| 0 <= o < other ==> (#[trigger] col_slot(index as int, o) != index
                ==> board@[col_slot(index as int, o)] != value),
            forall|o: int| 0 <= o < other ==> (#[trigger] box_slot(index as int, o) != index
                ==> board@[box_slot(index as int, o)] != value),
        decreases 9 - other,
    {
        proof {
            lemma_slots_valid(index as int, other as int);
        }
        let row_index = row * 9 + other;
        let col_index = other * 9 + col;
        let box_index = ((row / 3) * 3 + other / 3) * 9 + ((col / 3) * 3 + other % 3);
        assert(row_index == row_slot(index as int, other as int));
        assert(col_index == col_slot(index as int, other as int));
        assert(box_index == box_slot(index as int, other as int));
        if (row_index != index && board[row_index] == value)
            || (col_index != index && board[col_index] == value)
            || (box_index != index && board[box_index] == value)
        {
            return false;
        }
        other += 1;
    }
    proof {
        assert forall|j: int| #[trigger] is_peer(index as int, j) implies board@[j] != value by {
            lemma_peers_covered(index as int, j);
            let o = choose|o: int|
                0 <= o < 9 && (j == row_slot(index as int, o) || j == col_slot(index as int, o)
                    || j == box_slot(index as int, o));
            assert(j != index);
        }
    }
    true
}

} // verus!
