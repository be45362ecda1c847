//! The persisted puzzle format: one text line whose first 81 bytes are the
//! ASCII digits of the 81 cells (value + 48, `'0'` empty), no delimiters or
//! header. The load path is hardened: a line that is too short or holds a
//! non-digit is rejected instead of yielding undefined cell values.

use vstd::prelude::*;

verus! {

/// The persisted text form of a board: one ASCII digit per cell.
pub open spec fn encoded(b: Seq<u8>) -> Seq<u8> {
    Seq::new(81, |k: int| (b[k] + 48) as u8)
}

/// A line decodes iff it carries at least 81 bytes and its first 81 bytes
/// are ASCII digits.
pub open spec fn line_ok(line: Seq<u8>) -> bool {
    line.len() >= 81 && forall|k: int| 0 <= k < 81 ==> 48 <= #[trigger] line[k] <= 57
}

/// The board a well-formed line denotes: one cell per digit, `'0'` empty.
pub open spec fn decoded(line: Seq<u8>) -> Seq<u8> {
    Seq::new(81, |k: int| (line[k] - 48) as u8)
}

/// Save path: the inverse digit mapping over exactly the 81 board cells.
pub fn save(board: &Vec<u8>) -> (out: Vec<u8>)
    requires
        board@.len() == 81,
        forall|k: int| 0 <= k < 81 ==> #[trigger] board@[k] <= 9,
    ensures
        out@ == encoded(board@),
        line_ok(out@),
{
    let mut out: Vec<u8> = Vec::new();
    let mut k: usize = 0;
    while k < 81
        invariant
            board@.len() == 81,
            forall|t: int| 0 <= t < 81 ==> #[trigger] board@[t] <= 9,
            k <= 81,
            out@.len() == k,
            forall|t: int| 0 <= t < k ==> #[trigger] out@[t] == (board@[t] + 48) as u8,
        decreases 81 - k,
    {
        let v = board[k];
        out.push(v + 48);
        k += 1;
    }
    proof {
        assert(out@ =~= encoded(board@));
    }
    out
}

/// Load path: the first 81 bytes of the line as cell values, or `None` when
/// the line is shorter than 81 bytes or a non-digit stands among them.
pub fn load(line: &Vec<u8>) -> (r: Option<Vec<u8>>)
    ensures
        r is Some <==> line_ok(line@),
        r matches Some(v) ==> v@ == decoded(line@) && v@.len() == 81 && forall|k: int|
            0 <= k < 81 ==> #[trigger] v@[k] <= 9,
{
    if line.len() < 81 {
        return None;
    }
    let mut cells: Vec<u8> = Vec::new();
    let mut k: usize = 0;
    while k < 81
        invariant
            line@.len() >= 81,
            k <= 81,
            cells@.len() == k,
            forall|t: int| 0 <= t < k ==> 48 <= #[trigger] line@[t] <= 57,
            forall|t: int| 0 <= t < k ==> #[trigger] cells@[t] == (line@[t] - 48) as u8,
        decreases 81 - k,
    {
        let ch = line[k];
        if ch < 48 || 57 < ch {
            return None;
        }
        cells.push(ch - 48);
        k += 1;
    }
    proof {
        assert(cells@ =~= decoded(line@));
    }
    Some(cells)
}

/// Round trip: saving any board whose cells are all valid `0..=9` values and
/// loading the line back reproduces the board exactly.
pub proof fn lemma_round_trip(b: Seq<u8>)
    requires
        b.len() == 81,
        forall|k: int| 0 <= k < 81 ==> #[trigger] b[k] <= 9,
    ensures
        line_ok(encoded(b)),
        decoded(encoded(b)) == b,
{
    assert(decoded(encoded(b)) =~= b);
}

/// First line of a text: the bytes before the first line feed, or the whole
/// text when it has none — the part of a file the load path reads.
pub fn first_line(text: &Vec<u8>) -> (line: Vec<u8>)
    ensures
        line@.len() <= text@.len(),
        line@ == text@.take(line@.len() as int),
        forall|k: int| 0 <= k < line@.len() ==> #[trigger] line@[k] != 10,
        line@.len() < text@.len() ==> text@[line@.len() as int] == 10,
{
    let mut k: usize = 0;
    while k < text.len() && text[k] != 10
        invariant
            k <= text@.len(),
            forall|t: int| 0 <= t < k ==> #[trigger] text@[t] != 10,
        decreases text@.len() - k,
    {
        k += 1;
    }
    let end = k;
    let mut line: Vec<u8> = Vec::new();
    let mut j: usize = 0;
    while j < end
        invariant
            end <= text@.len(),
            j <= end,
            line@.len() == j,
            forall|t: int| 0 <= t < j ==> #[trigger] line@[t] == text@[t],
        decreases end - j,
    {
        let b = text[j];
        line.push(b);
        j += 1;
    }
    proof {
        assert(line@ =~= text@.take(end as int));
    }
    line
}

} // verus!
