//! The board: 81 cell values in `0..=9` (`0` is empty) with a parallel row
//! of legality flags that no mutation path lets go stale, and the guarded
//! hand-over of a snapshot to a background solve.

use vstd::prelude::*;

use crate::grid::are_peers;
use crate::grid::is_legal_move;
use crate::grid::is_peer;
use crate::grid::legal_at;
use crate::grid::lemma_legal_at_update_other;
use crate::grid::lemma_peer_symmetric;

verus! {

broadcast use vstd::seq_lib::lemma_seq_contains_after_push;

/// Cell `t` is the edited cell `i` itself or one of its peers: exactly the
/// cells whose legality an edit of `i` re-derives.
pub open spec fn affected(i: int, t: int) -> bool {
    t == i || is_peer(i, t)
}

pub struct Board {
    /// The 81 cell values, each in `0..=9`; `0` is an empty cell.
    pub values: Vec<u8>,
    /// `legal[i]` iff cell `i` is empty or its value repeats in no peer.
    pub legal: Vec<bool>,
    /// True while a background solve is in flight; edits are barred then.
    pub solving: bool,
}

impl Board {
    /// Well-formed: 81 cells in range, and no legality flag is stale — each
    /// equals an independent re-evaluation of the constraint checker.
    pub open spec fn wf(&self) -> bool {
        &&& self.values@.len() == 81
        &&& self.legal@.len() == 81
        &&& forall|k: int| 0 <= k < 81 ==> #[trigger] self.values@[k] <= 9
        &&& forall|k: int|
            0 <= k < 81 ==> #[trigger] self.legal@[k] == legal_at(
                self.values@,
                k,
                self.values@[k],
            )
    }

    /// Every legality flag is up: the board holds no live conflict.
    pub open spec fn all_legal(&self) -> bool {
        forall|k: int| 0 <= k < 81 ==> #[trigger] self.legal@[k]
    }

    /// A fresh board: all cells empty, all flags legal, no solve in flight.
    pub fn new() -> (b: Board)
        ensures
            b.wf(),
            forall|k: int| 0 <= k < 81 ==> #[trigger] b.values@[k] == 0,
            b.all_legal(),
            !b.solving,
    {
        let mut values: Vec<u8> = Vec::new();
        let mut legal: Vec<bool> = Vec::new();
        let mut k: usize = 0;
        while k < 81
            invariant
                k <= 81,
                values@.len() == k,
                legal@.len() == k,
                forall|t: int| 0 <= t < k ==> #[trigger] values@[t] == 0,
                forall|t: int| 0 <= t < k ==> #[trigger] legal@[t],
            decreases 81 - k,
        {
            values.push(0);
            legal.push(true);
            k += 1;
        }
        Board { values, legal, solving: false }
    }

    /// Current legality flag of `index`.
    pub fn is_legal(&self, index: usize) -> (r: bool)
        requires
            self.wf(),
            index < 81,
        ensures
            r == self.legal@[index as int],
            r == legal_at(self.values@, index as int, self.values@[index as int]),
    {
        self.legal[index]
    }

    /// Current value of `index`.
    pub fn value(&self, index: usize) -> (v: u8)
        requires
            self.wf(),
            index < 81,
        ensures
            v == self.values@[index as int],
    {
        self.values[index]
    }

    /// Whether a background solve is in flight.
    pub fn is_solving(&self) -> (r: bool)
        ensures
            r == self.solving,
    {
        self.solving
    }

    /// Stores `value` at `index` and re-derives the legality of the edited
    /// cell and of every peer in its row, column and box. Returns the edited
    /// index plus every index whose legality flag actually flipped, for
    /// display invalidation.
    pub fn set_value(&mut self, index: usize, value: u8) -> (changed: Vec<usize>)
        requires
            old(self).wf(),
            !old(self).solving,
            index < 81,
            value <= 9,
        ensures
            final(self).wf(),
            final(self).values@ == old(self).values@.update(index as int, value),
            final(self).solving == old(self).solving,
            forall|c: usize| #[trigger] changed@.contains(c) ==> c < 81,
            forall|c: usize|
                c < 81 ==> (#[trigger] changed@.contains(c) <==> c == index
                    || final(self).legal@[c as int] != old(self).legal@[c as int]),
    {
        let ghost b0 = self.values@;
        let ghost l0 = self.legal@;
        let ghost s0 = self.solving;
        self.values.set(index, value);
        let ghost b1 = self.values@;
        let mut changed: Vec<usize> = Vec::new();
        changed.push(index);
        proof {
            assert(changed@[0] == index);
        }
        let mut k: usize = 0;
        while k < 81
            invariant
                self.values@ == b1,
                b1 == b0.update(index as int, value),
                b0.len() == 81,
                l0.len() == 81,
                self.legal@.len() == 81,
                self.solving == s0,
                index < 81,
                value <= 9,
                k <= 81,
                forall|t: int|
                    0 <= t < k && affected(index as int, t) ==> #[trigger] self.legal@[t]
                        == legal_at(b1, t, b1[t]),
                forall|t: int|
                    0 <= t < 81 && (t >= k || !affected(index as int, t))
                        ==> #[trigger] self.legal@[t] == l0[t],
                forall|c: usize|
                    #[trigger] changed@.contains(c) ==> c == index || (c < k && self.legal@[c as int]
                        != l0[c as int]),
                forall|c: usize|
                    (c == index || (c < k && self.legal@[c as int] != l0[c as int]))
                        ==> #[trigger] changed@.contains(c),
            decreases 81 - k,
        {
            if k == index || are_peers(index, k) {
                let v = self.values[k];
                let now = is_legal_move(&self.values, k, v);
                let was = self.legal[k];
                self.legal.set(k, now);
                if now != was && k != index {
                    changed.push(k);
                    proof {
                        assert(changed@[changed@.len() - 1] == k);
                    }
                }
            }
            k += 1;
        }
        proof {
            assert forall|t: int| 0 <= t < 81 implies #[trigger] self.legal@[t] == legal_at(
                b1,
                t,
                b1[t],
            ) by {
                if !affected(index as int, t) {
                    lemma_peer_symmetric(index as int, t);
                    lemma_legal_at_update_other(b0, index as int, value, t);
                }
            }
        }
        changed
    }

    /// Re-derives every legality flag from the current values.
    fn refresh_legality(&mut self)
        requires
            old(self).values@.len() == 81,
            old(self).legal@.len() == 81,
        ensures
            final(self).values@ == old(self).values@,
            final(self).solving == old(self).solving,
            final(self).legal@.len() == 81,
            forall|t: int|
                0 <= t < 81 ==> #[trigger] final(self).legal@[t] == legal_at(
                    final(self).values@,
                    t,
                    final(self).values@[t],
                ),
    {
        let ghost v0 = self.values@;
        let ghost s0 = self.solving;
        let mut k: usize = 0;
        while k < 81
            invariant
                self.values@ == v0,
                v0.len() == 81,
                self.legal@.len() == 81,
                self.solving == s0,
                k <= 81,
                forall|t: int|
                    0 <= t < k ==> #[trigger] self.legal@[t] == legal_at(v0, t, v0[t]),
            decreases 81 - k,
        {
            let v = self.values[k];
            let now = is_legal_move(&self.values, k, v);
            self.legal.set(k, now);
            k += 1;
        }
    }

    /// Replaces all 81 values at once — the file-load path — and re-derives
    /// every legality flag, so that no flag goes stale.
    pub fn replace_all(&mut self, cells: &Vec<u8>)
        requires
            old(self).wf(),
            !old(self).solving,
            cells@.len() == 81,
            forall|k: int| 0 <= k < 81 ==> #[trigger] cells@[k] <= 9,
        ensures
            final(self).wf(),
            final(self).values@ == cells@,
            final(self).solving == old(self).solving,
    {
        let ghost s0 = self.solving;
        let mut k: usize = 0;
        while k < 81
            invariant
                self.values@.len() == 81,
                self.legal@.len() == 81,
                self.solving == s0,
                cells@.len() == 81,
                k <= 81,
                forall|t: int| 0 <= t < k ==> #[trigger] self.values@[t] == cells@[t],
            decreases 81 - k,
        {
            let c = cells[k];
            self.values.set(k, c);
            k += 1;
        }
        self.refresh_legality();
        proof {
            assert(self.values@ =~= cells@);
        }
    }

    /// A solve request: accepted only when no solve is in flight and every
    /// legality flag is true. On acceptance the board is marked solving and a
    /// by-value snapshot of the 81 cells is returned for the background
    /// search; otherwise the request is a no-op and `None` comes back.
    pub fn request_solve(&mut self) -> (snapshot: Option<Vec<u8>>)
        requires
            old(self).wf(),
        ensures
            final(self).wf(),
            final(self).values@ == old(self).values@,
            final(self).legal@ == old(self).legal@,
            snapshot is Some <==> (!old(self).solving && old(self).all_legal()),
            snapshot matches Some(s) ==> final(self).solving && s@ == old(self).values@,
            snapshot is None ==> final(self).solving == old(self).solving,
    {
        let ghost init = *self;
        if self.solving {
            return None;
        }
        let mut k: usize = 0;
        while k < 81
            invariant
                *self == init,
                init.wf(),
                k <= 81,
                forall|t: int| 0 <= t < k ==> #[trigger] self.legal@[t],
            decreases 81 - k,
        {
            if !self.legal[k] {
                return None;
            }
            k += 1;
        }
        let mut snap: Vec<u8> = Vec::new();
        let mut j: usize = 0;
        while j < 81
            invariant
                *self == init,
                init.wf(),
                j <= 81,
                snap@.len() == j,
                forall|t: int| 0 <= t < j ==> #[trigger] snap@[t] == self.values@[t],
            decreases 81 - j,
        {
            let v = self.values[j];
            snap.push(v);
            j += 1;
        }
        self.solving = true;
        proof {
            assert(snap@ =~= init.values@);
        }
        Some(snap)
    }

    /// Applies the completion message of a background solve: the carried 81
    /// values replace the board verbatim, every legality flag is re-derived,
    /// and the board returns to its idle state.
    pub fn complete_solve(&mut self, solution: &Vec<u8>)
        requires
            old(self).wf(),
            old(self).solving,
            solution@.len() == 81,
            forall|k: int| 0 <= k < 81 ==> #[trigger] solution@[k] <= 9,
        ensures
            final(self).wf(),
            final(self).values@ == solution@,
            !final(self).solving,
    {
        self.solving = false;
        self.replace_all(solution);
    }
}

} // verus!
