use vstd::prelude::*;
use vstd::pervasive::VecAdditionalExecFns;
use crate::Player;
use crate::coord::Coord;
use crate::catalog::{LineCatalog, line_has_cell, line_wf};

verus! {

/// The mathematical content of a board: one owner number per cell
/// (0 empty, 1 and 2 the players), a per-line pair of occupancy
/// counts, and the winner, if any.
#[verifier::ext_equal]
pub ghost struct BoardV {
    pub slots: Seq<int>,
    pub counts: Seq<(int, int)>,
    pub winner: Option<int>,
}

/// 1 when the cell is owned by player `p`, else 0.
pub open spec fn ind(slots: Seq<int>, cell: u8, p: int) -> int {
    if slots[cell as int] == p {
        1
    } else {
        0
    }
}

/// How many of a line's four cells player `p` owns.
pub open spec fn occ(slots: Seq<int>, line: [u8; 4], p: int) -> int {
    ind(slots, line[0], p) + ind(slots, line[1], p) + ind(slots, line[2], p) + ind(
        slots,
        line[3],
        p,
    )
}

/// The occupancy count of line `l` for player `p` (1 or 2).
pub open spec fn cnt(v: BoardV, l: int, p: int) -> int {
    if p == 1 {
        v.counts[l].0
    } else {
        v.counts[l].1
    }
}

/// A board agrees with the catalog: 256 owner entries, each an owner
/// number; one count pair per line, equal to the true per-line
/// occupancy; and the winner is set exactly when some line is fully
/// occupied by one player.
pub open spec fn wf_v(v: BoardV, cat: LineCatalog) -> bool {
    &&& v.slots.len() == 256
    &&& forall|i: int| 0 <= i < 256 ==> 0 <= #[trigger] v.slots[i] <= 2
    &&& v.counts.len() == cat.lines@.len()
    &&& forall|l: int|
        0 <= l < v.counts.len() ==> (#[trigger] v.counts[l]).0 == occ(v.slots, cat.lines@[l], 1)
            && v.counts[l].1 == occ(v.slots, cat.lines@[l], 2)
    &&& match v.winner {
        Some(p) => (p == 1 || p == 2) && exists|l: int|
            0 <= l < v.counts.len() && cnt(v, l, p) == 4,
        None => true,
    }
    &&& forall|l: int|
        0 <= l < v.counts.len() ==> (((#[trigger] v.counts[l]).0 == 4 || v.counts[l].1 == 4)
            ==> v.winner is Some)
}

/// The board a claim produces: the cell gets its owner, every line
/// through the cell counts one more cell for the claiming player, and
/// the claim wins the moment it fills some line through the cell.
pub open spec fn spec_apply(cat: LineCatalog, v: BoardV, c: int, p: int) -> BoardV {
    BoardV {
        slots: v.slots.update(c, p),
        counts: Seq::new(
            v.counts.len(),
            |l: int|
                if line_has_cell(cat.lines@[l], c) {
                    if p == 1 {
                        (v.counts[l].0 + 1, v.counts[l].1)
                    } else {
                        (v.counts[l].0, v.counts[l].1 + 1)
                    }
                } else {
                    v.counts[l]
                },
        ),
        winner: if exists|l: int|
            0 <= l < v.counts.len() && line_has_cell(#[trigger] cat.lines@[l], c) && cnt(v, l, p)
                + 1 == 4 {
            Some(p)
        } else {
            v.winner
        },
    }
}


/// `l` occurs among the first `k` entries of the index list.
pub open spec fn in_prefix(e: Seq<usize>, k: int, l: int) -> bool {
    exists|k2: int| 0 <= k2 < k && e[k2] == l as usize
}

/// The count pair with one more cell for player `p`.
pub open spec fn inc_pair(pr: (int, int), p: int) -> (int, int) {
    if p == 1 {
        (pr.0 + 1, pr.1)
    } else {
        (pr.0, pr.1 + 1)
    }
}

/// Both players together hold at most the line's four cells.
pub proof fn lemma_occ_sum(slots: Seq<int>, line: [u8; 4])
    ensures
        occ(slots, line, 1) + occ(slots, line, 2) <= 4,
{
}

/// A line with an empty cell leaves at most three cells to the two
/// players together.
pub proof fn lemma_occ_sum_with_empty(slots: Seq<int>, line: [u8; 4], c: u8)
    requires
        line_has_cell(line, c as int),
        slots[c as int] == 0,
    ensures
        occ(slots, line, 1) + occ(slots, line, 2) <= 3,
{
    let j0 = choose|j: int| 0 <= j < 4 && line[j] == c as int;
    assert(ind(slots, line[j0], 1) == 0 && ind(slots, line[j0], 2) == 0);
}

/// Claiming an empty cell raises the claiming player's occupancy of
/// every line through the cell by exactly one and changes no other
/// occupancy count.
pub proof fn lemma_occ_update(slots: Seq<int>, line: [u8; 4], c: u8, p: int, q: int)
    requires
        slots.len() == 256,
        line_wf(line),
        slots[c as int] == 0,
        p == 1 || p == 2,
        q == 1 || q == 2,
    ensures
        line_has_cell(line, c as int) && q == p ==> occ(slots.update(c as int, p), line, q) == occ(
            slots,
            line,
            q,
        ) + 1,
        line_has_cell(line, c as int) && q != p ==> occ(slots.update(c as int, p), line, q) == occ(
            slots,
            line,
            q,
        ),
        !line_has_cell(line, c as int) ==> occ(slots.update(c as int, p), line, q) == occ(
            slots,
            line,
            q,
        ),
{
    let s2 = slots.update(c as int, p);
    if line_has_cell(line, c as int) {
        let j0 = choose|j: int| 0 <= j < 4 && line[j] == c as int;
        assert forall|j: int| 0 <= j < 4 && j != j0 implies ind(s2, line[j], q) == ind(
            slots,
            line[j],
            q,
        ) by {
            assert(line[j] != line[j0]);
        }
        assert(ind(s2, line[j0], q) == if q == p { 1int } else { 0int });
        assert(ind(slots, line[j0], q) == 0);
    } else {
        assert forall|j: int| 0 <= j < 4 implies ind(s2, line[j], q) == ind(slots, line[j], q) by {
            assert(!(line[j] == c as int));
        }
    }
}

/// A claim preserves the board's consistency with the catalog.
#[verifier::rlimit(30)]
pub proof fn lemma_apply_wf(cat: LineCatalog, v: BoardV, c: int, p: int)
    requires
        cat.wf(),
        wf_v(v, cat),
        0 <= c < 256,
        v.slots[c] == 0,
        p == 1 || p == 2,
    ensures
        wf_v(spec_apply(cat, v, c, p), cat),
{
    let w = spec_apply(cat, v, c, p);
    assert forall|l: int|
        0 <= l < w.counts.len() implies (#[trigger] w.counts[l]).0 == occ(
        w.slots,
        cat.lines@[l],
        1,
    ) && w.counts[l].1 == occ(w.slots, cat.lines@[l], 2) by {
        lemma_occ_update(v.slots, cat.lines@[l], c as u8, p, 1);
        lemma_occ_update(v.slots, cat.lines@[l], c as u8, p, 2);
    }
    if exists|l: int|
        0 <= l < v.counts.len() && line_has_cell(#[trigger] cat.lines@[l], c) && cnt(v, l, p) + 1
            == 4 {
        let l0 = choose|l: int|
            0 <= l < v.counts.len() && line_has_cell(#[trigger] cat.lines@[l], c) && cnt(v, l, p)
                + 1 == 4;
        assert(w.winner == Some(p));
        assert(w.counts.len() == v.counts.len());
        assert(0 <= l0 < w.counts.len() && cnt(w, l0, p) == 4);
        assert(exists|l: int| 0 <= l < w.counts.len() && cnt(w, l, p) == 4);
    } else {
        assert(w.winner == v.winner);
        match v.winner {
            Some(q) => {
                let l0 = choose|l: int| 0 <= l < v.counts.len() && cnt(v, l, q) == 4;
                if line_has_cell(cat.lines@[l0], c) {
                    lemma_occ_sum_with_empty(v.slots, cat.lines@[l0], c as u8);
                    assert(false);
                }
                assert(0 <= l0 < w.counts.len() && cnt(w, l0, q) == 4);
                assert(exists|l: int| 0 <= l < w.counts.len() && cnt(w, l, q) == 4);
            },
            None => {},
        }
    }
    assert forall|l: int|
        0 <= l < w.counts.len() && ((#[trigger] w.counts[l]).0 == 4 || w.counts[l].1 == 4) implies
        w.winner is Some by {
        if line_has_cell(cat.lines@[l], c) {
            if (p == 1 && w.counts[l].0 == 4) || (p == 2 && w.counts[l].1 == 4) {
                assert(cnt(v, l, p) + 1 == 4);
            } else {
                assert(v.counts[l].0 == 4 || v.counts[l].1 == 4);
            }
        } else {
            assert(v.counts[l].0 == 4 || v.counts[l].1 == 4);
        }
    }
}

/// Completing a line the claiming player already holds three cells of
/// makes that player the winner.
pub proof fn lemma_win_on_completion(cat: LineCatalog, v: BoardV, l: int, c: int, p: int)
    requires
        cat.wf(),
        wf_v(v, cat),
        p == 1 || p == 2,
        0 <= l < v.counts.len(),
        line_has_cell(cat.lines@[l], c),
        0 <= c < 256,
        v.slots[c] == 0,
        cnt(v, l, p) == 3,
    ensures
        spec_apply(cat, v, c, p).winner == Some(p),
{
    assert(0 <= l < v.counts.len() && line_has_cell(cat.lines@[l], c) && cnt(v, l, p) + 1 == 4);
}

/// A claim that brings no line through its cell to four cells for the
/// claiming player leaves the winner as it was.
pub proof fn lemma_no_early_win(cat: LineCatalog, v: BoardV, c: int, p: int)
    requires
        cat.wf(),
        wf_v(v, cat),
        p == 1 || p == 2,
        0 <= c < 256,
        v.slots[c] == 0,
        forall|l: int|
            0 <= l < v.counts.len() && line_has_cell(#[trigger] cat.lines@[l], c) ==> cnt(v, l, p)
                < 3,
    ensures
        spec_apply(cat, v, c, p).winner == v.winner,
{
}

/// A dead line — one holding cells of both players — never again
/// reaches four cells for either player, whatever is claimed.
pub proof fn lemma_dead_line_stays_dead(cat: LineCatalog, v: BoardV, l: int, c: int, p: int)
    requires
        cat.wf(),
        wf_v(v, cat),
        0 <= l < v.counts.len(),
        v.counts[l].0 >= 1,
        v.counts[l].1 >= 1,
        0 <= c < 256,
        v.slots[c] == 0,
        p == 1 || p == 2,
    ensures
        spec_apply(cat, v, c, p).counts[l].0 < 4,
        spec_apply(cat, v, c, p).counts[l].1 < 4,
{
    if line_has_cell(cat.lines@[l], c) {
        lemma_occ_sum_with_empty(v.slots, cat.lines@[l], c as u8);
    } else {
        lemma_occ_sum(v.slots, cat.lines@[l]);
    }
}

/// The game state: one owner per cell, a dense table of per-line
/// occupancy count pairs, and the winner once a line is full.
pub struct Board {
    pub slots: Vec<Player>,
    pub line_occupation: Vec<[u8; 2]>,
    pub winner: Option<Player>,
}

impl View for Board {
    type V = BoardV;

    open spec fn view(&self) -> BoardV {
        BoardV {
            slots: self.slots@.map_values(|p: Player| p.0 as int),
            counts: self.line_occupation@.map_values(|a: [u8; 2]| (a[0] as int, a[1] as int)),
            winner: match self.winner {
                Some(p) => Some(p.0 as int),
                None => None,
            },
        }
    }
}

impl Board {
    /// The board is consistent with the catalog's lines.
    pub open spec fn wf(self, cat: LineCatalog) -> bool {
        wf_v(self@, cat)
    }

    /// A fresh board: every cell empty, every line unoccupied, no winner.
    pub fn new(cat: &LineCatalog) -> (r: Board)
        ensures
            r.wf(*cat),
            r@.slots =~= Seq::new(256, |i: int| 0),
            r@.winner is None,
            forall|l: int| 0 <= l < r@.counts.len() ==> #[trigger] r@.counts[l] == (0int, 0int),
    {
        let mut slots: Vec<Player> = Vec::new();
        let mut i: usize = 0;
        while i < 256
            invariant
                i <= 256,
                slots@.len() == i,
                forall|j: int| 0 <= j < i ==> (#[trigger] slots@[j]).0 == 0,
            decreases 256 - i,
        {
            slots.push(Player(0));
            i += 1;
        }
        let mut line_occupation: Vec<[u8; 2]> = Vec::new();
        let mut l: usize = 0;
        let n = cat.lines.len();
        while l < n
            invariant
                l <= n,
                n == cat.lines@.len(),
                line_occupation@.len() == l,
                forall|j: int|
                    0 <= j < l ==> (#[trigger] line_occupation@[j])[0] == 0 && line_occupation@[j][1]
                        == 0,
            decreases n - l,
        {
            line_occupation.push([0, 0]);
            l += 1;
        }
        let r = Board { slots, line_occupation, winner: None };
        proof {
            assert forall|j: int| 0 <= j < 256 implies r@.slots[j] == 0 by {
                assert(slots@[j].0 == 0);
            }
            assert(r@.slots =~= Seq::new(256, |i: int| 0));
            assert forall|j: int| 0 <= j < r@.counts.len() implies #[trigger] r@.counts[j] == (
            0int,
            0int,
            ) by {
                assert(line_occupation@[j][0] == 0 && line_occupation@[j][1] == 0);
            }
            assert forall|j: int|
                0 <= j < r@.counts.len() implies (#[trigger] r@.counts[j]).0 == occ(
                r@.slots,
                cat.lines@[j],
                1,
            ) && r@.counts[j].1 == occ(r@.slots, cat.lines@[j], 2) by {
                assert(r@.counts[j] == (0int, 0int));
                assert(occ(r@.slots, cat.lines@[j], 1) == 0);
                assert(occ(r@.slots, cat.lines@[j], 2) == 0);
            }
        }
        r
    }

    /// The owner of a cell.
    pub fn get(&self, c: Coord) -> (r: Player)
        requires
            self@.slots.len() == 256,
        ensures
            r.0 as int == self@.slots[c.0 as int],
    {
        self.slots[c.0 as usize]
    }

    /// An exact copy; the search explores each candidate move on a
    /// copy of its own.
    pub fn duplicate(&self) -> (r: Board)
        ensures
            r@ == self@,
    {
        let mut slots: Vec<Player> = Vec::new();
        let mut i: usize = 0;
        let ns = self.slots.len();
        while i < ns
            invariant
                ns == self.slots@.len(),
                slots@.len() == i,
                i <= ns,
                forall|j: int| 0 <= j < i ==> slots@[j] == self.slots@[j],
            decreases ns - i,
        {
            slots.push(self.slots[i]);
            i += 1;
        }
        let mut line_occupation: Vec<[u8; 2]> = Vec::new();
        let mut l: usize = 0;
        let nl = self.line_occupation.len();
        while l < nl
            invariant
                nl == self.line_occupation@.len(),
                line_occupation@.len() == l,
                l <= nl,
                forall|j: int| 0 <= j < l ==> line_occupation@[j] == self.line_occupation@[j],
            decreases nl - l,
        {
            line_occupation.push(self.line_occupation[l]);
            l += 1;
        }
        let r = Board { slots, line_occupation, winner: self.winner };
        proof {
            assert(r.slots@ =~= self.slots@);
            assert(r.line_occupation@ =~= self.line_occupation@);
            assert(r@ =~= self@);
        }
        r
    }


    /// Claims an empty cell for a player: records the owner, raises
    /// the player's occupancy count of every line through the cell,
    /// and declares the player winner the moment some such line is
    /// full. Callers must offer only empty cells.
    pub fn set(&mut self, cat: &LineCatalog, c: Coord, playing: Player)
        requires
            cat.wf(),
            old(self).wf(*cat),
            playing.is_real(),
            old(self)@.slots[c.0 as int] == 0,
        ensures
            final(self)@ == spec_apply(*cat, old(self)@, c.0 as int, playing.0 as int),
            final(self).wf(*cat),
    {
        let ghost ov = self@;
        let ghost p = playing.0 as int;
        let cu = c.0 as usize;
        let idx = playing.index();
        self.slots.set(cu, playing);
        proof {
            assert forall|j: int| 0 <= j < 256 implies self@.slots[j] == ov.slots.update(
                cu as int,
                p,
            )[j] by {}
            assert(self@.slots =~= ov.slots.update(cu as int, p));
        }
        let entry = &cat.cell_lines[cu];
        let nlines = cat.lines.len();
        let m = entry.len();
        let ghost e = entry@;
        let mut k: usize = 0;
        while k < m
            invariant
                cat.wf(),
                wf_v(ov, *cat),
                playing.is_real(),
                p == playing.0 as int,
                idx == p - 1,
                cu == c.0 as usize,
                ov.slots[cu as int] == 0,
                e == cat.cell_lines@[cu as int]@,
                nlines == cat.lines@.len(),
                m == e.len(),
                k <= m,
                entry@ == e,
                self@.slots == ov.slots.update(cu as int, p),
                self@.counts.len() == ov.counts.len(),
                forall|l: int|
                    0 <= l < ov.counts.len() ==> #[trigger] self@.counts[l] == (if in_prefix(
                        e,
                        k as int,
                        l,
                    ) {
                        inc_pair(ov.counts[l], p)
                    } else {
                        ov.counts[l]
                    }),
                self@.winner == (if exists|k2: int|
                    0 <= k2 < k && cnt(ov, #[trigger] e[k2] as int, p) == 3 {
                    Some(p)
                } else {
                    ov.winner
                }),
            decreases m - k,
        {
            let l = entry[k];
            proof {
                assert(e[k as int] == l);
                assert(l < cat.lines@.len() && line_has_cell(cat.lines@[l as int], cu as int));
                assert forall|k2: int| 0 <= k2 < k implies e[k2] < e[k as int] by {}
                assert(!in_prefix(e, k as int, l as int));
                assert(self@.counts[l as int] == ov.counts[l as int]);
                lemma_occ_sum_with_empty(ov.slots, cat.lines@[l as int], c.0);
                assert(cnt(ov, l as int, p) <= 3);
            }
            let pair = self.line_occupation[l];
            let cur: u8 = if idx == 0 {
                pair[0]
            } else {
                pair[1]
            };
            let ghost counts0 = self@.counts;
            let ghost w0 = self@.winner;
            let newpair: [u8; 2] = if idx == 0 {
                [cur + 1, pair[1]]
            } else {
                [pair[0], cur + 1]
            };
            self.line_occupation.set(l, newpair);
            if cur == 3 {
                self.winner = Some(playing);
            }
            proof {
                assert(cur as int == cnt(ov, l as int, p));
                assert forall|l2: int| 0 <= l2 < ov.counts.len() implies #[trigger] self@.counts[l2]
                    == (if in_prefix(e, k + 1, l2) {
                    inc_pair(ov.counts[l2], p)
                } else {
                    ov.counts[l2]
                }) by {
                    if l2 == l as int {
                        assert(in_prefix(e, k + 1, l2));
                        assert(self@.counts[l2] == inc_pair(ov.counts[l2], p));
                    } else {
                        assert(self@.counts[l2] == counts0[l2]);
                        assert(in_prefix(e, k + 1, l2) == in_prefix(e, k as int, l2));
                    }
                }
                if cur == 3 {
                    assert(cnt(ov, e[k as int] as int, p) == 3);
                } else {
                    if exists|k2: int| 0 <= k2 < k + 1 && cnt(ov, #[trigger] e[k2] as int, p)
                        == 3 {
                        let k2 = choose|k2: int|
                            0 <= k2 < k + 1 && cnt(ov, #[trigger] e[k2] as int, p) == 3;
                        assert(cnt(ov, e[k as int] as int, p) == cur as int);
                        assert(0 <= k2 < k && cnt(ov, e[k2] as int, p) == 3);
                    }
                    if exists|k2: int| 0 <= k2 < k && cnt(ov, #[trigger] e[k2] as int, p) == 3 {
                        let k2 = choose|k2: int|
                            0 <= k2 < k && cnt(ov, #[trigger] e[k2] as int, p) == 3;
                        assert(0 <= k2 < k + 1 && cnt(ov, e[k2] as int, p) == 3);
                    }
                }
            }
            k += 1;
        }
        proof {
            let target = spec_apply(*cat, ov, c.0 as int, p);
            assert(ov.counts.len() == nlines as int);
            assert(crate::catalog::entry_ok(cat.lines@, e, cu as int, cat.lines@.len() as int));
            assert(cu as int == c.0 as int);
            assert forall|l: int|
                0 <= l < ov.counts.len() && in_prefix(e, m as int, l) implies line_has_cell(
                #[trigger] cat.lines@[l],
                cu as int,
            ) by {
                let k2 = choose|k2: int| 0 <= k2 < m as int && e[k2] == l as usize;
                assert(e[k2] < cat.lines@.len());
                assert(line_has_cell(cat.lines@[e[k2] as int], cu as int));
                assert(e[k2] as int == l);
            }
            assert forall|l: int|
                0 <= l < ov.counts.len() && line_has_cell(#[trigger] cat.lines@[l], cu as int)
                implies in_prefix(e, m as int, l) by {
                assert(e.contains(l as usize));
                let k2 = choose|k2: int| 0 <= k2 < e.len() && e[k2] == l as usize;
                assert(0 <= k2 < m as int && e[k2] == l as usize);
                assert(in_prefix(e, m as int, l));
            }
            assert forall|l: int| 0 <= l < ov.counts.len() implies #[trigger] self@.counts[l]
                == target.counts[l] by {}
            assert(self@.counts =~= target.counts);
            if exists|k2: int| 0 <= k2 < m && cnt(ov, #[trigger] e[k2] as int, p) == 3 {
                let k2 = choose|k2: int| 0 <= k2 < m && cnt(ov, #[trigger] e[k2] as int, p) == 3;
                assert(line_has_cell(cat.lines@[e[k2] as int], cu as int) && cnt(
                    ov,
                    e[k2] as int,
                    p,
                ) + 1 == 4);
                assert(target.winner == Some(p));
            } else {
                if exists|l: int|
                    0 <= l < ov.counts.len() && line_has_cell(#[trigger] cat.lines@[l], c.0 as int)
                        && cnt(ov, l, p) + 1 == 4 {
                    let l0 = choose|l: int|
                        0 <= l < ov.counts.len() && line_has_cell(
                            #[trigger] cat.lines@[l],
                            c.0 as int,
                        ) && cnt(ov, l, p) + 1 == 4;
                    assert(in_prefix(e, m as int, l0));
                    let k2 = choose|k2: int| 0 <= k2 < m && e[k2] == l0 as usize;
                    assert(cnt(ov, e[k2] as int, p) == 3);
                    assert(false);
                }
                assert(target.winner == ov.winner);
            }
            assert(self@ =~= target);
            lemma_apply_wf(*cat, ov, c.0 as int, p);
        }
    }

    /// The cells currently owned by `player` (or the empty cells when
    /// `player` is the empty marker), in ascending cell order.
    pub fn positions_owned_by(&self, player: Player) -> (r: Vec<u8>)
        requires
            self@.slots.len() == 256,
        ensures
            forall|k: int|
                0 <= k < r@.len() ==> self@.slots[(#[trigger] r@[k]) as int] == player.0 as int,
            forall|c: int|
                0 <= c < 256 && self@.slots[c] == player.0 as int ==> exists|k: int|
                    0 <= k < r@.len() && r@[k] as int == c,
            forall|k1: int, k2: int| 0 <= k1 < k2 < r@.len() ==> r@[k1] < r@[k2],
    {
        let mut r: Vec<u8> = Vec::new();
        let mut i: usize = 0;
        while i < 256
            invariant
                i <= 256,
                self@.slots.len() == 256,
                forall|k: int|
                    0 <= k < r@.len() ==> self@.slots[(#[trigger] r@[k]) as int] == player.0 as int
                        && r@[k] < i,
                forall|c: int|
                    0 <= c < i && self@.slots[c] == player.0 as int ==> exists|k: int|
                        0 <= k < r@.len() && r@[k] as int == c,
                forall|k1: int, k2: int| 0 <= k1 < k2 < r@.len() ==> r@[k1] < r@[k2],
            decreases 256 - i,
        {
            if self.slots[i].0 == player.0 {
                let ghost r0 = r@;
                r.push(i as u8);
                proof {
                    assert(r@[r0.len() as int] == i as u8);
                    assert forall|c: int|
                        0 <= c < i + 1 && self@.slots[c] == player.0 as int implies exists|k: int|
                        0 <= k < r@.len() && r@[k] as int == c by {
                        if c < i {
                            let k = choose|k: int| 0 <= k < r0.len() && r0[k] as int == c;
                            assert(r@[k] as int == c);
                        } else {
                            assert(r@[r0.len() as int] as int == c);
                        }
                    }
                }
            }
            i += 1;
        }
        r
    }
}

} // verus!
