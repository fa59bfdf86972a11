use vstd::prelude::*;
use fixedbitset::FixedBitSet;
use crate::Player;
use crate::board::{Board, BoardV, wf_v, spec_apply, occ, ind};
use crate::catalog::{LineCatalog, line_has_cell};
use crate::bits::{bits_of, bit_len, fbs_with_capacity, fbs_insert, fbs_intersect_with, fbs_ones};

verus! {

/// A line's contribution to the danger picture, seen by player `us`:
/// the first component is the threat against us (the opponent's cell
/// count when only the opponent occupies the line), the second our
/// own advancing threat (our count when only we occupy it); a line
/// held by both players is dead and contributes nothing.
pub open spec fn spec_line_danger(us: int, pr: (int, int)) -> (int, int) {
    let mine = if us == 1 {
        pr.0
    } else {
        pr.1
    };
    let theirs = if us == 1 {
        pr.1
    } else {
        pr.0
    };
    if theirs > 0 && mine > 0 {
        (0, 0)
    } else if theirs > 0 {
        (theirs, 0)
    } else {
        (0, mine)
    }
}

/// The componentwise maximum of the line dangers of the first `n`
/// lines (the two maxima may come from different lines).
pub open spec fn spec_board_danger(counts: Seq<(int, int)>, us: int, n: int) -> (int, int)
    decreases n,
{
    if n <= 0 {
        (0, 0)
    } else {
        let rest = spec_board_danger(counts, us, n - 1);
        let d = spec_line_danger(us, counts[n - 1]);
        (
            if d.0 > rest.0 {
                d.0
            } else {
                rest.0
            },
            if d.1 > rest.1 {
                d.1
            } else {
                rest.1
            },
        )
    }
}

/// The empty cells of a board.
pub open spec fn spec_empties(v: BoardV) -> Set<int> {
    Set::new(|i: int| 0 <= i < 256 && v.slots[i] == 0)
}

/// One component of a line's danger pair: 0 selects the threat
/// against us, 1 our own threat.
pub open spec fn dcomp(us: int, pr: (int, int), which: int) -> int {
    if which == 0 {
        spec_line_danger(us, pr).0
    } else {
        spec_line_danger(us, pr).1
    }
}

/// The cells lying on some line whose danger component `which` (0 the
/// threat against us, 1 our own threat) equals `t`.
pub open spec fn danger_cells(cat: LineCatalog, v: BoardV, us: int, which: int, t: int) -> Set<
    int,
> {
    Set::new(
        |i: int|
            0 <= i < 256 && exists|l: int|
                0 <= l < v.counts.len() && dcomp(us, #[trigger] v.counts[l], which) == t
                    && line_has_cell(cat.lines@[l], i),
    )
}

/// The candidate moves: when the threat against us outweighs our own,
/// the empty cells of the most threatening lines (defend); when ours
/// outweighs theirs, the empty cells of our strongest lines (attack);
/// when balanced, every empty cell.
pub open spec fn spec_good_moves(cat: LineCatalog, v: BoardV, us: int) -> Set<int> {
    let d = spec_board_danger(v.counts, us, v.counts.len() as int);
    if d.0 == d.1 {
        spec_empties(v)
    } else if d.0 < d.1 {
        danger_cells(cat, v, us, 1, d.1).intersect(spec_empties(v))
    } else {
        danger_cells(cat, v, us, 0, d.0).intersect(spec_empties(v))
    }
}


/// The candidate cells below `n`, in ascending order.
pub open spec fn goods_upto(cat: LineCatalog, v: BoardV, us: int, n: int) -> Seq<int>
    decreases n,
{
    if n <= 0 {
        Seq::empty()
    } else {
        let rest = goods_upto(cat, v, us, n - 1);
        if spec_good_moves(cat, v, us).contains(n - 1) {
            rest.push(n - 1)
        } else {
            rest
        }
    }
}

/// All candidate cells, in ascending order.
pub open spec fn spec_good_list(cat: LineCatalog, v: BoardV, us: int) -> Seq<int> {
    goods_upto(cat, v, us, 256)
}

/// Every candidate cell is a cell: the good-move set stays within
/// the 256 cell identifiers.
pub proof fn lemma_good_moves_in_range(cat: LineCatalog, v: BoardV, us: int)
    ensures
        forall|x: int| spec_good_moves(cat, v, us).contains(x) ==> 0 <= x < 256,
{
}

/// The ascending enumeration lists exactly the candidate cells below `n`.
pub proof fn lemma_goods_upto_props(cat: LineCatalog, v: BoardV, us: int, n: int)
    ensures
        forall|k: int|
            0 <= k < goods_upto(cat, v, us, n).len() ==> 0 <= #[trigger] goods_upto(
                cat,
                v,
                us,
                n,
            )[k] < n && spec_good_moves(cat, v, us).contains(goods_upto(cat, v, us, n)[k]),
        forall|x: int|
            0 <= x < n && spec_good_moves(cat, v, us).contains(x) ==> goods_upto(
                cat,
                v,
                us,
                n,
            ).contains(x),
        forall|k1: int, k2: int|
            0 <= k1 < k2 < goods_upto(cat, v, us, n).len() ==> goods_upto(cat, v, us, n)[k1]
                < goods_upto(cat, v, us, n)[k2],
    decreases n,
{
    if n > 0 {
        lemma_goods_upto_props(cat, v, us, n - 1);
        let e0 = goods_upto(cat, v, us, n - 1);
        let e = goods_upto(cat, v, us, n);
        if spec_good_moves(cat, v, us).contains(n - 1) {
            assert(e == e0.push(n - 1));
            assert(e[e0.len() as int] == n - 1);
            assert forall|x: int|
                0 <= x < n && spec_good_moves(cat, v, us).contains(x) implies e.contains(x) by {
                if x < n - 1 {
                    assert(e0.contains(x));
                    let k = choose|k: int| 0 <= k < e0.len() && e0[k] == x;
                    assert(e[k] == x);
                } else {
                    assert(e[e0.len() as int] == x);
                }
            }
        } else {
            assert(e == e0);
            assert forall|x: int|
                0 <= x < n && spec_good_moves(cat, v, us).contains(x) implies e.contains(x) by {
                assert(x != n - 1);
                assert(e0.contains(x));
            }
        }
    }
}

/// Two strictly ascending sequences with the same members are equal.
pub proof fn lemma_sorted_same_elements(a: Seq<int>, b: Seq<int>)
    requires
        forall|k1: int, k2: int| 0 <= k1 < k2 < a.len() ==> a[k1] < a[k2],
        forall|k1: int, k2: int| 0 <= k1 < k2 < b.len() ==> b[k1] < b[k2],
        forall|x: int| a.contains(x) <==> b.contains(x),
    ensures
        a == b,
    decreases a.len(),
{
    if a.len() == 0 {
        if b.len() > 0 {
            assert(b.contains(b[0]));
            assert(a.contains(b[0]));
            assert(false);
        }
        assert(a =~= b);
    } else {
        assert(a.contains(a[0]));
        assert(b.contains(a[0]));
        assert(b.len() > 0);
        assert(b.contains(b[0]));
        assert(a.contains(b[0]));
        let ja = choose|j: int| 0 <= j < a.len() && a[j] == b[0];
        let jb = choose|j: int| 0 <= j < b.len() && b[j] == a[0];
        assert(a[0] <= a[ja] && b[0] <= b[jb]);
        assert(a[0] == b[0]);
        let at = a.skip(1);
        let bt = b.skip(1);
        assert forall|k1: int, k2: int| 0 <= k1 < k2 < at.len() implies at[k1] < at[k2] by {
            assert(at[k1] == a[k1 + 1] && at[k2] == a[k2 + 1]);
        }
        assert forall|k1: int, k2: int| 0 <= k1 < k2 < bt.len() implies bt[k1] < bt[k2] by {
            assert(bt[k1] == b[k1 + 1] && bt[k2] == b[k2 + 1]);
        }
        assert forall|x: int| at.contains(x) implies bt.contains(x) by {
            let k = choose|k: int| 0 <= k < at.len() && at[k] == x;
            assert(a[k + 1] == x);
            assert(a.contains(x));
            assert(a[0] < x);
            assert(b.contains(x));
            let j = choose|j: int| 0 <= j < b.len() && b[j] == x;
            assert(j != 0);
            assert(bt[j - 1] == x);
        }
        assert forall|x: int| bt.contains(x) implies at.contains(x) by {
            let k = choose|k: int| 0 <= k < bt.len() && bt[k] == x;
            assert(b[k + 1] == x);
            assert(b.contains(x));
            assert(b[0] < x);
            assert(a.contains(x));
            let j = choose|j: int| 0 <= j < a.len() && a[j] == x;
            assert(j != 0);
            assert(at[j - 1] == x);
        }
        lemma_sorted_same_elements(at, bt);
        assert forall|i: int| 0 <= i < a.len() implies a[i] == b[i] by {
            if i > 0 {
                assert(a[i] == at[i - 1] && b[i] == bt[i - 1]);
            }
        }
        assert(a =~= b);
    }
}


/// Candidate moves are always empty cells.
pub proof fn lemma_good_moves_subset_empty(cat: LineCatalog, v: BoardV, us: int)
    ensures
        forall|x: int|
            spec_good_moves(cat, v, us).contains(x) ==> 0 <= x < 256 && v.slots[x] == 0,
{
}

/// All-zero count pairs give a zero danger picture.
proof fn lemma_bd_zero(counts: Seq<(int, int)>, us: int, n: int)
    requires
        forall|l: int| 0 <= l < n ==> #[trigger] counts[l] == (0int, 0int),
    ensures
        spec_board_danger(counts, us, n) == (0int, 0int),
    decreases n,
{
    if n > 0 {
        lemma_bd_zero(counts, us, n - 1);
    }
}

/// On a fully empty board every one of the 256 cells is a candidate.
pub proof fn lemma_good_moves_empty_board(cat: LineCatalog, v: BoardV, us: int)
    requires
        wf_v(v, cat),
        forall|i: int| 0 <= i < 256 ==> v.slots[i] == 0,
    ensures
        spec_good_moves(cat, v, us) == Set::new(|i: int| 0 <= i < 256),
{
    assert forall|l: int| 0 <= l < v.counts.len() implies #[trigger] v.counts[l] == (
    0int,
    0int,
    ) by {
        assert(occ(v.slots, cat.lines@[l], 1) == 0);
        assert(occ(v.slots, cat.lines@[l], 2) == 0);
    }
    lemma_bd_zero(v.counts, us, v.counts.len() as int);
    assert(spec_good_moves(cat, v, us) =~= Set::new(|i: int| 0 <= i < 256));
}


/// A positive own-threat maximum is attained by some line.
proof fn lemma_bd_attained1(counts: Seq<(int, int)>, us: int, n: int)
    requires
        spec_board_danger(counts, us, n).1 > 0,
    ensures
        exists|l: int|
            0 <= l < n && spec_line_danger(us, #[trigger] counts[l]).1 == spec_board_danger(
                counts,
                us,
                n,
            ).1,
    decreases n,
{
    if n > 0 {
        let d = spec_line_danger(us, counts[n - 1]);
        let rest = spec_board_danger(counts, us, n - 1);
        if d.1 > rest.1 {
            assert(spec_line_danger(us, counts[n - 1]).1 == spec_board_danger(counts, us, n).1);
        } else {
            lemma_bd_attained1(counts, us, n - 1);
            let l = choose|l: int|
                0 <= l < n - 1 && spec_line_danger(us, #[trigger] counts[l]).1 == rest.1;
            assert(spec_line_danger(us, counts[l]).1 == spec_board_danger(counts, us, n).1);
        }
    }
}

/// A positive threat-against maximum is attained by some line.
proof fn lemma_bd_attained0(counts: Seq<(int, int)>, us: int, n: int)
    requires
        spec_board_danger(counts, us, n).0 > 0,
    ensures
        exists|l: int|
            0 <= l < n && spec_line_danger(us, #[trigger] counts[l]).0 == spec_board_danger(
                counts,
                us,
                n,
            ).0,
    decreases n,
{
    if n > 0 {
        let d = spec_line_danger(us, counts[n - 1]);
        let rest = spec_board_danger(counts, us, n - 1);
        if d.0 > rest.0 {
            assert(spec_line_danger(us, counts[n - 1]).0 == spec_board_danger(counts, us, n).0);
        } else {
            lemma_bd_attained0(counts, us, n - 1);
            let l = choose|l: int|
                0 <= l < n - 1 && spec_line_danger(us, #[trigger] counts[l]).0 == rest.0;
            assert(spec_line_danger(us, counts[l]).0 == spec_board_danger(counts, us, n).0);
        }
    }
}

/// A line on which one player alone holds fewer than four cells has
/// an empty cell.
proof fn lemma_line_has_empty_cell(cat: LineCatalog, v: BoardV, l: int)
    requires
        cat.wf(),
        wf_v(v, cat),
        0 <= l < v.counts.len(),
        v.counts[l].0 + v.counts[l].1 < 4,
    ensures
        exists|j: int| 0 <= j < 4 && v.slots[(#[trigger] cat.lines@[l][j]) as int] == 0,
{
    let ln = cat.lines@[l];
    if forall|j: int| 0 <= j < 4 ==> v.slots[(#[trigger] ln[j]) as int] != 0 {
        assert forall|j: int| 0 <= j < 4 implies ind(v.slots, ln[j], 1) + ind(
            v.slots,
            ln[j],
            2,
        ) == 1 by {
            assert(0 <= v.slots[ln[j] as int] <= 2);
            assert(v.slots[ln[j] as int] != 0);
        }
        assert(occ(v.slots, ln, 1) + occ(v.slots, ln, 2) == 4);
        assert(false);
    }
}

/// While nobody has won and some cell is still empty, there is always
/// a candidate move: the policy's fallback cell can only arise on a
/// fully occupied board.
pub proof fn lemma_good_moves_nonempty(cat: LineCatalog, v: BoardV, us: int)
    requires
        cat.wf(),
        wf_v(v, cat),
        us == 1 || us == 2,
        v.winner is None,
        exists|i: int| 0 <= i < 256 && #[trigger] v.slots[i] == 0,
    ensures
        exists|x: int| spec_good_moves(cat, v, us).contains(x),
{
    let n = v.counts.len() as int;
    let d = spec_board_danger(v.counts, us, n);
    if d.0 == d.1 {
        let i = choose|i: int| 0 <= i < 256 && #[trigger] v.slots[i] == 0;
        assert(spec_good_moves(cat, v, us).contains(i));
    } else {
        let wh: int = if d.0 < d.1 {
            1int
        } else {
            0int
        };
        let t = if d.0 < d.1 {
            d.1
        } else {
            d.0
        };
        if d.0 < d.1 {
            lemma_bd_attained1(v.counts, us, n);
        } else {
            lemma_bd_attained0(v.counts, us, n);
        }
        let l = choose|l: int|
            0 <= l < n && (if wh == 0 {
                spec_line_danger(us, #[trigger] v.counts[l]).0
            } else {
                spec_line_danger(us, v.counts[l]).1
            }) == t;
        assert(dcomp(us, v.counts[l], wh) == t);
        // the attained line is occupied by one player alone, below four
        assert(v.counts[l].0 == 4 || v.counts[l].1 == 4 ==> v.winner is Some);
        assert(v.counts[l].0 + v.counts[l].1 < 4) by {
            if wh == 1 {
                assert(spec_line_danger(us, v.counts[l]).1 == t && t > 0);
            } else {
                assert(spec_line_danger(us, v.counts[l]).0 == t && t > 0);
            }
        }
        lemma_line_has_empty_cell(cat, v, l);
        let j = choose|j: int| 0 <= j < 4 && v.slots[(#[trigger] cat.lines@[l][j]) as int] == 0;
        let x = cat.lines@[l][j] as int;
        assert(crate::catalog::line_has_cell(cat.lines@[l], x));
        assert(danger_cells(cat, v, us, wh, t).contains(x));
        assert(spec_good_moves(cat, v, us).contains(x));
    }
}

/// A componentwise larger threat-against picture gives at least as
/// large a maximum threat-against component.
proof fn lemma_bd_mono0(c1: Seq<(int, int)>, c2: Seq<(int, int)>, us: int, n: int)
    requires
        forall|l: int|
            0 <= l < n ==> spec_line_danger(us, #[trigger] c2[l]).0 >= spec_line_danger(
                us,
                #[trigger] c1[l],
            ).0,
    ensures
        spec_board_danger(c2, us, n).0 >= spec_board_danger(c1, us, n).0,
    decreases n,
{
    if n > 0 {
        lemma_bd_mono0(c1, c2, us, n - 1);
    }
}

/// A componentwise larger own-threat picture gives at least as large
/// a maximum own-threat component.
proof fn lemma_bd_mono1(c1: Seq<(int, int)>, c2: Seq<(int, int)>, us: int, n: int)
    requires
        forall|l: int|
            0 <= l < n ==> spec_line_danger(us, #[trigger] c2[l]).1 >= spec_line_danger(
                us,
                #[trigger] c1[l],
            ).1,
    ensures
        spec_board_danger(c2, us, n).1 >= spec_board_danger(c1, us, n).1,
    decreases n,
{
    if n > 0 {
        lemma_bd_mono1(c1, c2, us, n - 1);
    }
}

/// A player's claim never weakens that player's threat picture: the
/// board's own-threat component for the claimer, and the
/// threat-against component seen by the opponent, are at least what
/// they were before the claim.
pub proof fn lemma_danger_monotone(cat: LineCatalog, v: BoardV, c: int, p: int)
    requires
        cat.wf(),
        wf_v(v, cat),
        0 <= c < 256,
        v.slots[c] == 0,
        p == 1 || p == 2,
    ensures
        spec_board_danger(spec_apply(cat, v, c, p).counts, p, v.counts.len() as int).1
            >= spec_board_danger(v.counts, p, v.counts.len() as int).1,
        spec_board_danger(spec_apply(cat, v, c, p).counts, 3 - p, v.counts.len() as int).0
            >= spec_board_danger(v.counts, 3 - p, v.counts.len() as int).0,
{
    let w = spec_apply(cat, v, c, p);
    assert forall|l: int|
        0 <= l < v.counts.len() implies spec_line_danger(p, #[trigger] w.counts[l]).1
        >= spec_line_danger(p, #[trigger] v.counts[l]).1 by {}
    lemma_bd_mono1(v.counts, w.counts, p, v.counts.len() as int);
    assert forall|l: int|
        0 <= l < v.counts.len() implies spec_line_danger(3 - p, #[trigger] w.counts[l]).0
        >= spec_line_danger(3 - p, #[trigger] v.counts[l]).0 by {}
    lemma_bd_mono0(v.counts, w.counts, 3 - p, v.counts.len() as int);
}

impl Board {
    /// Classifies one occupied line for player `us`: dead, a threat
    /// against us, or our own threat. A line with no occupant at all
    /// is a contract violation and is excluded by precondition.
    pub fn line_danger(us: Player, line: &[u8; 2]) -> (r: (u8, u8))
        requires
            us.is_real(),
            line[0] > 0 || line[1] > 0,
        ensures
            (r.0 as int, r.1 as int) == spec_line_danger(
                us.0 as int,
                (line[0] as int, line[1] as int),
            ),
    {
        let ui = us.index();
        let mine = if ui == 0 {
            line[0]
        } else {
            line[1]
        };
        let theirs = if ui == 0 {
            line[1]
        } else {
            line[0]
        };
        if theirs > 0 && mine > 0 {
            (0, 0)
        } else if theirs > 0 {
            (theirs, 0)
        } else {
            (0, mine)
        }
    }

    /// The strongest threat against `us` and the strongest threat by
    /// `us`, over all occupied lines.
    pub fn board_danger(&self, us: Player) -> (r: (u8, u8))
        requires
            us.is_real(),
        ensures
            (r.0 as int, r.1 as int) == spec_board_danger(
                self@.counts,
                us.0 as int,
                self@.counts.len() as int,
            ),
    {
        let mut our_danger: u8 = 0;
        let mut their_danger: u8 = 0;
        let n = self.line_occupation.len();
        let mut l: usize = 0;
        while l < n
            invariant
                us.is_real(),
                n == self@.counts.len(),
                l <= n,
                (our_danger as int, their_danger as int) == spec_board_danger(
                    self@.counts,
                    us.0 as int,
                    l as int,
                ),
            decreases n - l,
        {
            let pair = self.line_occupation[l];
            proof {
                assert(self@.counts[l as int] == (pair[0] as int, pair[1] as int));
            }
            if pair[0] > 0 || pair[1] > 0 {
                let d = Board::line_danger(us, &pair);
                if d.0 > our_danger {
                    our_danger = d.0;
                }
                if d.1 > their_danger {
                    their_danger = d.1;
                }
            } else {
                proof {
                    assert(spec_line_danger(us.0 as int, self@.counts[l as int]) == (0int, 0int));
                }
            }
            l += 1;
        }
        (our_danger, their_danger)
    }

    /// The candidate cells for `us`, as a 256-bit set.
    pub fn good_moves(&self, cat: &LineCatalog, us: Player) -> (r: FixedBitSet)
        requires
            cat.wf(),
            self.wf(*cat),
            us.is_real(),
        ensures
            bit_len(r) == 256,
            bits_of(r) == spec_good_moves(*cat, self@, us.0 as int),
    {
        let ghost v = self@;
        let ghost usi = us.0 as int;
        let (our_danger, their_danger) = self.board_danger(us);
        let mut unoccupied = fbs_with_capacity(256);
        let mut i: usize = 0;
        while i < 256
            invariant
                i <= 256,
                v == self@,
                v.slots.len() == 256,
                self.slots@.len() == 256,
                bit_len(unoccupied) == 256,
                bits_of(unoccupied) == Set::new(|x: int| 0 <= x < i && v.slots[x] == 0),
            decreases 256 - i,
        {
            let ghost s0 = bits_of(unoccupied);
            if self.slots[i].0 == 0 {
                fbs_insert(&mut unoccupied, i);
                proof {
                    assert(v.slots[i as int] == 0);
                    assert(bits_of(unoccupied) =~= Set::new(
                        |x: int| 0 <= x < i + 1 && v.slots[x] == 0,
                    ));
                }
            } else {
                proof {
                    assert(v.slots[i as int] != 0);
                    assert(bits_of(unoccupied) =~= Set::new(
                        |x: int| 0 <= x < i + 1 && v.slots[x] == 0,
                    ));
                }
            }
            i += 1;
        }
        proof {
            assert(bits_of(unoccupied) =~= spec_empties(v));
        }
        if our_danger == their_danger {
            return unoccupied;
        }
        let which_attack = our_danger < their_danger;
        let target: u8 = if which_attack {
            their_danger
        } else {
            our_danger
        };
        let ghost wh: int = if which_attack {
            1int
        } else {
            0int
        };
        proof {
            assert(target as int >= 1);
        }
        let mut slots_fbs = fbs_with_capacity(256);
        let n = self.line_occupation.len();
        let mut l: usize = 0;
        while l < n
            invariant
                cat.wf(),
                self.wf(*cat),
                us.is_real(),
                usi == us.0 as int,
                v == self@,
                n == v.counts.len(),
                l <= n,
                target as int >= 1,
                bit_len(slots_fbs) == 256,
                wh == (if which_attack { 1int } else { 0int }),
                bits_of(slots_fbs) == Set::new(
                    |x: int|
                        0 <= x < 256 && exists|l2: int|
                            0 <= l2 < l && dcomp(usi, #[trigger] v.counts[l2], wh) == target as int
                                && line_has_cell(cat.lines@[l2], x),
                ),
            decreases n - l,
        {
            let ghost sprev = bits_of(slots_fbs);
            let pair = self.line_occupation[l];
            proof {
                assert(v.counts[l as int] == (pair[0] as int, pair[1] as int));
            }
            let matched = if pair[0] > 0 || pair[1] > 0 {
                let d = Board::line_danger(us, &pair);
                let comp = if which_attack {
                    d.1
                } else {
                    d.0
                };
                comp == target
            } else {
                false
            };
            proof {
                if !(pair[0] > 0 || pair[1] > 0) {
                    assert(spec_line_danger(usi, v.counts[l as int]) == (0int, 0int));
                }
                assert(matched == (dcomp(usi, v.counts[l as int], wh) == target as int));
            }
            if matched {
                let cells = cat.lines[l];
                fbs_insert(&mut slots_fbs, cells[0] as usize);
                fbs_insert(&mut slots_fbs, cells[1] as usize);
                fbs_insert(&mut slots_fbs, cells[2] as usize);
                fbs_insert(&mut slots_fbs, cells[3] as usize);
                proof {
                    let ln = cat.lines@[l as int];
                    assert(bits_of(slots_fbs) == sprev.insert(ln[0] as int).insert(
                        ln[1] as int,
                    ).insert(ln[2] as int).insert(ln[3] as int));
                    assert forall|x: int|
                        bits_of(slots_fbs).contains(x) == (sprev.contains(x) || line_has_cell(
                            ln,
                            x,
                        )) by {
                        if line_has_cell(ln, x) {
                            let j = choose|j: int| 0 <= j < 4 && ln[j] == x;
                            assert(bits_of(slots_fbs).contains(ln[j] as int));
                        }
                    }
                }
            }
            proof {
                let snext = Set::new(
                    |x: int|
                        0 <= x < 256 && exists|l2: int|
                            0 <= l2 < l + 1 && dcomp(usi, #[trigger] v.counts[l2], wh) == target
                                as int && line_has_cell(cat.lines@[l2], x),
                );
                assert forall|x: int| snext.contains(x) implies bits_of(slots_fbs).contains(
                    x,
                ) by {
                    let l2 = choose|l2: int|
                        0 <= l2 < l + 1 && dcomp(usi, #[trigger] v.counts[l2], wh) == target as int
                            && line_has_cell(cat.lines@[l2], x);
                    if l2 < l {
                        assert(sprev.contains(x));
                    } else {
                        assert(matched);
                    }
                }
                assert forall|x: int| bits_of(slots_fbs).contains(x) implies snext.contains(
                    x,
                ) by {
                    if sprev.contains(x) {
                        let l2 = choose|l2: int|
                            0 <= l2 < l && dcomp(usi, #[trigger] v.counts[l2], wh) == target as int
                                && line_has_cell(cat.lines@[l2], x);
                        assert(0 <= l2 < l + 1 && dcomp(usi, v.counts[l2], wh) == target as int
                            && line_has_cell(cat.lines@[l2], x));
                    } else {
                        assert(matched && line_has_cell(cat.lines@[l as int], x));
                        assert(0 <= x < 256);
                        assert(dcomp(usi, v.counts[l as int], wh) == target as int
                            && line_has_cell(cat.lines@[l as int], x));
                    }
                }
                assert(bits_of(slots_fbs) =~= snext);
            }
            l += 1;
        }
        proof {
            assert(bits_of(slots_fbs) =~= danger_cells(*cat, v, usi, wh, target as int));
        }
        fbs_intersect_with(&mut slots_fbs, &unoccupied);
        proof {
            assert(bits_of(slots_fbs) == spec_good_moves(*cat, v, usi));
        }
        slots_fbs
    }

    /// The candidate cells for `us`, in ascending cell order.
    pub fn good_moves_list(&self, cat: &LineCatalog, us: Player) -> (r: Vec<u8>)
        requires
            cat.wf(),
            self.wf(*cat),
            us.is_real(),
        ensures
            r@.map_values(|c: u8| c as int) == spec_good_list(*cat, self@, us.0 as int),
    {
        let fbs = self.good_moves(cat, us);
        let ones = fbs_ones(&fbs);
        let ghost gset = spec_good_moves(*cat, self@, us.0 as int);
        let ghost glist = spec_good_list(*cat, self@, us.0 as int);
        let ghost va = ones@.map_values(|u: usize| u as int);
        proof {
            lemma_good_moves_in_range(*cat, self@, us.0 as int);
            lemma_goods_upto_props(*cat, self@, us.0 as int, 256);
            assert forall|k1: int, k2: int| 0 <= k1 < k2 < va.len() implies va[k1] < va[k2] by {
                assert(ones@[k1] < ones@[k2]);
            }
            assert forall|x: int| va.contains(x) implies glist.contains(x) by {
                let k = choose|k: int| 0 <= k < va.len() && va[k] == x;
                assert(bits_of(fbs).contains(ones@[k] as int));
                assert(gset.contains(x));
                assert(0 <= x < 256);
            }
            assert forall|x: int| glist.contains(x) implies va.contains(x) by {
                let k = choose|k: int| 0 <= k < glist.len() && glist[k] == x;
                assert(gset.contains(x));
                assert(bits_of(fbs).contains(x));
                let j = choose|j: int| 0 <= j < ones@.len() && ones@[j] as int == x;
                assert(va[j] == x);
            }
            lemma_sorted_same_elements(va, glist);
        }
        let mut r: Vec<u8> = Vec::new();
        let mut k: usize = 0;
        let m = ones.len();
        while k < m
            invariant
            m == ones@.len(),
                k <= m,
                r@.len() == k,
                va == ones@.map_values(|u: usize| u as int),
                forall|x: int| va.contains(x) ==> 0 <= x < 256,
                forall|j: int| 0 <= j < k ==> r@[j] as int == ones@[j] as int,
            decreases m - k,
        {
            let c = ones[k];
            proof {
                assert(va[k as int] == ones@[k as int] as int);
                assert(va.contains(va[k as int]));
            }
            r.push(c as u8);
            k += 1;
        }
        proof {
            assert forall|j: int| 0 <= j < r@.len() implies r@.map_values(|c: u8| c as int)[j]
                == va[j] by {
                assert(r@[j] as int == ones@[j] as int);
            }
            assert(r@.map_values(|c: u8| c as int) =~= va);
        }
        r
    }
}

} // verus!
