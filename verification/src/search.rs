use vstd::prelude::*;
use crate::Player;
use crate::coord::Coord;
use crate::board::{Board, BoardV, wf_v, spec_apply, occ};
use crate::catalog::LineCatalog;
use crate::danger::{
    spec_board_danger, spec_good_list, spec_good_moves, lemma_goods_upto_props,
    lemma_good_moves_subset_empty, lemma_good_moves_in_range,
};

verus! {

/// The value of winning: large enough to dominate any heuristic
/// score, whose magnitude never exceeds four.
pub open spec fn win_score() -> int {
    64
}

/// The value the depth-limited search assigns to a position, for the
/// player to move, with a sign multiplier `m` that flips at each ply:
/// an immediate win or loss dominates; at the horizon the danger
/// heuristic decides; otherwise the maximum over the candidate moves
/// of the negated value of the position after the move, with
/// fail-soft alpha-beta pruning.
pub open spec fn spec_negamax(
    cat: LineCatalog,
    v: BoardV,
    depth: nat,
    alpha: int,
    beta: int,
    pl: int,
    m: int,
) -> int
    decreases depth, 1int, 0int,
{
    if v.winner is Some {
        if v.winner == Some(pl) {
            m * win_score()
        } else {
            m * -win_score()
        }
    } else if depth == 0 {
        let d = spec_board_danger(v.counts, pl, v.counts.len() as int);
        m * (d.1 - d.0)
    } else {
        spec_nega_loop(cat, v, depth, alpha, beta, pl, m, spec_good_list(cat, v, pl), 0, -127)
    }
}

/// One pass over the candidate moves: the running maximum of the
/// negated child values, raising alpha as it goes and stopping at the
/// alpha-beta cutoff.
pub open spec fn spec_nega_loop(
    cat: LineCatalog,
    v: BoardV,
    depth: nat,
    alpha: int,
    beta: int,
    pl: int,
    m: int,
    moves: Seq<int>,
    i: int,
    value: int,
) -> int
    decreases depth, 0int, moves.len() - i,
{
    if i < 0 || i >= moves.len() || depth == 0 {
        value
    } else {
        let child = spec_apply(cat, v, moves[i], pl);
        let sub = spec_negamax(cat, child, (depth - 1) as nat, -beta, -alpha, 3 - pl, -m);
        let nv = if -sub > value {
            -sub
        } else {
            value
        };
        let na = if nv > alpha {
            nv
        } else {
            alpha
        };
        if na >= beta {
            nv
        } else {
            spec_nega_loop(cat, v, depth, na, beta, pl, m, moves, i + 1, nv)
        }
    }
}

/// Occupancy counts recorded by a well-formed board lie between zero
/// and the line length.
pub proof fn lemma_wf_count_bounds(cat: LineCatalog, v: BoardV)
    requires
        wf_v(v, cat),
    ensures
        forall|l: int|
            0 <= l < v.counts.len() ==> 0 <= (#[trigger] v.counts[l]).0 <= 4 && 0 <= v.counts[l].1
                <= 4,
{
    assert forall|l: int|
        0 <= l < v.counts.len() implies 0 <= (#[trigger] v.counts[l]).0 <= 4 && 0
        <= v.counts[l].1 <= 4 by {
        assert(0 <= occ(v.slots, cat.lines@[l], 1) <= 4);
        assert(0 <= occ(v.slots, cat.lines@[l], 2) <= 4);
    }
}

/// With all counts in range, both danger maxima lie between zero and
/// the line length.
pub proof fn lemma_bd_bounds(counts: Seq<(int, int)>, us: int, n: int)
    requires
        forall|l: int|
            0 <= l < n ==> 0 <= (#[trigger] counts[l]).0 <= 4 && 0 <= counts[l].1 <= 4,
    ensures
        0 <= spec_board_danger(counts, us, n).0 <= 4,
        0 <= spec_board_danger(counts, us, n).1 <= 4,
    decreases n,
{
    if n > 0 {
        lemma_bd_bounds(counts, us, n - 1);
    }
}

/// The depth-limited, alpha-beta-pruned negamax value of a position.
pub fn negamax(
    cat: &LineCatalog,
    board: Board,
    depth: u8,
    alpha: i8,
    beta: i8,
    player: Player,
    m: i8,
) -> (r: i8)
    requires
        cat.wf(),
        board.wf(*cat),
        player.is_real(),
        m == 1 || m == -1,
        -127 <= alpha <= 127,
        -127 <= beta <= 127,
    ensures
        r as int == spec_negamax(
            *cat,
            board@,
            depth as nat,
            alpha as int,
            beta as int,
            player.0 as int,
            m as int,
        ),
        -127 <= r <= 127,
    decreases depth,
{
    match board.winner {
        Some(id) => {
            if id.0 == player.0 {
                return m * 64;
            } else {
                return m * -64;
            }
        },
        None => {},
    }
    if depth == 0 {
        let d = board.board_danger(player);
        proof {
            lemma_wf_count_bounds(*cat, board@);
            lemma_bd_bounds(board@.counts, player.0 as int, board@.counts.len() as int);
        }
        return m * (d.1 as i8 - d.0 as i8);
    }
    let moves = board.good_moves_list(cat, player);
    let ghost mseq = moves@.map_values(|c: u8| c as int);
    let ghost pl = player.0 as int;
    let ghost mi = m as int;
    let ghost result = spec_negamax(
        *cat,
        board@,
        depth as nat,
        alpha as int,
        beta as int,
        pl,
        mi,
    );
    proof {
        assert(result == spec_nega_loop(
            *cat,
            board@,
            depth as nat,
            alpha as int,
            beta as int,
            pl,
            mi,
            mseq,
            0,
            -127,
        ));
    }
    let mut value: i8 = -127;
    let mut al = alpha;
    let n = moves.len();
    let mut k: usize = 0;
    while k < n
        invariant_except_break
            cat.wf(),
            board.wf(*cat),
            player.is_real(),
            pl == player.0 as int,
            m == 1 || m == -1,
            mi == m as int,
            -127 <= al <= 127,
            -127 <= beta <= 127,
            -127 <= value <= 127,
            depth >= 1,
            n == moves@.len(),
            k <= n,
            mseq == moves@.map_values(|c: u8| c as int),
            mseq == spec_good_list(*cat, board@, pl),
            result == spec_nega_loop(
                *cat,
                board@,
                depth as nat,
                al as int,
                beta as int,
                pl,
                mi,
                mseq,
                k as int,
                value as int,
            ),
        ensures
            -127 <= value <= 127,
            value as int == result,
        decreases n - k,
    {
        let c = moves[k];
        proof {
            assert(mseq[k as int] == c as int);
            lemma_goods_upto_props(*cat, board@, pl, 256);
            assert(spec_good_moves(*cat, board@, pl).contains(c as int));
            lemma_good_moves_subset_empty(*cat, board@, pl);
            assert(board@.slots[c as int] == 0);
        }
        let mut child = board.duplicate();
        child.set(cat, Coord(c), player);
        let sub = negamax(cat, child, depth - 1, -beta, -al, player.opponent(), -m);
        let ghost al_old = al as int;
        let ghost value_old = value as int;
        let nsub = -sub;
        if nsub > value {
            value = nsub;
        }
        if value > al {
            al = value;
        }
        proof {
            assert(child@ == spec_apply(*cat, board@, mseq[k as int], pl));
            assert(sub as int == spec_negamax(
                *cat,
                child@,
                (depth - 1) as nat,
                -(beta as int),
                -al_old,
                3 - pl,
                -mi,
            ));
            assert(result == spec_nega_loop(
                *cat,
                board@,
                depth as nat,
                al_old,
                beta as int,
                pl,
                mi,
                mseq,
                k as int,
                value_old,
            ));
        }
        if al >= beta {
            proof {
                assert(value as int == result);
            }
            break;
        }
        proof {
            assert(result == spec_nega_loop(
                *cat,
                board@,
                depth as nat,
                al as int,
                beta as int,
                pl,
                mi,
                mseq,
                k + 1,
                value as int,
            ));
        }
        k += 1;
    }
    value
}


/// The owner number with the two players exchanged; the empty marker
/// stays.
pub open spec fn swap_owner(x: int) -> int {
    if x == 1 {
        2
    } else if x == 2 {
        1
    } else {
        x
    }
}

/// The board with the two players' assignments exchanged everywhere:
/// cell owners, per-line count pairs, and the winner.
pub open spec fn swap_board(v: BoardV) -> BoardV {
    BoardV {
        slots: v.slots.map_values(|x: int| swap_owner(x)),
        counts: v.counts.map_values(|pr: (int, int)| (pr.1, pr.0)),
        winner: match v.winner {
            Some(p) => Some(swap_owner(p)),
            None => None,
        },
    }
}

/// Exchanging the players exchanges the count pair and the viewer:
/// the danger picture is unchanged.
pub proof fn lemma_swap_board_danger(v: BoardV, p: int, n: int)
    requires
        p == 1 || p == 2,
        n <= v.counts.len(),
    ensures
        spec_board_danger(swap_board(v).counts, 3 - p, n) == spec_board_danger(v.counts, p, n),
    decreases n,
{
    if n > 0 {
        lemma_swap_board_danger(v, p, n - 1);
        assert(swap_board(v).counts[n - 1] == (v.counts[n - 1].1, v.counts[n - 1].0));
    }
}

/// Exchanging the players leaves each danger-cell set unchanged.
pub proof fn lemma_swap_danger_cells(cat: LineCatalog, v: BoardV, p: int, wh: int, t: int)
    requires
        p == 1 || p == 2,
    ensures
        crate::danger::danger_cells(cat, swap_board(v), 3 - p, wh, t) == crate::danger::danger_cells(
            cat,
            v,
            p,
            wh,
            t,
        ),
{
    let sv = swap_board(v);
    assert forall|l: int|
        0 <= l < v.counts.len() implies crate::danger::dcomp(3 - p, #[trigger] sv.counts[l], wh)
        == crate::danger::dcomp(p, #[trigger] v.counts[l], wh) by {
        assert(sv.counts[l] == (v.counts[l].1, v.counts[l].0));
    }
    assert forall|x: int|
        crate::danger::danger_cells(cat, sv, 3 - p, wh, t).contains(x)
            == crate::danger::danger_cells(cat, v, p, wh, t).contains(x) by {
        if crate::danger::danger_cells(cat, sv, 3 - p, wh, t).contains(x) {
            let l = choose|l: int|
                0 <= l < sv.counts.len() && crate::danger::dcomp(3 - p, #[trigger] sv.counts[l], wh)
                    == t && crate::catalog::line_has_cell(cat.lines@[l], x);
            assert(crate::danger::dcomp(p, v.counts[l], wh) == t);
            assert(crate::danger::danger_cells(cat, v, p, wh, t).contains(x));
        }
        if crate::danger::danger_cells(cat, v, p, wh, t).contains(x) {
            let l = choose|l: int|
                0 <= l < v.counts.len() && crate::danger::dcomp(p, #[trigger] v.counts[l], wh) == t
                    && crate::catalog::line_has_cell(cat.lines@[l], x);
            assert(crate::danger::dcomp(3 - p, sv.counts[l], wh) == t);
            assert(crate::danger::danger_cells(cat, sv, 3 - p, wh, t).contains(x));
        }
    }
    assert(crate::danger::danger_cells(cat, sv, 3 - p, wh, t) =~= crate::danger::danger_cells(
        cat,
        v,
        p,
        wh,
        t,
    ));
}

/// Exchanging the players leaves the candidate-move set unchanged.
pub proof fn lemma_swap_good_moves(cat: LineCatalog, v: BoardV, p: int)
    requires
        p == 1 || p == 2,
        v.slots.len() == 256,
    ensures
        spec_good_moves(cat, swap_board(v), 3 - p) == spec_good_moves(cat, v, p),
{
    let sv = swap_board(v);
    lemma_swap_board_danger(v, p, v.counts.len() as int);
    assert forall|i: int| 0 <= i < 256 implies (crate::danger::spec_empties(sv).contains(i)
        == crate::danger::spec_empties(v).contains(i)) by {
        assert(sv.slots[i] == swap_owner(v.slots[i]));
    }
    assert(crate::danger::spec_empties(sv) =~= crate::danger::spec_empties(v));
    let d = spec_board_danger(v.counts, p, v.counts.len() as int);
    if d.0 != d.1 {
        if d.0 < d.1 {
            lemma_swap_danger_cells(cat, v, p, 1, d.1);
        } else {
            lemma_swap_danger_cells(cat, v, p, 0, d.0);
        }
    }
}

/// Exchanging the players leaves the ordered candidate list unchanged.
pub proof fn lemma_swap_good_list(cat: LineCatalog, v: BoardV, p: int, n: int)
    requires
        p == 1 || p == 2,
        v.slots.len() == 256,
    ensures
        crate::danger::goods_upto(cat, swap_board(v), 3 - p, n) == crate::danger::goods_upto(
            cat,
            v,
            p,
            n,
        ),
    decreases n,
{
    if n > 0 {
        lemma_swap_good_list(cat, v, p, n - 1);
        lemma_swap_good_moves(cat, v, p);
    }
}

/// A claim commutes with exchanging the players.
pub proof fn lemma_swap_apply(cat: LineCatalog, v: BoardV, c: int, p: int)
    requires
        p == 1 || p == 2,
        0 <= c < v.slots.len(),
    ensures
        spec_apply(cat, swap_board(v), c, 3 - p) == swap_board(spec_apply(cat, v, c, p)),
{
    let sv = swap_board(v);
    let a = spec_apply(cat, sv, c, 3 - p);
    let b = swap_board(spec_apply(cat, v, c, p));
    assert forall|i: int| 0 <= i < a.slots.len() implies a.slots[i] == b.slots[i] by {
        if i != c {
            assert(a.slots[i] == swap_owner(v.slots[i]));
        }
    }
    assert(a.slots =~= b.slots);
    assert forall|l: int| 0 <= l < a.counts.len() implies a.counts[l] == b.counts[l] by {
        assert(sv.counts[l] == (v.counts[l].1, v.counts[l].0));
    }
    assert(a.counts =~= b.counts);
    assert forall|l: int|
        0 <= l < v.counts.len() implies (crate::catalog::line_has_cell(
        #[trigger] cat.lines@[l],
        c,
    ) && crate::board::cnt(sv, l, 3 - p) + 1 == 4) == (crate::catalog::line_has_cell(
        cat.lines@[l],
        c,
    ) && crate::board::cnt(v, l, p) + 1 == 4) by {
        assert(sv.counts[l] == (v.counts[l].1, v.counts[l].0));
    }
    if exists|l: int|
        0 <= l < v.counts.len() && crate::catalog::line_has_cell(#[trigger] cat.lines@[l], c)
            && crate::board::cnt(v, l, p) + 1 == 4 {
        let l = choose|l: int|
            0 <= l < v.counts.len() && crate::catalog::line_has_cell(#[trigger] cat.lines@[l], c)
                && crate::board::cnt(v, l, p) + 1 == 4;
        assert(crate::board::cnt(sv, l, 3 - p) + 1 == 4);
        assert(a.winner == Some(3 - p) && b.winner == Some(swap_owner(p)));
    } else {
        if exists|l: int|
            0 <= l < sv.counts.len() && crate::catalog::line_has_cell(#[trigger] cat.lines@[l], c)
                && crate::board::cnt(sv, l, 3 - p) + 1 == 4 {
            let l = choose|l: int|
                0 <= l < sv.counts.len() && crate::catalog::line_has_cell(
                    #[trigger] cat.lines@[l],
                    c,
                ) && crate::board::cnt(sv, l, 3 - p) + 1 == 4;
            assert(crate::board::cnt(v, l, p) + 1 == 4);
            assert(false);
        }
        assert(a.winner == sv.winner && b.winner == swap_board(spec_apply(cat, v, c, p)).winner);
    }
    assert(a =~= b);
}

/// Exchanging the two players' assignments across an otherwise
/// identical board, with the other player to move, yields the very
/// same search value, whatever the window, depth and sign multiplier.
pub proof fn lemma_negamax_relabel(
    cat: LineCatalog,
    v: BoardV,
    depth: nat,
    alpha: int,
    beta: int,
    p: int,
    m: int,
)
    requires
        p == 1 || p == 2,
        v.slots.len() == 256,
    ensures
        spec_negamax(cat, swap_board(v), depth, alpha, beta, 3 - p, m) == spec_negamax(
            cat,
            v,
            depth,
            alpha,
            beta,
            p,
            m,
        ),
    decreases depth, 1int, 0int,
{
    let sv = swap_board(v);
    match v.winner {
        Some(q) => {
            assert(sv.winner == Some(swap_owner(q)));
            assert((swap_owner(q) == 3 - p) == (q == p));
        },
        None => {
            if depth == 0 {
                lemma_swap_board_danger(v, p, v.counts.len() as int);
            } else {
                lemma_swap_good_list(cat, v, p, 256);
                crate::danger::lemma_goods_upto_props(cat, v, p, 256);
                crate::danger::lemma_good_moves_in_range(cat, v, p);
                lemma_nega_loop_relabel(
                    cat,
                    v,
                    depth,
                    alpha,
                    beta,
                    p,
                    m,
                    crate::danger::spec_good_list(cat, v, p),
                    0,
                    -127,
                );
            }
        },
    }
}

/// The candidate pass of the search is blind to the players' labels.
pub proof fn lemma_nega_loop_relabel(
    cat: LineCatalog,
    v: BoardV,
    depth: nat,
    alpha: int,
    beta: int,
    p: int,
    m: int,
    moves: Seq<int>,
    i: int,
    value: int,
)
    requires
        p == 1 || p == 2,
        v.slots.len() == 256,
        forall|j: int| 0 <= j < moves.len() ==> 0 <= #[trigger] moves[j] < 256,
    ensures
        spec_nega_loop(cat, swap_board(v), depth, alpha, beta, 3 - p, m, moves, i, value)
            == spec_nega_loop(cat, v, depth, alpha, beta, p, m, moves, i, value),
    decreases depth, 0int, moves.len() - i,
{
    if 0 <= i < moves.len() && depth > 0 {
        let sv = swap_board(v);
        let child = spec_apply(cat, v, moves[i], p);
        lemma_swap_apply(cat, v, moves[i], p);
        assert(spec_apply(cat, sv, moves[i], 3 - p) == swap_board(child));
        assert(child.slots.len() == 256);
        lemma_negamax_relabel(
            cat,
            child,
            (depth - 1) as nat,
            -beta,
            -alpha,
            3 - p,
            -m,
        );
        assert(3 - (3 - p) == p);
        let sub = spec_negamax(cat, child, (depth - 1) as nat, -beta, -alpha, 3 - p, -m);
        let nv = if -sub > value {
            -sub
        } else {
            value
        };
        let na = if nv > alpha {
            nv
        } else {
            alpha
        };
        if na < beta {
            lemma_nega_loop_relabel(cat, v, depth, na, beta, p, m, moves, i + 1, nv);
        }
    }
}

/// At a decided position or at the horizon the value is odd in the
/// sign multiplier: negating `m` negates the score. (In the interior
/// of the search this fails: the running maximum over candidates does
/// not commute with negation.)
pub proof fn lemma_negamax_sign_at_horizon(
    cat: LineCatalog,
    v: BoardV,
    depth: nat,
    alpha: int,
    beta: int,
    p: int,
    m: int,
)
    requires
        v.winner is Some || depth == 0,
    ensures
        spec_negamax(cat, v, depth, alpha, beta, p, -m) == -spec_negamax(
            cat,
            v,
            depth,
            alpha,
            beta,
            p,
            m,
        ),
{
    let w = win_score();
    assert((-m) * w == -(m * w)) by (nonlinear_arith);
    assert((-m) * -w == -(m * -w)) by (nonlinear_arith);
    if v.winner is None && depth == 0 {
        let d = spec_board_danger(v.counts, p, v.counts.len() as int);
        assert((-m) * (d.1 - d.0) == -(m * (d.1 - d.0))) by (nonlinear_arith);
    }
}


/// Search values never leave the sentinel window.
pub proof fn lemma_negamax_bounds(
    cat: LineCatalog,
    v: BoardV,
    depth: nat,
    alpha: int,
    beta: int,
    p: int,
    m: int,
)
    requires
        cat.wf(),
        wf_v(v, cat),
        p == 1 || p == 2,
        m == 1 || m == -1,
    ensures
        -127 <= spec_negamax(cat, v, depth, alpha, beta, p, m) <= 127,
    decreases depth, 1int, 0int,
{
    match v.winner {
        Some(_) => {},
        None => {
            if depth == 0 {
                lemma_wf_count_bounds(cat, v);
                lemma_bd_bounds(v.counts, p, v.counts.len() as int);
            } else {
                crate::danger::lemma_goods_upto_props(cat, v, p, 256);
                lemma_nega_loop_bounds(
                    cat,
                    v,
                    depth,
                    alpha,
                    beta,
                    p,
                    m,
                    spec_good_list(cat, v, p),
                    0,
                    -127,
                );
            }
        },
    }
}

/// The candidate pass keeps its running value in the sentinel window.
proof fn lemma_nega_loop_bounds(
    cat: LineCatalog,
    v: BoardV,
    depth: nat,
    alpha: int,
    beta: int,
    p: int,
    m: int,
    moves: Seq<int>,
    i: int,
    value: int,
)
    requires
        cat.wf(),
        wf_v(v, cat),
        p == 1 || p == 2,
        m == 1 || m == -1,
        -127 <= value <= 127,
        forall|j: int|
            0 <= j < moves.len() ==> spec_good_moves(cat, v, p).contains(#[trigger] moves[j]),
    ensures
        -127 <= spec_nega_loop(cat, v, depth, alpha, beta, p, m, moves, i, value) <= 127,
    decreases depth, 0int, moves.len() - i,
{
    if 0 <= i < moves.len() && depth > 0 {
        lemma_good_moves_subset_empty(cat, v, p);
        assert(0 <= moves[i] < 256 && v.slots[moves[i]] == 0);
        let child = spec_apply(cat, v, moves[i], p);
        crate::board::lemma_apply_wf(cat, v, moves[i], p);
        lemma_negamax_bounds(cat, child, (depth - 1) as nat, -beta, -alpha, 3 - p, -m);
        let sub = spec_negamax(cat, child, (depth - 1) as nat, -beta, -alpha, 3 - p, -m);
        let nv = if -sub > value {
            -sub
        } else {
            value
        };
        let na = if nv > alpha {
            nv
        } else {
            alpha
        };
        if na < beta {
            lemma_nega_loop_bounds(cat, v, depth, na, beta, p, m, moves, i + 1, nv);
        }
    }
}

/// Once the running best move is a candidate, the selector's answer
/// is a candidate.
proof fn lemma_policy_loop_stays(
    cat: LineCatalog,
    v: BoardV,
    p: int,
    depth: nat,
    moves: Seq<int>,
    i: int,
    best: int,
    best_value: int,
)
    requires
        exists|j: int| 0 <= j < moves.len() && best == #[trigger] moves[j],
    ensures
        exists|j: int|
            0 <= j < moves.len() && spec_policy_loop(cat, v, p, depth, moves, i, best, best_value)
                == #[trigger] moves[j],
    decreases moves.len() - i,
{
    if 0 <= i < moves.len() {
        let child = spec_apply(cat, v, moves[i], p);
        let score = spec_negamax(cat, child, depth, -127, 127, 3 - p, -1);
        if score > best_value {
            lemma_policy_loop_stays(cat, v, p, depth, moves, i + 1, moves[i], score);
        } else {
            lemma_policy_loop_stays(cat, v, p, depth, moves, i + 1, best, best_value);
        }
    }
}

/// Whenever any candidate move exists, the selected move is one of
/// them (and so an empty cell); the fallback cell 0 can only be
/// returned for a board without candidates.
pub proof fn lemma_policy_picks_candidate(cat: LineCatalog, v: BoardV, p: int, smarter: bool)
    requires
        cat.wf(),
        wf_v(v, cat),
        p == 1 || p == 2,
        spec_good_list(cat, v, p).len() > 0,
    ensures
        spec_good_moves(cat, v, p).contains(spec_policy(cat, v, p, smarter)),
{
    let depth: nat = if smarter {
        3nat
    } else {
        2nat
    };
    let moves = spec_good_list(cat, v, p);
    crate::danger::lemma_goods_upto_props(cat, v, p, 256);
    lemma_good_moves_subset_empty(cat, v, p);
    assert(spec_good_moves(cat, v, p).contains(moves[0]));
    let child = spec_apply(cat, v, moves[0], p);
    crate::board::lemma_apply_wf(cat, v, moves[0], p);
    lemma_negamax_bounds(cat, child, depth, -127, 127, 3 - p, -1);
    let score = spec_negamax(cat, child, depth, -127, 127, 3 - p, -1);
    assert(score > -128);
    assert(spec_policy(cat, v, p, smarter) == spec_policy_loop(
        cat,
        v,
        p,
        depth,
        moves,
        1,
        moves[0],
        score,
    ));
    lemma_policy_loop_stays(cat, v, p, depth, moves, 1, moves[0], score);
    let j = choose|j: int|
        0 <= j < moves.len() && spec_policy_loop(cat, v, p, depth, moves, 1, moves[0], score)
            == #[trigger] moves[j];
    assert(spec_good_moves(cat, v, p).contains(moves[j]));
}

/// Swapping the two players' assignment across an otherwise identical
/// decided or horizon position, with the other player to move, and
/// negating the sign multiplier yields the negated score. (At interior
/// nodes with several candidates this negation fails: the running
/// maximum over candidates does not commute with negation.)
pub proof fn lemma_negamax_swap_negation(
    cat: LineCatalog,
    v: BoardV,
    depth: nat,
    alpha: int,
    beta: int,
    p: int,
    m: int,
)
    requires
        p == 1 || p == 2,
        v.slots.len() == 256,
        v.winner is Some || depth == 0,
    ensures
        spec_negamax(cat, swap_board(v), depth, alpha, beta, 3 - p, -m) == -spec_negamax(
            cat,
            v,
            depth,
            alpha,
            beta,
            p,
            m,
        ),
{
    lemma_negamax_relabel(cat, v, depth, alpha, beta, p, -m);
    lemma_negamax_sign_at_horizon(cat, v, depth, alpha, beta, p, m);
}

/// One pass of the policy selector over the candidate first moves:
/// each candidate is scored by one negamax call with the opponent to
/// move, and the first strictly best score wins.
pub open spec fn spec_policy_loop(
    cat: LineCatalog,
    v: BoardV,
    pl: int,
    depth: nat,
    moves: Seq<int>,
    i: int,
    best: int,
    best_value: int,
) -> int
    decreases moves.len() - i,
{
    if i < 0 || i >= moves.len() {
        best
    } else {
        let child = spec_apply(cat, v, moves[i], pl);
        let score = spec_negamax(cat, child, depth, -127, 127, 3 - pl, -1);
        if score > best_value {
            spec_policy_loop(cat, v, pl, depth, moves, i + 1, moves[i], score)
        } else {
            spec_policy_loop(cat, v, pl, depth, moves, i + 1, best, best_value)
        }
    }
}

/// The cell the policy selects: the candidate move with the strictly
/// highest negamax score, earlier candidates winning ties; cell 0
/// when there is no candidate at all.
pub open spec fn spec_policy(cat: LineCatalog, v: BoardV, pl: int, smarter: bool) -> int {
    spec_policy_loop(
        cat,
        v,
        pl,
        if smarter {
            3nat
        } else {
            2nat
        },
        spec_good_list(cat, v, pl),
        0,
        0,
        -128,
    )
}

/// Picks the move for `player`: scores every candidate first move by
/// a negamax search (depth 3 when `smarter`, else 2) and returns the
/// first strictly best one.
pub fn minimax_policy(cat: &LineCatalog, board: &Board, player: Player, smarter: bool) -> (r: u8)
    requires
        cat.wf(),
        board.wf(*cat),
        player.is_real(),
    ensures
        r as int == spec_policy(*cat, board@, player.0 as int, smarter),
{
    let ghost pl = player.0 as int;
    let depth: u8 = if smarter {
        3
    } else {
        2
    };
    let ghost result = spec_policy(*cat, board@, pl, smarter);
    let moves = board.good_moves_list(cat, player);
    let ghost mseq = moves@.map_values(|c: u8| c as int);
    let mut best: u8 = 0;
    let mut best_value: i8 = -128;
    let n = moves.len();
    let mut k: usize = 0;
    while k < n
        invariant
            cat.wf(),
            board.wf(*cat),
            player.is_real(),
            pl == player.0 as int,
            depth == (if smarter { 3int } else { 2int }),
            n == moves@.len(),
            k <= n,
            -128 <= best_value <= 127,
            mseq == moves@.map_values(|c: u8| c as int),
            mseq == spec_good_list(*cat, board@, pl),
            result == spec_policy_loop(
                *cat,
                board@,
                pl,
                depth as nat,
                mseq,
                k as int,
                best as int,
                best_value as int,
            ),
        decreases n - k,
    {
        let c = moves[k];
        proof {
            assert(mseq[k as int] == c as int);
            lemma_goods_upto_props(*cat, board@, pl, 256);
            assert(spec_good_moves(*cat, board@, pl).contains(c as int));
            lemma_good_moves_subset_empty(*cat, board@, pl);
            assert(board@.slots[c as int] == 0);
        }
        let mut child = board.duplicate();
        child.set(cat, Coord(c), player);
        let score = negamax(cat, child, depth, -127, 127, player.opponent(), -1);
        proof {
            assert(child@ == spec_apply(*cat, board@, mseq[k as int], pl));
        }
        if score > best_value {
            best = c;
            best_value = score;
        }
        k += 1;
    }
    best
}

} // verus!
