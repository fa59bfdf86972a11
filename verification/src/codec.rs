use vstd::prelude::*;
use crate::Player;
use crate::board::{Board, BoardV, wf_v, occ, cnt};
use crate::catalog::LineCatalog;
use crate::search::{minimax_policy, spec_policy};

verus! {

/// The byte that stands for the winner: 0 for none, else the winning
/// player's number.
pub open spec fn winner_byte(w: Option<int>) -> int {
    match w {
        Some(p) => p,
        None => 0,
    }
}

/// The fixed binary form of a search request: the acting player, the
/// difficulty flag, the winner byte, then the 256 cell owners.
pub open spec fn spec_encode(v: BoardV, pl: int, smarter: bool) -> Seq<u8> {
    seq![
        pl as u8,
        if smarter {
            1u8
        } else {
            0u8
        },
        winner_byte(v.winner) as u8,
    ] + Seq::new(256, |i: int| v.slots[i] as u8)
}

/// The cell owners a request's bytes carry.
pub open spec fn decoded_slots(s: Seq<u8>) -> Seq<int> {
    Seq::new(256, |i: int| s[3 + i] as int)
}

/// The per-line occupancy counts of the carried cell owners.
pub open spec fn decoded_counts(cat: LineCatalog, s: Seq<u8>) -> Seq<(int, int)> {
    Seq::new(
        cat.lines@.len(),
        |l: int| (occ(decoded_slots(s), cat.lines@[l], 1), occ(decoded_slots(s), cat.lines@[l], 2)),
    )
}

/// The board a valid request carries.
pub open spec fn decoded_board(cat: LineCatalog, s: Seq<u8>) -> BoardV {
    BoardV {
        slots: decoded_slots(s),
        counts: decoded_counts(cat, s),
        winner: if s[2] == 0 {
            None
        } else {
            Some(s[2] as int)
        },
    }
}

/// A request parses exactly when it has the right length, every byte
/// is in range, and the winner byte agrees with the carried cells:
/// zero only when no line is full, a player's number only when that
/// player holds a full line.
pub open spec fn spec_request_valid(cat: LineCatalog, s: Seq<u8>) -> bool {
    &&& s.len() == 259
    &&& (s[0] == 1 || s[0] == 2)
    &&& s[1] <= 1
    &&& s[2] <= 2
    &&& forall|i: int| 0 <= i < 256 ==> (#[trigger] s[3 + i]) <= 2
    &&& (if s[2] == 0 {
        forall|l: int|
            0 <= l < decoded_counts(cat, s).len() ==> (#[trigger] decoded_counts(cat, s)[l]).0 != 4
                && decoded_counts(cat, s)[l].1 != 4
    } else {
        exists|l: int|
            0 <= l < decoded_counts(cat, s).len() && cnt(decoded_board(cat, s), l, s[2] as int)
                == 4
    })
}

/// Encodes a search request in the fixed binary form.
pub fn encode_request(board: &Board, player: Player, smarter: bool) -> (r: Vec<u8>)
    requires
        board@.slots.len() == 256,
        match board@.winner {
            Some(p) => 1 <= p <= 2,
            None => true,
        },
    ensures
        r@ == spec_encode(board@, player.0 as int, smarter),
{
    let mut r: Vec<u8> = Vec::new();
    r.push(player.0);
    r.push(if smarter {
        1
    } else {
        0
    });
    r.push(
        match board.winner {
            Some(p) => p.0,
            None => 0,
        },
    );
    let mut i: usize = 0;
    while i < 256
        invariant
            i <= 256,
            board@.slots.len() == 256,
            board.slots@.len() == 256,
            r@.len() == 3 + i,
            r@[0] == player.0,
            r@[1] == (if smarter {
                1u8
            } else {
                0u8
            }),
            r@[2] as int == winner_byte(board@.winner),
            forall|j: int| 0 <= j < i ==> (#[trigger] r@[3 + j]) as int == board@.slots[j],
        decreases 256 - i,
    {
        let owner = board.slots[i];
        proof {
            assert(owner.0 as int == board@.slots[i as int]);
        }
        r.push(owner.0);
        i += 1;
    }
    proof {
        assert forall|j: int|
            0 <= j < 259 implies r@[j] == spec_encode(board@, player.0 as int, smarter)[j] by {
            if j >= 3 {
                assert(r@[3 + (j - 3)] as int == board@.slots[j - 3]);
            }
        }
        assert(r@ =~= spec_encode(board@, player.0 as int, smarter));
    }
    r
}

/// Parses a search request; yields the carried board (with its counts
/// rebuilt and checked), the acting player and the difficulty flag,
/// or nothing when the bytes are not a valid request.
pub fn decode_request(cat: &LineCatalog, s: &Vec<u8>) -> (r: Option<(Board, Player, bool)>)
    requires
        cat.wf(),
    ensures
        r is Some <==> spec_request_valid(*cat, s@),
        r is Some ==> r.unwrap().0@ == decoded_board(*cat, s@) && r.unwrap().0.wf(*cat)
            && r.unwrap().1.0 == s@[0] && r.unwrap().1.is_real() && r.unwrap().2 == (s@[1] == 1),
{
    if s.len() != 259 {
        return None;
    }
    let pbyte = s[0];
    let fbyte = s[1];
    let wbyte = s[2];
    if !(pbyte == 1 || pbyte == 2) || fbyte > 1 || wbyte > 2 {
        return None;
    }
    let mut slots: Vec<Player> = Vec::new();
    let mut i: usize = 0;
    while i < 256
        invariant
            i <= 256,
            s@.len() == 259,
            slots@.len() == i,
            forall|j: int| 0 <= j < i ==> (#[trigger] slots@[j]).0 == s@[3 + j] && s@[3 + j] <= 2,
        decreases 256 - i,
    {
        let b = s[3 + i];
        if b > 2 {
            proof {
                assert(!(s@[3 + i as int] <= 2));
                assert(!spec_request_valid(*cat, s@));
            }
            return None;
        }
        slots.push(Player(b));
        i += 1;
    }
    let ghost sv = decoded_slots(s@);
    proof {
        assert forall|j: int| 0 <= j < 256 implies slots@.map_values(|p: Player| p.0 as int)[j]
            == sv[j] by {
            assert(slots@[j].0 == s@[3 + j]);
        }
        assert(slots@.map_values(|p: Player| p.0 as int) =~= sv);
        assert forall|j: int| 0 <= j < 256 implies (#[trigger] s@[3 + j]) <= 2 by {
            assert(slots@[j].0 == s@[3 + j]);
        }
    }
    let mut line_occupation: Vec<[u8; 2]> = Vec::new();
    let nl = cat.lines.len();
    let mut l: usize = 0;
    let mut found1 = false;
    let mut found2 = false;
    while l < nl
        invariant
            l <= nl,
            nl == cat.lines@.len(),
            slots@.len() == 256,
            slots@.map_values(|p: Player| p.0 as int) == sv,
            sv.len() == 256,
            line_occupation@.len() == l,
            forall|j: int|
                0 <= j < l ==> ((#[trigger] line_occupation@[j])[0] as int, line_occupation@[j][1]
                    as int) == (occ(sv, cat.lines@[j], 1), occ(sv, cat.lines@[j], 2)),
            found1 == exists|j: int| 0 <= j < l && occ(sv, #[trigger] cat.lines@[j], 1) == 4,
            found2 == exists|j: int| 0 <= j < l && occ(sv, #[trigger] cat.lines@[j], 2) == 4,
        decreases nl - l,
    {
        let cells = cat.lines[l];
        let mut c1: u8 = 0;
        let mut c2: u8 = 0;
        let o0 = slots[cells[0] as usize].0;
        let o1 = slots[cells[1] as usize].0;
        let o2 = slots[cells[2] as usize].0;
        let o3 = slots[cells[3] as usize].0;
        if o0 == 1 {
            c1 += 1;
        } else if o0 == 2 {
            c2 += 1;
        }
        if o1 == 1 {
            c1 += 1;
        } else if o1 == 2 {
            c2 += 1;
        }
        if o2 == 1 {
            c1 += 1;
        } else if o2 == 2 {
            c2 += 1;
        }
        if o3 == 1 {
            c1 += 1;
        } else if o3 == 2 {
            c2 += 1;
        }
        proof {
            let ln = cat.lines@[l as int];
            assert(sv[ln[0] as int] == o0 as int && sv[ln[1] as int] == o1 as int && sv[ln[2]
                as int] == o2 as int && sv[ln[3] as int] == o3 as int);
            assert(c1 as int == occ(sv, ln, 1));
            assert(c2 as int == occ(sv, ln, 2));
        }
        if c1 == 4 {
            found1 = true;
        }
        if c2 == 4 {
            found2 = true;
        }
        line_occupation.push([c1, c2]);
        l += 1;
    }
    let winner_ok = if wbyte == 0 {
        !found1 && !found2
    } else if wbyte == 1 {
        found1
    } else {
        found2
    };
    let ghost dc = decoded_counts(*cat, s@);
    proof {
        assert forall|j: int| 0 <= j < dc.len() implies #[trigger] dc[j] == (
        occ(sv, cat.lines@[j], 1),
        occ(sv, cat.lines@[j], 2),
        ) by {}
    }
    if !winner_ok {
        proof {
            if wbyte == 0 {
                let j = choose|j: int|
                    0 <= j < nl && (occ(sv, #[trigger] cat.lines@[j], 1) == 4 || occ(
                        sv,
                        #[trigger] cat.lines@[j],
                        2,
                    ) == 4);
                assert(!(dc[j].0 != 4 && dc[j].1 != 4));
                assert(!spec_request_valid(*cat, s@));
            } else {
                assert forall|j: int|
                    0 <= j < dc.len() implies cnt(decoded_board(*cat, s@), j, wbyte as int)
                    != 4 by {
                    assert(dc[j] == (occ(sv, cat.lines@[j], 1), occ(sv, cat.lines@[j], 2)));
                }
                assert(!spec_request_valid(*cat, s@));
            }
        }
        return None;
    }
    let board = Board {
        slots,
        line_occupation,
        winner: if wbyte == 0 {
            None
        } else {
            Some(Player(wbyte))
        },
    };
    let player = Player(pbyte);
    let flag = fbyte == 1;
    proof {
        assert forall|j: int| 0 <= j < dc.len() implies board@.counts[j] == dc[j] by {
            assert((line_occupation@[j][0] as int, line_occupation@[j][1] as int) == (
                occ(sv, cat.lines@[j], 1),
                occ(sv, cat.lines@[j], 2),
            ));
        }
        assert(board@.counts =~= dc);
        assert(board@.slots =~= decoded_slots(s@));
        assert(board@ =~= decoded_board(*cat, s@));
        assert(s@[0] == pbyte && s@[1] == fbyte && s@[2] == wbyte);
        if wbyte == 0 {
            assert forall|j: int|
                0 <= j < dc.len() implies (#[trigger] dc[j]).0 != 4 && dc[j].1 != 4 by {
                assert(dc[j] == (occ(sv, cat.lines@[j], 1), occ(sv, cat.lines@[j], 2)));
                assert(!(occ(sv, cat.lines@[j], 1) == 4));
                assert(!(occ(sv, cat.lines@[j], 2) == 4));
            }
            assert(spec_request_valid(*cat, s@));
        } else {
            if wbyte == 1 {
                let j = choose|j: int| 0 <= j < nl && occ(sv, #[trigger] cat.lines@[j], 1) == 4;
                assert(dc[j] == (occ(sv, cat.lines@[j], 1), occ(sv, cat.lines@[j], 2)));
                assert(cnt(decoded_board(*cat, s@), j, s@[2] as int) == 4);
            } else {
                let j = choose|j: int| 0 <= j < nl && occ(sv, #[trigger] cat.lines@[j], 2) == 4;
                assert(dc[j] == (occ(sv, cat.lines@[j], 1), occ(sv, cat.lines@[j], 2)));
                assert(cnt(decoded_board(*cat, s@), j, s@[2] as int) == 4);
            }
            assert(spec_request_valid(*cat, s@));
        }
        assert(board@.slots.len() == 256);
        assert forall|i: int| 0 <= i < 256 implies 0 <= #[trigger] board@.slots[i] <= 2 by {
            assert(board@.slots[i] == sv[i]);
            assert(s@[3 + i] <= 2);
        }
        assert forall|j: int|
            0 <= j < board@.counts.len() implies (#[trigger] board@.counts[j]).0 == occ(
            board@.slots,
            cat.lines@[j],
            1,
        ) && board@.counts[j].1 == occ(board@.slots, cat.lines@[j], 2) by {
            assert(board@.counts[j] == dc[j]);
        }
        if wbyte != 0 {
            assert(board@.winner == Some(wbyte as int));
            if wbyte == 1 {
                let j = choose|j: int| 0 <= j < nl && occ(sv, #[trigger] cat.lines@[j], 1) == 4;
                assert(board@.counts[j] == dc[j]);
                assert(cnt(board@, j, wbyte as int) == 4);
                assert(exists|l: int|
                    0 <= l < board@.counts.len() && cnt(board@, l, wbyte as int) == 4);
            } else {
                let j = choose|j: int| 0 <= j < nl && occ(sv, #[trigger] cat.lines@[j], 2) == 4;
                assert(board@.counts[j] == dc[j]);
                assert(cnt(board@, j, wbyte as int) == 4);
                assert(exists|l: int|
                    0 <= l < board@.counts.len() && cnt(board@, l, wbyte as int) == 4);
            }
        }
        assert forall|j: int|
            0 <= j < board@.counts.len() && ((#[trigger] board@.counts[j]).0 == 4
                || board@.counts[j].1 == 4) implies board@.winner is Some by {
            if wbyte == 0 {
                assert(dc[j].0 != 4 && dc[j].1 != 4);
            }
        }
        assert(wf_v(board@, *cat));
    }
    Some((board, player, flag))
}

/// Encodes the chosen move: a single byte.
pub fn encode_move(m: u8) -> (r: Vec<u8>)
    ensures
        r@ == seq![m],
{
    let mut r: Vec<u8> = Vec::new();
    r.push(m);
    proof {
        assert(r@ =~= seq![m]);
    }
    r
}

/// Decodes a move response: exactly one byte.
pub fn decode_move(s: &Vec<u8>) -> (r: Option<u8>)
    ensures
        r is Some <==> s@.len() == 1,
        r is Some ==> r.unwrap() == s@[0],
{
    if s.len() == 1 {
        Some(s[0])
    } else {
        None
    }
}

/// The boundary entry point: parses an encoded request, runs the
/// policy selector, and returns the encoded chosen move; nothing when
/// the request does not parse.
pub fn run_ai(cat: &LineCatalog, state: Vec<u8>) -> (r: Option<Vec<u8>>)
    requires
        cat.wf(),
    ensures
        r is Some <==> spec_request_valid(*cat, state@),
        r is Some ==> r.unwrap()@ == seq![
            spec_policy(
                *cat,
                decoded_board(*cat, state@),
                state@[0] as int,
                state@[1] == 1,
            ) as u8,
        ],
{
    match decode_request(cat, &state) {
        None => None,
        Some((b, p, f)) => {
            let mv = minimax_policy(cat, &b, p, f);
            let out = encode_move(mv);
            proof {
                assert(out@ =~= seq![
                    spec_policy(
                        *cat,
                        decoded_board(*cat, state@),
                        state@[0] as int,
                        state@[1] == 1,
                    ) as u8,
                ]);
            }
            Some(out)
        },
    }
}

/// Decoding the encoding of any well-formed request yields the very
/// same board, player and difficulty flag; a move byte likewise
/// survives its round trip.
pub proof fn lemma_request_round_trip(cat: LineCatalog, v: BoardV, pl: int, smarter: bool)
    requires
        cat.wf(),
        wf_v(v, cat),
        pl == 1 || pl == 2,
    ensures
        spec_request_valid(cat, spec_encode(v, pl, smarter)),
        decoded_board(cat, spec_encode(v, pl, smarter)) == v,
        spec_encode(v, pl, smarter)[0] as int == pl,
        (spec_encode(v, pl, smarter)[1] == 1) == smarter,
{
    let s = spec_encode(v, pl, smarter);
    assert(s.len() == 259);
    assert forall|i: int| 0 <= i < 256 implies (#[trigger] s[3 + i]) <= 2 by {
        assert(s[3 + i] == Seq::new(256, |i: int| v.slots[i] as u8)[i]);
        assert(0 <= v.slots[i] <= 2);
    }
    assert forall|i: int| 0 <= i < 256 implies decoded_slots(s)[i] == v.slots[i] by {
        assert(s[3 + i] == Seq::new(256, |i: int| v.slots[i] as u8)[i]);
    }
    assert(decoded_slots(s) =~= v.slots);
    assert forall|l: int| 0 <= l < v.counts.len() implies decoded_counts(cat, s)[l]
        == v.counts[l] by {
        assert(occ(decoded_slots(s), cat.lines@[l], 1) == occ(v.slots, cat.lines@[l], 1));
        assert(occ(decoded_slots(s), cat.lines@[l], 2) == occ(v.slots, cat.lines@[l], 2));
    }
    assert(decoded_counts(cat, s) =~= v.counts);
    match v.winner {
        Some(p) => {
            assert(s[2] as int == p);
            let l = choose|l: int| 0 <= l < v.counts.len() && cnt(v, l, p) == 4;
            assert(cnt(decoded_board(cat, s), l, s[2] as int) == 4);
            assert(spec_request_valid(cat, s));
        },
        None => {
            assert(s[2] == 0);
            assert forall|l: int|
                0 <= l < decoded_counts(cat, s).len() implies (#[trigger] decoded_counts(
                cat,
                s,
            )[l]).0 != 4 && decoded_counts(cat, s)[l].1 != 4 by {
                assert(decoded_counts(cat, s)[l] == v.counts[l]);
            }
            assert(spec_request_valid(cat, s));
        },
    }
    assert(decoded_board(cat, s) =~= v);
}

} // verus!
