use vstd::prelude::*;
use crate::coord::Coord;

verus! {

/// True when `cell` is one of the four member cells of `line`.
pub open spec fn line_has_cell(line: [u8; 4], cell: int) -> bool {
    exists|j: int| 0 <= j < 4 && line[j] == cell
}

/// A well-formed line names four pairwise distinct cells.
pub open spec fn line_wf(line: [u8; 4]) -> bool {
    forall|j1: int, j2: int|
        0 <= j1 < 4 && 0 <= j2 < 4 && j1 != j2 ==> line[j1] != line[j2]
}

/// A per-cell index entry is consistent with the first `upto` lines:
/// it lists, in strictly increasing order, exactly the identifiers of
/// those lines that contain the cell.
pub open spec fn entry_ok(linesv: Seq<[u8; 4]>, e: Seq<usize>, c: int, upto: int) -> bool {
    &&& forall|i: int|
        0 <= i < e.len() ==> (#[trigger] e[i]) < upto && line_has_cell(linesv[e[i] as int], c)
    &&& forall|i1: int, i2: int| 0 <= i1 < i2 < e.len() ==> e[i1] < e[i2]
    &&& forall|l: int|
        0 <= l < upto && line_has_cell(#[trigger] linesv[l], c) ==> e.contains(l as usize)
}

/// The catalog of winning lines: static, read-only data fixed before
/// play. `lines` gives each line's four member cells; `cell_lines`
/// gives, for each of the 256 cells, the lines that contain it.
pub struct LineCatalog {
    pub lines: Vec<[u8; 4]>,
    pub cell_lines: Vec<Vec<usize>>,
}

impl LineCatalog {
    /// Every line holds four distinct cells, and the per-cell index
    /// matches line membership exactly.
    pub open spec fn wf(self) -> bool {
        &&& self.cell_lines@.len() == 256
        &&& forall|l: int| 0 <= l < self.lines@.len() ==> line_wf(#[trigger] self.lines@[l])
        &&& forall|c: int|
            0 <= c < 256 ==> entry_ok(
                self.lines@,
                (#[trigger] self.cell_lines@[c])@,
                c,
                self.lines@.len() as int,
            )
    }

    /// Builds a catalog from a list of lines, indexing each cell's
    /// membership; rejects a list in which some line repeats a cell.
    pub fn new(lines: Vec<[u8; 4]>) -> (r: Option<LineCatalog>)
        ensures
            r is Some <==> (forall|l: int| 0 <= l < lines@.len() ==> line_wf(#[trigger] lines@[l])),
            r is Some ==> r.unwrap().wf() && r.unwrap().lines@ == lines@,
    {
        let n = lines.len();
        let mut l: usize = 0;
        while l < n
            invariant
                l <= n,
                n == lines@.len(),
                forall|k: int| 0 <= k < l ==> line_wf(#[trigger] lines@[k]),
            decreases n - l,
        {
            let ln = lines[l];
            if ln[0] == ln[1] || ln[0] == ln[2] || ln[0] == ln[3] || ln[1] == ln[2] || ln[1]
                == ln[3] || ln[2] == ln[3] {
                proof {
                    assert(!line_wf(lines@[l as int]));
                }
                return None;
            }
            proof {
                assert(line_wf(lines@[l as int]));
            }
            l += 1;
        }
        let mut cell_lines: Vec<Vec<usize>> = Vec::new();
        let mut c: usize = 0;
        while c < 256
            invariant
                c <= 256,
                n == lines@.len(),
                cell_lines@.len() == c,
                forall|cc: int|
                    0 <= cc < c ==> entry_ok(lines@, (#[trigger] cell_lines@[cc])@, cc, n as int),
            decreases 256 - c,
        {
            let mut entry: Vec<usize> = Vec::new();
            let mut l2: usize = 0;
            while l2 < n
                invariant
                    l2 <= n,
                    n == lines@.len(),
                    c < 256,
                    entry_ok(lines@, entry@, c as int, l2 as int),
                decreases n - l2,
            {
                let ln = lines[l2];
                let cu = c as u8;
                if ln[0] == cu || ln[1] == cu || ln[2] == cu || ln[3] == cu {
                    proof {
                        assert(line_has_cell(lines@[l2 as int], c as int));
                    }
                    let ghost e0 = entry@;
                    entry.push(l2);
                    proof {
                        assert(entry@ == e0.push(l2));
                        assert(entry@[e0.len() as int] == l2);
                        assert forall|ll: int|
                            0 <= ll < l2 + 1 && line_has_cell(#[trigger] lines@[ll], c as int)
                            implies entry@.contains(ll as usize) by {
                            if ll < l2 {
                                assert(e0.contains(ll as usize));
                                let i = choose|i: int| 0 <= i < e0.len() && e0[i] == ll as usize;
                                assert(entry@[i] == ll as usize);
                            } else {
                                assert(entry@[e0.len() as int] == l2);
                            }
                        }
                    }
                } else {
                    proof {
                        assert(!line_has_cell(lines@[l2 as int], c as int));
                    }
                }
                l2 += 1;
            }
            cell_lines.push(entry);
            c += 1;
        }
        Some(LineCatalog { lines, cell_lines })
    }
}

/// Enumerates the winning lines of the 4x4x4x4 grid: for each direction
/// vector over the four axes (components -1, 0 or +1, not all zero,
/// the first nonzero component +1 so each geometric line appears once)
/// and each admissible starting cell, the four cells reached in that
/// direction.
pub fn standard_lines() -> (r: Vec<[u8; 4]>)
    ensures
        forall|l: int| 0 <= l < r@.len() ==> line_wf(#[trigger] r@[l]),
{
    let mut out: Vec<[u8; 4]> = Vec::new();
    let mut dcode: usize = 0;
    while dcode < 81
        invariant
            forall|l: int| 0 <= l < out@.len() ==> line_wf(#[trigger] out@[l]),
            dcode <= 81,
        decreases 81 - dcode,
    {
        let d0: i8 = (dcode / 27) as i8 - 1;
        let d1: i8 = (dcode / 9 % 3) as i8 - 1;
        let d2: i8 = (dcode / 3 % 3) as i8 - 1;
        let d3: i8 = (dcode % 3) as i8 - 1;
        let canonical = if d0 != 0 {
            d0 == 1
        } else if d1 != 0 {
            d1 == 1
        } else if d2 != 0 {
            d2 == 1
        } else {
            d3 == 1
        };
        if canonical {
            let mut scode: usize = 0;
            while scode < 256
                invariant
                    -1 <= d0 <= 1,
                    -1 <= d1 <= 1,
                    -1 <= d2 <= 1,
                    -1 <= d3 <= 1,
                    d0 == 1 || (d0 == 0 && (d1 == 1 || (d1 == 0 && (d2 == 1 || (d2 == 0 && d3
                        == 1))))),
                    forall|l: int| 0 <= l < out@.len() ==> line_wf(#[trigger] out@[l]),
                    scode <= 256,
                decreases 256 - scode,
            {
                let s0: i8 = (scode / 64) as i8;
                let s1: i8 = (scode / 16 % 4) as i8;
                let s2: i8 = (scode / 4 % 4) as i8;
                let s3: i8 = (scode % 4) as i8;
                let ok = start_ok(d0, s0) && start_ok(d1, s1) && start_ok(d2, s2) && start_ok(
                    d3,
                    s3,
                );
                if ok {
                    let c0 = line_cell(d0, d1, d2, d3, s0, s1, s2, s3, 0);
                    let c1 = line_cell(d0, d1, d2, d3, s0, s1, s2, s3, 1);
                    let c2 = line_cell(d0, d1, d2, d3, s0, s1, s2, s3, 2);
                    let c3 = line_cell(d0, d1, d2, d3, s0, s1, s2, s3, 3);
                    let ln: [u8; 4] = [c0.0, c1.0, c2.0, c3.0];
                    proof {
                        lemma_generated_line_wf(d0, d1, d2, d3, s0, s1, s2, s3, ln);
                    }
                    out.push(ln);
                }
                scode += 1;
            }
        }
        dcode += 1;
    }
    out
}

/// An axis may advance only from a start that keeps all four steps on
/// the grid: 0 for a rising axis, 3 for a falling one, anywhere for a
/// fixed one.
fn start_ok(d: i8, s: i8) -> (r: bool)
    requires
        -1 <= d <= 1,
        0 <= s <= 3,
    ensures
        r == ((d == 1 && s == 0) || (d == 0) || (d == -1 && s == 3)),
{
    (d == 1 && s == 0) || d == 0 || (d == -1 && s == 3)
}

/// A step along one axis stays on the grid: the start was chosen so
/// that all four steps are admissible.
proof fn lemma_axis_in_range(d: i8, s: i8, t: int)
    requires
        (d == 1 && s == 0) || (d == 0 && 0 <= s <= 3) || (d == -1 && s == 3),
        0 <= t < 4,
    ensures
        0 <= s + t * d < 4,
{
    assert(0 <= s + t * d < 4) by (nonlinear_arith)
        requires
            ((d == 1 && s == 0) || (d == 0 && 0 <= s <= 3) || (d == -1 && s == 3)) && 0 <= t < 4,
    ;
}

/// The cell reached after `t` steps from the start along the direction.
fn line_cell(d0: i8, d1: i8, d2: i8, d3: i8, s0: i8, s1: i8, s2: i8, s3: i8, t: i8) -> (r: Coord)
    requires
        0 <= t <= 3,
        (d0 == 1 && s0 == 0) || (d0 == 0 && 0 <= s0 <= 3) || (d0 == -1 && s0 == 3),
        (d1 == 1 && s1 == 0) || (d1 == 0 && 0 <= s1 <= 3) || (d1 == -1 && s1 == 3),
        (d2 == 1 && s2 == 0) || (d2 == 0 && 0 <= s2 <= 3) || (d2 == -1 && s2 == 3),
        (d3 == 1 && s3 == 0) || (d3 == 0 && 0 <= s3 <= 3) || (d3 == -1 && s3 == 3),
    ensures
        r.0 as int == crate::coord::pack_spec(
            s0 + t * d0,
            s1 + t * d1,
            s2 + t * d2,
            s3 + t * d3,
        ),
{
    proof {
        lemma_axis_in_range(d0, s0, t as int);
        lemma_axis_in_range(d1, s1, t as int);
        lemma_axis_in_range(d2, s2, t as int);
        lemma_axis_in_range(d3, s3, t as int);
    }
    let a0 = s0 + t * d0;
    let a1 = s1 + t * d1;
    let a2 = s2 + t * d2;
    let a3 = s3 + t * d3;
    Coord::from_indices(a0 as u8, a1 as u8, a2 as u8, a3 as u8)
}

/// Along the first rising axis the four cells of a generated line take
/// the four distinct values 0..4, so the cells are pairwise distinct.
proof fn lemma_generated_line_wf(
    d0: i8,
    d1: i8,
    d2: i8,
    d3: i8,
    s0: i8,
    s1: i8,
    s2: i8,
    s3: i8,
    ln: [u8; 4],
)
    requires
        d0 == 1 || (d0 == 0 && (d1 == 1 || (d1 == 0 && (d2 == 1 || (d2 == 0 && d3 == 1))))),
        (d0 == 1 && s0 == 0) || (d0 == 0 && 0 <= s0 <= 3) || (d0 == -1 && s0 == 3),
        (d1 == 1 && s1 == 0) || (d1 == 0 && 0 <= s1 <= 3) || (d1 == -1 && s1 == 3),
        (d2 == 1 && s2 == 0) || (d2 == 0 && 0 <= s2 <= 3) || (d2 == -1 && s2 == 3),
        (d3 == 1 && s3 == 0) || (d3 == 0 && 0 <= s3 <= 3) || (d3 == -1 && s3 == 3),
        forall|t: int|
            0 <= t < 4 ==> (#[trigger] ln[t]) as int == crate::coord::pack_spec(
                s0 + t * d0,
                s1 + t * d1,
                s2 + t * d2,
                s3 + t * d3,
            ),
    ensures
        line_wf(ln),
{
    assert forall|j1: int, j2: int|
        0 <= j1 < 4 && 0 <= j2 < 4 && j1 != j2 implies ln[j1] != ln[j2] by {
        lemma_axis_in_range(d0, s0, j1);
        lemma_axis_in_range(d1, s1, j1);
        lemma_axis_in_range(d2, s2, j1);
        lemma_axis_in_range(d3, s3, j1);
        lemma_axis_in_range(d0, s0, j2);
        lemma_axis_in_range(d1, s1, j2);
        lemma_axis_in_range(d2, s2, j2);
        lemma_axis_in_range(d3, s3, j2);
        crate::coord::lemma_unpack_pack(
            s0 + j1 * d0,
            s1 + j1 * d1,
            s2 + j1 * d2,
            s3 + j1 * d3,
        );
        crate::coord::lemma_unpack_pack(
            s0 + j2 * d0,
            s1 + j2 * d1,
            s2 + j2 * d2,
            s3 + j2 * d3,
        );
    }
}

/// The catalog for the standard grid; the enumeration yields only
/// well-formed lines, so validation always succeeds.
pub fn standard_catalog() -> (r: LineCatalog)
    ensures
        r.wf(),
{
    let lines = standard_lines();
    match LineCatalog::new(lines) {
        Some(cat) => cat,
        None => vstd::pervasive::unreached(),
    }
}

} // verus!
