use vstd::prelude::*;

verus! {

/// One of the 256 cells of the 4x4x4x4 grid, addressed by a packed
/// identifier: four axis indices, each 0..4, two bits per axis,
/// most-significant axis first.
#[derive(PartialEq, Eq, Structural, Clone, Copy, Debug, Hash)]
pub struct Coord(pub u8);

/// The packed form of four axis indices.
pub open spec fn pack_spec(a: int, b: int, c: int, d: int) -> int {
    64 * a + 16 * b + 4 * c + d
}

/// The four axis indices held in a packed identifier.
pub open spec fn axes_spec(x: int) -> (int, int, int, int) {
    (x / 64 % 4, x / 16 % 4, x / 4 % 4, x % 4)
}

/// The identifier with its four axis fields cyclically shifted right
/// by `k` positions (`k` taken mod 4).
pub open spec fn rotate_spec(x: int, k: int) -> int {
    let (a, b, c, d) = axes_spec(x);
    if k % 4 == 0 {
        pack_spec(a, b, c, d)
    } else if k % 4 == 1 {
        pack_spec(d, a, b, c)
    } else if k % 4 == 2 {
        pack_spec(c, d, a, b)
    } else {
        pack_spec(b, c, d, a)
    }
}

impl Coord {
    /// Packs four axis indices, each below 4, into one identifier.
    pub fn from_indices(c: u8, l: u8, r: u8, o: u8) -> (s: Self)
        requires
            c < 4,
            l < 4,
            r < 4,
            o < 4,
        ensures
            s.0 as int == pack_spec(c as int, l as int, r as int, o as int),
    {
        Coord(c * 64 + l * 16 + r * 4 + o)
    }

    /// Recovers the four axis indices; the exact inverse of `from_indices`.
    pub fn unpack(&self) -> (r: (u8, u8, u8, u8))
        ensures
            (r.0 as int, r.1 as int, r.2 as int, r.3 as int) == axes_spec(self.0 as int),
            r.0 < 4 && r.1 < 4 && r.2 < 4 && r.3 < 4,
    {
        (self.0 / 64, self.0 / 16 % 4, self.0 / 4 % 4, self.0 % 4)
    }

    /// Cyclically shifts the four axis fields by `by` positions.
    pub fn rotate(&self, by: u8) -> (r: Self)
        ensures
            r.0 as int == rotate_spec(self.0 as int, by as int),
    {
        let (a, b, c, d) = self.unpack();
        let k: u8 = by % 4;
        if k == 0 {
            proof {
                lemma_pack_axes(self.0 as int);
            }
            Coord(self.0)
        } else if k == 1 {
            Coord::from_indices(d, a, b, c)
        } else if k == 2 {
            Coord::from_indices(c, d, a, b)
        } else {
            Coord::from_indices(b, c, d, a)
        }
    }
}

/// Packing four in-range axis indices and unpacking gives them back.
pub proof fn lemma_unpack_pack(a: int, b: int, c: int, d: int)
    requires
        0 <= a < 4,
        0 <= b < 4,
        0 <= c < 4,
        0 <= d < 4,
    ensures
        axes_spec(pack_spec(a, b, c, d)) == (a, b, c, d),
{
    let x = pack_spec(a, b, c, d);
    assert((64 * a + 16 * b + 4 * c + d) / 64 % 4 == a) by (nonlinear_arith)
        requires
            0 <= a < 4 && 0 <= b < 4 && 0 <= c < 4 && 0 <= d < 4,
    ;
    assert((64 * a + 16 * b + 4 * c + d) / 16 % 4 == b) by (nonlinear_arith)
        requires
            0 <= a < 4 && 0 <= b < 4 && 0 <= c < 4 && 0 <= d < 4,
    ;
    assert((64 * a + 16 * b + 4 * c + d) / 4 % 4 == c) by (nonlinear_arith)
        requires
            0 <= a < 4 && 0 <= b < 4 && 0 <= c < 4 && 0 <= d < 4,
    ;
    assert((64 * a + 16 * b + 4 * c + d) % 4 == d) by (nonlinear_arith)
        requires
            0 <= a < 4 && 0 <= b < 4 && 0 <= c < 4 && 0 <= d < 4,
    ;
}

/// Unpacking an identifier below 256 and packing gives it back.
pub proof fn lemma_pack_axes(x: int)
    requires
        0 <= x < 256,
    ensures
        ({
            let (a, b, c, d) = axes_spec(x);
            pack_spec(a, b, c, d) == x && 0 <= a < 4 && 0 <= b < 4 && 0 <= c < 4 && 0 <= d < 4
        }),
{
    assert(64 * (x / 64 % 4) + 16 * (x / 16 % 4) + 4 * (x / 4 % 4) + x % 4 == x) by (nonlinear_arith)
        requires
            0 <= x < 256,
    ;
}

/// Rotating by zero positions is the identity.
pub proof fn lemma_rotate_zero(x: int)
    requires
        0 <= x < 256,
    ensures
        rotate_spec(x, 0) == x,
{
    lemma_pack_axes(x);
}

/// Two rotations compose: rotating by `k1` and then by `k2` is the
/// rotation by `k1 + k2` (and so by `(k1 + k2) mod 4`).
pub proof fn lemma_rotate_compose(x: int, k1: int, k2: int)
    requires
        0 <= x < 256,
        k1 >= 0,
        k2 >= 0,
    ensures
        rotate_spec(rotate_spec(x, k1), k2) == rotate_spec(x, k1 + k2),
        rotate_spec(x, k1 + k2) == rotate_spec(x, (k1 + k2) % 4),
{
    let (a, b, c, d) = axes_spec(x);
    lemma_pack_axes(x);
    lemma_unpack_pack(a, b, c, d);
    lemma_unpack_pack(d, a, b, c);
    lemma_unpack_pack(c, d, a, b);
    lemma_unpack_pack(b, c, d, a);
    assert((k1 + k2) % 4 == (k1 % 4 + k2 % 4) % 4) by {
        vstd::arithmetic::div_mod::lemma_add_mod_noop(k1, k2, 4);
    };
    assert(((k1 + k2) % 4) % 4 == (k1 + k2) % 4) by {
        vstd::arithmetic::div_mod::lemma_small_mod(((k1 + k2) % 4) as nat, 4nat);
    };
}

} // verus!
