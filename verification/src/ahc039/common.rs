//! Local connectivity of a 3 x 3 neighbourhood.
use vstd::prelude::*;
use crate::coord::wrap;

verus! {

/// Bit `a` of `mask`.
pub open spec fn bit(mask: usize, a: usize) -> bool {
    (mask >> a) & 1usize != 0
}

pub open spec fn ind(b: bool) -> int {
    if b { 1 } else { 0 }
}

/// For a 3 x 3 neighbourhood whose cells are the bits 0 to 8 of `mask`,
///
/// ```text
/// 012
/// 3.5
/// 678
/// ```
///
/// the number of occupied side neighbours (1, 3, 5, 7) minus the number of
/// occupied corner triples that link two of them (the links of a graph on
/// the four side cells, which form a ring).
pub open spec fn pieces(mask: usize) -> int {
    ind(bit(mask, 1)) + ind(bit(mask, 3)) + ind(bit(mask, 5)) + ind(bit(mask, 7))
    - ind(bit(mask, 0) && bit(mask, 1) && bit(mask, 3))
    - ind(bit(mask, 1) && bit(mask, 2) && bit(mask, 5))
    - ind(bit(mask, 3) && bit(mask, 6) && bit(mask, 7))
    - ind(bit(mask, 5) && bit(mask, 7) && bit(mask, 8))
}

/// All eight cells around the centre are occupied: the four side cells and
/// the four corners linking them close a ring.
pub open spec fn full_ring(mask: usize) -> bool {
    bit(mask, 0) && bit(mask, 1) && bit(mask, 2) && bit(mask, 3) && bit(mask, 5) && bit(mask, 6) && bit(mask, 7)
        && bit(mask, 8)
}

/// The number of groups that the occupied side neighbours (1, 3, 5, 7) of
/// the centre form, two neighbours being joined when the corner between
/// them is occupied: the side cells minus the links, plus one where the
/// links close the ring (a graph on a ring of four has one cycle at most).
pub open spec fn side_groups(mask: usize) -> int {
    pieces(mask) + ind(full_ring(mask))
}

/// The table, for every mask of a 3 x 3 neighbourhood, of whether what is
/// left around the centre stays connected once the centre is removed: the
/// occupied side neighbours form exactly one group (`side_groups`).
pub fn connect9() -> (ok: Vec<bool>)
    ensures
        ok@.len() == 512,
        forall|mask: int| 0 <= mask < 512 ==> #[trigger] ok@[mask] == (side_groups(mask as usize) == 1),
{
    let mut ok: Vec<bool> = Vec::new();
    let mut mask: usize = 0;
    while mask < 512
        invariant
            0 <= mask <= 512,
            ok@.len() == mask,
            forall|m: int| 0 <= m < mask ==> #[trigger] ok@[m] == (side_groups(m as usize) == 1),
        decreases 512 - mask,
    {
        let mut k: i32 = 0;
        let mut i: usize = 0;
        while i < 4
            invariant
                0 <= i <= 4,
                0 <= mask < 512,
                k == (if i > 0 { ind(bit(mask, 1)) } else { 0 }) + (if i > 1 { ind(bit(mask, 3)) } else { 0 })
                    + (if i > 2 { ind(bit(mask, 5)) } else { 0 }) + (if i > 3 { ind(bit(mask, 7)) } else { 0 }),
            decreases 4 - i,
        {
            if mask >> (i * 2 + 1) & 1 != 0 {
                k += 1;
            }
            i += 1;
        }
        if mask >> 0usize & 1 != 0 && mask >> 1usize & 1 != 0 && mask >> 3usize & 1 != 0 {
            k -= 1;
        }
        if mask >> 1usize & 1 != 0 && mask >> 2usize & 1 != 0 && mask >> 5usize & 1 != 0 {
            k -= 1;
        }
        if mask >> 3usize & 1 != 0 && mask >> 6usize & 1 != 0 && mask >> 7usize & 1 != 0 {
            k -= 1;
        }
        if mask >> 5usize & 1 != 0 && mask >> 7usize & 1 != 0 && mask >> 8usize & 1 != 0 {
            k -= 1;
        }
        let ring = mask & 0x1EF == 0x1EF;
        proof {
            assert(ring == ((mask >> 0usize) & 1usize != 0 && (mask >> 1usize) & 1usize != 0
                && (mask >> 2usize) & 1usize != 0 && (mask >> 3usize) & 1usize != 0 && (mask >> 5usize) & 1usize != 0
                && (mask >> 6usize) & 1usize != 0 && (mask >> 7usize) & 1usize != 0 && (mask >> 8usize) & 1usize != 0))
                by (bit_vector)
                requires ring == (mask & 0x1EFusize == 0x1EFusize), mask < 512usize;
            assert(ring == full_ring(mask));
        }
        ok.push(k == 1 || ring);
        mask += 1;
    }
    ok
}

/// The side cell at place `p` of the ring around the centre, clockwise
/// from the top: 1, 5, 7, 3.
pub open spec fn ring_side(p: int) -> usize {
    if p == 0 { 1 } else if p == 1 { 5 } else if p == 2 { 7 } else { 3 }
}

/// The corner between the side cells at places `p` and `p + 1` of the ring:
/// 2, 8, 6, 0.
pub open spec fn ring_corner(p: int) -> usize {
    if p == 0 { 2 } else if p == 1 { 8 } else if p == 2 { 6 } else { 0 }
}

/// The side cells at places `p` and `p + 1` (mod 4) are joined: both and
/// the corner between them are occupied.
pub open spec fn ring_link(mask: usize, p: int) -> bool {
    bit(mask, ring_side(p)) && bit(mask, ring_corner(p)) && bit(mask, ring_side((p + 1) % 4))
}

/// Going clockwise from place `u`, the first `k` links are all there.
pub open spec fn clockwise_joined(mask: usize, u: int, k: int) -> bool {
    &&& (k >= 1 ==> ring_link(mask, u))
    &&& (k >= 2 ==> ring_link(mask, (u + 1) % 4))
    &&& (k >= 3 ==> ring_link(mask, (u + 2) % 4))
}

/// The side cells at places `u` and `v` are joined going one way or the
/// other round the ring.
pub open spec fn joined(mask: usize, u: int, v: int) -> bool {
    clockwise_joined(mask, u, (v - u + 4) % 4) || clockwise_joined(mask, v, (u - v + 4) % 4)
}

/// The side cell at place `u` is occupied.
pub open spec fn side_on(mask: usize, u: int) -> bool {
    bit(mask, ring_side(u))
}

/// What is left around the centre is in one piece: some side cell is
/// occupied, and any two occupied side cells are joined through occupied
/// corners.
pub open spec fn one_piece(mask: usize) -> bool {
    &&& (side_on(mask, 0) || side_on(mask, 1) || side_on(mask, 2) || side_on(mask, 3))
    &&& forall|u: int, v: int| 0 <= u < 4 && 0 <= v < 4 && #[trigger] side_on(mask, u) && #[trigger] side_on(mask, v)
        ==> joined(mask, u, v)
}

/// `connect9` tells exactly whether what is left around the centre is in
/// one piece (every corner cell counts only through the side cells it
/// joins).
pub proof fn law_connect9_one_piece(mask: usize)
    ensures
        (side_groups(mask) == 1) == one_piece(mask),
{
    let b0 = bit(mask, 0);
    let b1 = bit(mask, 1);
    let b2 = bit(mask, 2);
    let b3 = bit(mask, 3);
    let b5 = bit(mask, 5);
    let b6 = bit(mask, 6);
    let b7 = bit(mask, 7);
    let b8 = bit(mask, 8);
    assert(side_on(mask, 0) == b1 && side_on(mask, 1) == b5 && side_on(mask, 2) == b7 && side_on(mask, 3) == b3);
    assert(ring_link(mask, 0) == (b1 && b2 && b5));
    assert(ring_link(mask, 1) == (b5 && b8 && b7));
    assert(ring_link(mask, 2) == (b7 && b6 && b3));
    assert(ring_link(mask, 3) == (b3 && b0 && b1));
    if one_piece(mask) {
        assert(side_groups(mask) == 1) by {
            if b1 && b5 { assert(joined(mask, 0, 1)); }
            if b1 && b7 { assert(joined(mask, 0, 2)); }
            if b1 && b3 { assert(joined(mask, 0, 3)); }
            if b5 && b7 { assert(joined(mask, 1, 2)); }
            if b5 && b3 { assert(joined(mask, 1, 3)); }
            if b7 && b3 { assert(joined(mask, 2, 3)); }
        }
    }
    if side_groups(mask) == 1 {
        assert forall|u: int, v: int| 0 <= u < 4 && 0 <= v < 4 && #[trigger] side_on(mask, u) && #[trigger] side_on(mask, v)
            implies joined(mask, u, v) by {
            if u == v {
                assert((v - u + 4) % 4 == 0);
            }
        }
    }
}

/// `2^k`.
pub open spec fn p2(k: int) -> int
    decreases k,
{
    if k <= 0 { 1 } else { 2 * p2(k - 1) }
}

/// Whether the cell at offset number `k` (row-major over offsets -1, 0, 1)
/// from `(i, j)` lies on the grid `bs` and is set.
pub open spec fn cell9(bs: Seq<Seq<bool>>, i: usize, j: usize, k: int) -> bool {
    let i2 = wrap(i as int, k / 3 - 1);
    let j2 = wrap(j as int, k % 3 - 1);
    i2 < bs.len() && j2 < bs[i2 as int].len() && bs[i2 as int][j2 as int]
}

/// The mask of the first `k` cells of the 3 x 3 neighbourhood of `(i, j)`.
pub open spec fn mask9(bs: Seq<Seq<bool>>, i: usize, j: usize, k: int) -> int
    decreases k,
{
    if k <= 0 { 0 } else { mask9(bs, i, j, k - 1) + if cell9(bs, i, j, k - 1) { p2(k - 1) } else { 0 } }
}

/// The rows of a boolean grid.
pub open spec fn bgrid(bs: Seq<Vec<bool>>) -> Seq<Seq<bool>> {
    bs.map_values(|row: Vec<bool>| row@)
}

pub proof fn lemma_p2_bound(k: int)
    requires
        0 <= k <= 9,
    ensures
        1 <= p2(k) <= 512,
        p2(k + 1) == 2 * p2(k),
{
    assert(p2(0) == 1);
    assert(p2(1) == 2);
    assert(p2(2) == 4);
    assert(p2(3) == 8);
    assert(p2(4) == 16);
    assert(p2(5) == 32);
    assert(p2(6) == 64);
    assert(p2(7) == 128);
    assert(p2(8) == 256);
    assert(p2(9) == 512);
    if k == 0 {} else if k == 1 {} else if k == 2 {} else if k == 3 {} else if k == 4 {}
    else if k == 5 {} else if k == 6 {} else if k == 7 {} else if k == 8 {} else {}
}

pub proof fn lemma_mask9_bound(bs: Seq<Seq<bool>>, i: usize, j: usize, k: int)
    requires
        0 <= k <= 9,
    ensures
        0 <= mask9(bs, i, j, k) < p2(k),
    decreases k,
{
    if k > 0 {
        lemma_mask9_bound(bs, i, j, k - 1);
    }
}

/// The 3 x 3 neighbourhood of `(i, j)` as a mask: bit `3 * a + b` is set
/// when the cell at row offset `a - 1` and column offset `b - 1` lies on the
/// grid and is set.
pub fn get_mask9(bs: &Vec<Vec<bool>>, i: usize, j: usize) -> (mask: usize)
    ensures
        mask == mask9(bgrid(bs@), i, j, 9),
{
    let ghost g = bgrid(bs@);
    let mut k: usize = 0;
    let mut mask: usize = 0;
    let mut p: usize = 1;
    let mut a: usize = 0;
    while a < 3
        invariant
            0 <= a <= 3,
            k == 3 * a,
            p == p2(k as int),
            mask == mask9(g, i, j, k as int),
            g == bgrid(bs@),
        decreases 3 - a,
    {
        let di: usize = if a == 0 { usize::MAX } else { a - 1 };
        let i2 = i.wrapping_add(di);
        let mut b: usize = 0;
        while b < 3
            invariant
                0 <= a < 3,
                0 <= b <= 3,
                k == 3 * a + b,
                p == p2(k as int),
                mask == mask9(g, i, j, k as int),
                i2 == wrap(i as int, a - 1),
                g == bgrid(bs@),
            decreases 3 - b,
        {
            let dj: usize = if b == 0 { usize::MAX } else { b - 1 };
            let j2 = j.wrapping_add(dj);
            proof {
                lemma_mask9_bound(g, i, j, k as int);
                lemma_p2_bound(k as int);
                assert(k as int / 3 == a as int && k as int % 3 == b as int);
                assert(j2 == wrap(j as int, b - 1));
            }
            if i2 < bs.len() && j2 < bs[i2].len() && bs[i2][j2] {
                mask = mask + p;
            }
            proof {
                if i2 < bs.len() {
                    assert(g[i2 as int] == bs@[i2 as int]@);
                }
            }
            k += 1;
            p = p * 2;
            b += 1;
        }
        a += 1;
    }
    mask
}

} // verus!
