//! Interleaving the bits of two 16-bit numbers into one 32-bit number.
use vstd::prelude::*;

verus! {

/// Bit `k` of `z`, as 0 or 1.
pub open spec fn bit_at(z: u32, k: u32) -> u32 {
    (z >> k) & 1
}

/// `acc` with bit `2i` set to `xb` and bit `2i + 1` set to `yb`.
pub open spec fn spread_step(acc: u32, xb: u32, yb: u32, i: u32) -> u32 {
    acc | (xb << (2 * i) as u32) | (yb << (2 * i + 1) as u32)
}

/// `acc` with bit `i` set to `b`.
pub open spec fn gather_step(acc: u32, b: u32, i: u32) -> u32 {
    acc | (b << i)
}

proof fn lemma_spread_step(acc: u32, xb: u32, yb: u32, i: u32, j: u32)
    by (bit_vector)
    requires
        i < 16,
        xb <= 1,
        yb <= 1,
        acc >> (2 * i) as u32 == 0,
    ensures
        j < i ==> bit_at(spread_step(acc, xb, yb, i), (2 * j) as u32) == bit_at(acc, (2 * j) as u32),
        j < i ==> bit_at(spread_step(acc, xb, yb, i), (2 * j + 1) as u32) == bit_at(
            acc,
            (2 * j + 1) as u32,
        ),
        bit_at(spread_step(acc, xb, yb, i), (2 * i) as u32) == xb,
        bit_at(spread_step(acc, xb, yb, i), (2 * i + 1) as u32) == yb,
        i + 1 < 16 ==> spread_step(acc, xb, yb, i) >> (2 * (i + 1)) as u32 == 0,
{
}

proof fn lemma_gather_step(acc: u32, b: u32, i: u32, j: u32)
    by (bit_vector)
    requires
        i < 16,
        b <= 1,
        acc >> i == 0,
    ensures
        j < i ==> bit_at(gather_step(acc, b, i), j) == bit_at(acc, j),
        bit_at(gather_step(acc, b, i), i) == b,
        gather_step(acc, b, i) >> (i + 1) as u32 == 0,
{
}

/// Two numbers below `2^16` that agree on their 16 bits are equal.
proof fn lemma_equal_by_bits(a: u32, b: u32)
    by (bit_vector)
    requires
        a >> 16u32 == 0,
        b >> 16u32 == 0,
        bit_at(a, 0) == bit_at(b, 0),
        bit_at(a, 1) == bit_at(b, 1),
        bit_at(a, 2) == bit_at(b, 2),
        bit_at(a, 3) == bit_at(b, 3),
        bit_at(a, 4) == bit_at(b, 4),
        bit_at(a, 5) == bit_at(b, 5),
        bit_at(a, 6) == bit_at(b, 6),
        bit_at(a, 7) == bit_at(b, 7),
        bit_at(a, 8) == bit_at(b, 8),
        bit_at(a, 9) == bit_at(b, 9),
        bit_at(a, 10) == bit_at(b, 10),
        bit_at(a, 11) == bit_at(b, 11),
        bit_at(a, 12) == bit_at(b, 12),
        bit_at(a, 13) == bit_at(b, 13),
        bit_at(a, 14) == bit_at(b, 14),
        bit_at(a, 15) == bit_at(b, 15),
    ensures
        a == b,
{
}

/// `z` holds the bits of `x` at its even positions and those of `y` at its
/// odd positions.
pub open spec fn interleaves(x: u16, y: u16, z: u32) -> bool {
    forall|i: u32|
        i < 16 ==> #[trigger] bit_at(z, (2 * i) as u32) == bit_at(x as u32, i) && bit_at(
            z,
            (2 * i + 1) as u32,
        ) == bit_at(y as u32, i)
}

/// Interleaving loses nothing: the two numbers that a value interleaves are
/// the ones it was made from.
pub proof fn interleave_round_trip(x: u16, y: u16, z: u32, a: u16, b: u16)
    requires
        interleaves(x, y, z),
        interleaves(a, b, z),
    ensures
        a == x,
        b == y,
{
    assert forall|i: u32| i < 16 implies #[trigger] bit_at(a as u32, i) == bit_at(x as u32, i) by {
        assert(bit_at(z, (2 * i) as u32) == bit_at(x as u32, i));
    }
    assert forall|i: u32| i < 16 implies #[trigger] bit_at(b as u32, i) == bit_at(y as u32, i) by {
        assert(bit_at(z, (2 * i) as u32) == bit_at(x as u32, i));
    }
    assert((a as u32) >> 16u32 == 0 && (x as u32) >> 16u32 == 0) by (bit_vector);
    assert((b as u32) >> 16u32 == 0 && (y as u32) >> 16u32 == 0) by (bit_vector);
    lemma_equal_by_bits(a as u32, x as u32);
    lemma_equal_by_bits(b as u32, y as u32);
}

/// The bits of `x` and `y` taken in turn: bit `i` of `x` becomes bit `2i`,
/// bit `i` of `y` becomes bit `2i + 1`.
pub fn interleave(x: u16, y: u16) -> (r: u32)
    ensures
        interleaves(x, y, r),
{
    let mut result: u32 = 0;
    let mut i: u32 = 0;
    assert(0u32 >> 0u32 == 0) by (bit_vector);
    while i < 16
        invariant
            i <= 16,
            i < 16 ==> result >> (2 * i) as u32 == 0,
            forall|j: u32|
                j < i ==> #[trigger] bit_at(result, (2 * j) as u32) == bit_at(x as u32, j) && bit_at(
                    result,
                    (2 * j + 1) as u32,
                ) == bit_at(y as u32, j),
        decreases 16 - i,
    {
        let xb: u32 = ((x >> i) & 1) as u32;
        let yb: u32 = ((y >> i) & 1) as u32;
        assert(xb == bit_at(x as u32, i) && yb == bit_at(y as u32, i) && xb <= 1 && yb <= 1)
            by (bit_vector)
            requires
                xb == ((x >> i) & 1) as u32,
                yb == ((y >> i) & 1) as u32,
                i < 16,
        ;
        let next = result | (xb << (2 * i)) | (yb << (2 * i + 1));
        assert forall|j: u32| j < i + 1 implies #[trigger] bit_at(next, (2 * j) as u32) == bit_at(
            x as u32,
            j,
        ) && bit_at(next, (2 * j + 1) as u32) == bit_at(y as u32, j) by {
            lemma_spread_step(result, xb, yb, i, j);
        }
        proof {
            lemma_spread_step(result, xb, yb, i, 0);
        }
        result = next;
        i = i + 1;
    }
    result
}

/// The inverse of `interleave`: the bits at even positions make the first
/// number, those at odd positions the second.
pub fn deinterleave(z: u32) -> (r: (u16, u16))
    ensures
        interleaves(r.0, r.1, z),
{
    let mut x: u32 = 0;
    let mut y: u32 = 0;
    let mut i: u32 = 0;
    assert(0u32 >> 0u32 == 0) by (bit_vector);
    while i < 16
        invariant
            i <= 16,
            x >> i == 0,
            y >> i == 0,
            forall|j: u32|
                j < i ==> #[trigger] bit_at(x, j) == bit_at(z, (2 * j) as u32) && bit_at(y, j)
                    == bit_at(z, (2 * j + 1) as u32),
        decreases 16 - i,
    {
        let xb: u32 = (z >> (2 * i)) & 1;
        let yb: u32 = (z >> (2 * i + 1)) & 1;
        assert(xb <= 1 && yb <= 1) by (bit_vector)
            requires
                xb == (z >> (2 * i) as u32) & 1,
                yb == (z >> (2 * i + 1) as u32) & 1,
        ;
        let nx = x | (xb << i);
        let ny = y | (yb << i);
        assert forall|j: u32| j < i + 1 implies #[trigger] bit_at(nx, j) == bit_at(z, (2 * j) as u32)
            && bit_at(ny, j) == bit_at(z, (2 * j + 1) as u32) by {
            lemma_gather_step(x, xb, i, j);
            lemma_gather_step(y, yb, i, j);
        }
        proof {
            lemma_gather_step(x, xb, i, 0);
            lemma_gather_step(y, yb, i, 0);
        }
        x = nx;
        y = ny;
        i = i + 1;
    }
    assert(x >> 16u32 == 0 ==> (x as u16) as u32 == x) by (bit_vector);
    assert(y >> 16u32 == 0 ==> (y as u16) as u32 == y) by (bit_vector);
    (x as u16, y as u16)
}

} // verus!
