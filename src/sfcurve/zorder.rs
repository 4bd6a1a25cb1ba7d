//! Morton (Z-order) ids: the bits of `x` and `y` interleaved.
use vstd::prelude::*;

verus! {

/// Bit `i` of `v`.
pub open spec fn bit(v: u64, i: u64) -> bool {
    (v >> i) & 1 == 1
}

/// `id` is the Z-order id of `(x, y)`: bit `i` of `x` stands at bit `2i`
/// of `id`, bit `i` of `y` at bit `2i + 1`.
pub open spec fn is_zorder(id: u64, x: u32, y: u32) -> bool {
    forall|i: u64|
        i < 32 ==> #[trigger] bit(id, (2 * i) as u64) == bit(x as u64, i) && bit(
            id,
            (2 * i + 1) as u64,
        ) == bit(y as u64, i)
}

proof fn lemma_spread(x: u64, x1: u64, x2: u64, x3: u64, x4: u64, x5: u64)
    by (bit_vector)
    requires
        x < 0x1_0000_0000,
        x1 == (x | (x << 16)) & 0x0000FFFF0000FFFF,
        x2 == (x1 | (x1 << 8)) & 0x00FF00FF00FF00FF,
        x3 == (x2 | (x2 << 4)) & 0x0F0F0F0F0F0F0F0F,
        x4 == (x3 | (x3 << 2)) & 0x3333333333333333,
        x5 == (x4 | (x4 << 1)) & 0x5555555555555555,
    ensures
        forall|i: u64| i < 32 ==> #[trigger] ((x5 >> ((2 * i) as u64)) & 1) == ((x >> i) & 1),
        x5 & 0xAAAAAAAAAAAAAAAA == 0,
{
}

proof fn lemma_odd_even(id: u64, sx: u64, sy: u64)
    by (bit_vector)
    requires
        sx & 0xAAAAAAAAAAAAAAAA == 0,
        sy & 0xAAAAAAAAAAAAAAAA == 0,
        id == sx + (sy << 1),
    ensures
        forall|i: u64| i < 32 ==> #[trigger] ((id >> ((2 * i) as u64)) & 1) == ((sx >> ((2 * i) as u64)) & 1),
        forall|i: u64| i < 32 ==> #[trigger] ((id >> ((2 * i + 1) as u64)) & 1) == ((sy >> ((2 * i) as u64)) & 1),
{
}

/// Interleaves the bits of `x` (even positions) and `y` (odd positions).
pub fn xy_to_zorder(x: u32, y: u32) -> (r: u64)
    ensures
        is_zorder(r, x, y),
{
    let x = x as u64;
    let y = y as u64;

    let x1 = (x | (x << 16)) & 0x0000FFFF0000FFFF;
    let x2 = (x1 | (x1 << 8)) & 0x00FF00FF00FF00FF;
    let x3 = (x2 | (x2 << 4)) & 0x0F0F0F0F0F0F0F0F;
    let x4 = (x3 | (x3 << 2)) & 0x3333333333333333;
    let x5 = (x4 | (x4 << 1)) & 0x5555555555555555;

    let y1 = (y | (y << 16)) & 0x0000FFFF0000FFFF;
    let y2 = (y1 | (y1 << 8)) & 0x00FF00FF00FF00FF;
    let y3 = (y2 | (y2 << 4)) & 0x0F0F0F0F0F0F0F0F;
    let y4 = (y3 | (y3 << 2)) & 0x3333333333333333;
    let y5 = (y4 | (y4 << 1)) & 0x5555555555555555;

    proof {
        lemma_spread(x, x1, x2, x3, x4, x5);
        lemma_spread(y, y1, y2, y3, y4, y5);
        assert(x5 + (y5 << 1) <= u64::MAX) by (bit_vector)
            requires
                x5 & 0xAAAAAAAAAAAAAAAA == 0,
                y5 & 0xAAAAAAAAAAAAAAAA == 0,
        ;
    }
    let r = x5 + (y5 << 1);
    proof {
        lemma_odd_even(r, x5, y5);
    }
    r
}

proof fn lemma_compact(v: u64, v0: u64, v1: u64, v2: u64, v3: u64, v4: u64, v5: u64)
    by (bit_vector)
    requires
        v0 == v & 0x5555555555555555,
        v1 == (v0 | (v0 >> 1)) & 0x3333333333333333,
        v2 == (v1 | (v1 >> 2)) & 0x0F0F0F0F0F0F0F0F,
        v3 == (v2 | (v2 >> 4)) & 0x00FF00FF00FF00FF,
        v4 == (v3 | (v3 >> 8)) & 0x0000FFFF0000FFFF,
        v5 == (v4 | (v4 >> 16)) & 0x00000000FFFFFFFF,
    ensures
        forall|i: u64| i < 32 ==> #[trigger] ((v5 >> i) & 1) == ((v >> ((2 * i) as u64)) & 1),
        v5 < 0x1_0000_0000,
{
}

proof fn lemma_shift_one(id: u64)
    by (bit_vector)
    ensures
        forall|i: u64| i < 32 ==> #[trigger] (((id >> 1) >> ((2 * i) as u64)) & 1) == ((id >> ((2 * i + 1) as u64)) & 1),
{
}

/// Splits the even bits of `id` into `x` and the odd bits into `y`.
pub fn zorder_to_xy(id: u64) -> (r: (u32, u32))
    ensures
        is_zorder(id, r.0, r.1),
{
    let x = id;
    let y = id >> 1;

    let x0 = x & 0x5555555555555555;
    let x1 = (x0 | (x0 >> 1)) & 0x3333333333333333;
    let x2 = (x1 | (x1 >> 2)) & 0x0F0F0F0F0F0F0F0F;
    let x3 = (x2 | (x2 >> 4)) & 0x00FF00FF00FF00FF;
    let x4 = (x3 | (x3 >> 8)) & 0x0000FFFF0000FFFF;
    let x5 = (x4 | (x4 >> 16)) & 0x00000000FFFFFFFF;

    let y0 = y & 0x5555555555555555;
    let y1 = (y0 | (y0 >> 1)) & 0x3333333333333333;
    let y2 = (y1 | (y1 >> 2)) & 0x0F0F0F0F0F0F0F0F;
    let y3 = (y2 | (y2 >> 4)) & 0x00FF00FF00FF00FF;
    let y4 = (y3 | (y3 >> 8)) & 0x0000FFFF0000FFFF;
    let y5 = (y4 | (y4 >> 16)) & 0x00000000FFFFFFFF;

    proof {
        lemma_compact(x, x0, x1, x2, x3, x4, x5);
        lemma_compact(y, y0, y1, y2, y3, y4, y5);
        lemma_shift_one(id);
    }
    (x5 as u32, y5 as u32)
}

proof fn lemma_bits_determine(a: u64, b: u64)
    by (bit_vector)
    requires
        a < 0x1_0000_0000,
        b < 0x1_0000_0000,
        bit(a, 0) == bit(b, 0),
        bit(a, 1) == bit(b, 1),
        bit(a, 2) == bit(b, 2),
        bit(a, 3) == bit(b, 3),
        bit(a, 4) == bit(b, 4),
        bit(a, 5) == bit(b, 5),
        bit(a, 6) == bit(b, 6),
        bit(a, 7) == bit(b, 7),
        bit(a, 8) == bit(b, 8),
        bit(a, 9) == bit(b, 9),
        bit(a, 10) == bit(b, 10),
        bit(a, 11) == bit(b, 11),
        bit(a, 12) == bit(b, 12),
        bit(a, 13) == bit(b, 13),
        bit(a, 14) == bit(b, 14),
        bit(a, 15) == bit(b, 15),
        bit(a, 16) == bit(b, 16),
        bit(a, 17) == bit(b, 17),
        bit(a, 18) == bit(b, 18),
        bit(a, 19) == bit(b, 19),
        bit(a, 20) == bit(b, 20),
        bit(a, 21) == bit(b, 21),
        bit(a, 22) == bit(b, 22),
        bit(a, 23) == bit(b, 23),
        bit(a, 24) == bit(b, 24),
        bit(a, 25) == bit(b, 25),
        bit(a, 26) == bit(b, 26),
        bit(a, 27) == bit(b, 27),
        bit(a, 28) == bit(b, 28),
        bit(a, 29) == bit(b, 29),
        bit(a, 30) == bit(b, 30),
        bit(a, 31) == bit(b, 31),
    ensures
        a == b,
{
}

/// Two 32-bit values with the same bits are equal.
proof fn lemma_bits_eq(a: u64, b: u64)
    requires
        a < 0x1_0000_0000,
        b < 0x1_0000_0000,
        forall|i: u64| i < 32 ==> #[trigger] bit(a, i) == bit(b, i),
    ensures
        a == b,
{
    assert(bit(a, 0) == bit(b, 0));
    assert(bit(a, 1) == bit(b, 1));
    assert(bit(a, 2) == bit(b, 2));
    assert(bit(a, 3) == bit(b, 3));
    assert(bit(a, 4) == bit(b, 4));
    assert(bit(a, 5) == bit(b, 5));
    assert(bit(a, 6) == bit(b, 6));
    assert(bit(a, 7) == bit(b, 7));
    assert(bit(a, 8) == bit(b, 8));
    assert(bit(a, 9) == bit(b, 9));
    assert(bit(a, 10) == bit(b, 10));
    assert(bit(a, 11) == bit(b, 11));
    assert(bit(a, 12) == bit(b, 12));
    assert(bit(a, 13) == bit(b, 13));
    assert(bit(a, 14) == bit(b, 14));
    assert(bit(a, 15) == bit(b, 15));
    assert(bit(a, 16) == bit(b, 16));
    assert(bit(a, 17) == bit(b, 17));
    assert(bit(a, 18) == bit(b, 18));
    assert(bit(a, 19) == bit(b, 19));
    assert(bit(a, 20) == bit(b, 20));
    assert(bit(a, 21) == bit(b, 21));
    assert(bit(a, 22) == bit(b, 22));
    assert(bit(a, 23) == bit(b, 23));
    assert(bit(a, 24) == bit(b, 24));
    assert(bit(a, 25) == bit(b, 25));
    assert(bit(a, 26) == bit(b, 26));
    assert(bit(a, 27) == bit(b, 27));
    assert(bit(a, 28) == bit(b, 28));
    assert(bit(a, 29) == bit(b, 29));
    assert(bit(a, 30) == bit(b, 30));
    assert(bit(a, 31) == bit(b, 31));
    lemma_bits_determine(a, b);
}

/// Z-order ids are a bijection: the coordinates read back from the id of
/// `(x, y)` are `(x, y)` again.
pub proof fn lemma_zorder_round_trip(x: u32, y: u32)
    ensures
        forall|id: u64, p: (u32, u32)|
            is_zorder(id, x, y) && #[trigger] is_zorder(id, p.0, p.1) ==> p == (x, y),
{
    assert forall|id: u64, p: (u32, u32)|
        is_zorder(id, x, y) && #[trigger] is_zorder(id, p.0, p.1) implies p == (x, y) by {
        assert forall|i: u64| i < 32 implies #[trigger] bit(p.0 as u64, i) == bit(x as u64, i) by {
            assert(bit(id, (2 * i) as u64) == bit(x as u64, i));
        }
        assert forall|i: u64| i < 32 implies #[trigger] bit(p.1 as u64, i) == bit(y as u64, i) by {
            assert(bit(id, (2 * i) as u64) == bit(x as u64, i));
        }
        lemma_bits_eq(p.0 as u64, x as u64);
        lemma_bits_eq(p.1 as u64, y as u64);
    }
}

} // verus!
