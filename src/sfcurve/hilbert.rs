//! Hilbert-curve ids, per level and across a pyramid of levels.
use vstd::prelude::*;
use vstd::arithmetic::power2::{pow2, lemma_pow2_pos, lemma_pow2_unfold, lemma_pow2_strictly_increases, lemma2_to64};
use vstd::arithmetic::mul::lemma_mul_inequality;
use vstd::arithmetic::div_mod::{lemma_mod_breakdown, lemma_div_denominator, lemma_fundamental_div_mod_converse};
use vstd::std_specs::bits::u64_leading_zeros;
use vstd::bits::lemma_u32_shl_is_mul;

verus! {

/// Position of a quadrant along the curve: lower-left, upper-left,
/// upper-right, lower-right.
pub open spec fn quadrant(rx: bool, ry: bool) -> int {
    if !rx {
        if !ry { 0 } else { 1 }
    } else {
        if ry { 2 } else { 3 }
    }
}

/// The Hilbert rotation of a point inside a quadrant of side `s`: the
/// lower quadrants are transposed, the lower-right one also reflected.
pub open spec fn rotated(s: int, x: int, y: int, rx: bool, ry: bool) -> (int, int) {
    if !ry {
        if rx { (s - 1 - y, s - 1 - x) } else { (y, x) }
    } else {
        (x, y)
    }
}

/// Number of cells of the grid of side `2^level`.
pub open spec fn cells(level: nat) -> int {
    pow2(level) as int * pow2(level) as int
}

/// Hilbert distance of `(x, y)` on the grid of side `2^level`: the quadrant
/// of the point numbers the quarter of the curve it lies on, and the point,
/// rotated into that quadrant's frame, is placed within it at the level below.
pub open spec fn hilbert_index(level: nat, x: int, y: int) -> int
    decreases level,
{
    if level == 0 {
        0
    } else {
        let s = pow2((level - 1) as nat) as int;
        let rx = x >= s;
        let ry = y >= s;
        let lx = if rx { x - s } else { x };
        let ly = if ry { y - s } else { y };
        let p = rotated(s, lx, ly, rx, ry);
        quadrant(rx, ry) * (s * s) + hilbert_index((level - 1) as nat, p.0, p.1)
    }
}

proof fn lemma_cells_unfold(level: nat)
    requires
        level > 0,
    ensures
        cells(level) == 4 * cells((level - 1) as nat),
        pow2(level) == 2 * pow2((level - 1) as nat),
{
    lemma_pow2_unfold(level);
    let s = pow2((level - 1) as nat) as int;
    assert((2 * s) * (2 * s) == 4 * (s * s)) by (nonlinear_arith);
}

/// Every point of the grid has a distance below the number of cells.
pub proof fn lemma_hilbert_index_bound(level: nat, x: int, y: int)
    requires
        0 <= x < pow2(level),
        0 <= y < pow2(level),
    ensures
        0 <= hilbert_index(level, x, y) < cells(level),
    decreases level,
{
    if level > 0 {
        lemma_cells_unfold(level);
        let s = pow2((level - 1) as nat) as int;
        let rx = x >= s;
        let ry = y >= s;
        let lx = if rx { x - s } else { x };
        let ly = if ry { y - s } else { y };
        let p = rotated(s, lx, ly, rx, ry);
        lemma_hilbert_index_bound((level - 1) as nat, p.0, p.1);
        let q = quadrant(rx, ry);
        let h = hilbert_index((level - 1) as nat, p.0, p.1);
        assert(0 <= q * (s * s) + h < 4 * (s * s)) by (nonlinear_arith)
            requires
                0 <= q <= 3,
                0 <= h < s * s,
        ;
    } else {
        assert(cells(0) == 1) by {
            lemma2_to64();
        }
    }
}

/// `2^a`, for a shift that fits.
fn pow2_u32(a: u8) -> (r: u32)
    requires
        a <= 31,
    ensures
        r == pow2(a as nat),
        1 <= r <= 0x8000_0000,
{
    proof {
        lemma_pow2_pos(a as nat);
        lemma2_to64();
        if a < 31 {
            lemma_pow2_strictly_increases(a as nat, 31);
        }
        lemma_u32_shl_is_mul(1, a as u32);
    }
    1u32 << a
}

/// Rotates a point of a quadrant of side `s` into the frame of the curve's
/// quarter in that quadrant; the rotation is its own inverse.
fn rotate(s: u32, x: u32, y: u32, rx: bool, ry: bool) -> (r: (u32, u32))
    requires
        x < s,
        y < s,
    ensures
        r.0 as int == rotated(s as int, x as int, y as int, rx, ry).0,
        r.1 as int == rotated(s as int, x as int, y as int, rx, ry).1,
        r.0 < s,
        r.1 < s,
{
    if !ry {
        if rx {
            (s - 1 - y, s - 1 - x)
        } else {
            (y, x)
        }
    } else {
        (x, y)
    }
}

/// Hilbert distance of `(x, y)` on the grid of side `2^level`; coordinates
/// are taken modulo the side.
pub fn xy_to_hilbert(level: u8, x: u32, y: u32) -> (r: u64)
    requires
        level <= 31,
    ensures
        r == hilbert_index(level as nat, x as int % pow2(level as nat) as int, y as int % pow2(level as nat) as int),
{
    let n: u32 = pow2_u32(level);
    let mut x: u32 = x % n;
    let mut y: u32 = y % n;
    let ghost total = hilbert_index(level as nat, x as int, y as int);
    proof {
        lemma_hilbert_index_bound(level as nat, x as int, y as int);
        lemma2_to64();
        lemma_mul_inequality(pow2(level as nat) as int, 0x8000_0000, pow2(level as nat) as int);
        lemma_mul_inequality(pow2(level as nat) as int, 0x8000_0000, 0x8000_0000);
    }
    let mut acc: u64 = 0;
    let mut a: u8 = level;
    while a > 0
        invariant
            a <= level <= 31,
            0 <= x < pow2(a as nat),
            0 <= y < pow2(a as nat),
            acc + hilbert_index(a as nat, x as int, y as int) == total,
            total < 0x4000_0000_0000_0000,
        decreases a,
    {
        a = a - 1;
        let s = pow2_u32(a);
        proof {
            lemma_cells_unfold((a + 1) as nat);
        }
        let rx = x >= s;
        let ry = y >= s;
        if rx {
            x = x - s;
        }
        if ry {
            y = y - s;
        }
        let (nx, ny) = rotate(s, x, y, rx, ry);
        x = nx;
        y = ny;
        let q: u64 = if !rx {
            if !ry { 0 } else { 1 }
        } else {
            if ry { 2 } else { 3 }
        };
        proof {
            lemma_hilbert_index_bound(a as nat, x as int, y as int);
            let h = hilbert_index(a as nat, x as int, y as int);
            assert(0 <= q * (s * s) <= q * (s * s) + h);
            assert(q * (s * s) == q as int * s as int * s as int) by (nonlinear_arith);
        }
        acc = acc + q * (s as u64) * (s as u64);
    }
    acc
}

/// Grid point at distance `id` (taken modulo the number of cells) along the
/// Hilbert curve on the grid of side `2^level`.
pub fn hilbert_to_xy(level: u8, id: u64) -> (r: (u32, u32))
    requires
        level <= 31,
    ensures
        r.0 < pow2(level as nat),
        r.1 < pow2(level as nat),
        hilbert_index(level as nat, r.0 as int, r.1 as int) == id as int % cells(level as nat),
{
    let mut pos: u64 = id;
    let mut x: u32 = 0;
    let mut y: u32 = 0;
    let mut a: u8 = 0;
    proof {
        lemma2_to64();
    }
    while a < level
        invariant
            a <= level <= 31,
            x < pow2(a as nat),
            y < pow2(a as nat),
            cells(a as nat) > 0,
            pos == id as int / cells(a as nat),
            hilbert_index(a as nat, x as int, y as int) == id as int % cells(a as nat),
        decreases level - a,
    {
        let s = pow2_u32(a);
        let ghost x0 = x;
        let ghost y0 = y;
        let q = pos % 4;
        let rx = q >= 2;
        let ry = q == 1 || q == 2;
        let (nx, ny) = rotate(s, x, y, rx, ry);
        x = nx;
        y = ny;
        if rx {
            x = x + s;
        }
        if ry {
            y = y + s;
        }
        pos = pos / 4;
        proof {
            lemma_cells_unfold((a + 1) as nat);
            let c = cells(a as nat);
            lemma_mod_breakdown(id as int, c, 4);
            lemma_div_denominator(id as int, c, 4);
            assert(c * 4 == cells((a + 1) as nat));
            assert(quadrant(rx, ry) == q as int);
            assert(hilbert_index((a + 1) as nat, x as int, y as int) == q * c + hilbert_index(
                a as nat,
                x0 as int,
                y0 as int,
            ));
            assert(c * (q as int) == (q as int) * c) by (nonlinear_arith);
            assert(hilbert_index((a + 1) as nat, x as int, y as int) == id as int % cells(
                (a + 1) as nat,
            ));
        }
        a = a + 1;
    }
    (x, y)
}

/// Number of cells on all levels below `level`: the first global id of `level`.
pub open spec fn level_base(level: nat) -> int
    decreases level,
{
    if level == 0 {
        0
    } else {
        level_base((level - 1) as nat) + cells((level - 1) as nat)
    }
}

proof fn lemma_level_base(level: nat)
    ensures
        3 * level_base(level) + 1 == cells(level),
    decreases level,
{
    if level == 0 {
        lemma2_to64();
    } else {
        lemma_level_base((level - 1) as nat);
        lemma_cells_unfold(level);
    }
}

/// The cells of level `level`, counted as a power of two.
proof fn lemma_cells_pow2(level: nat)
    ensures
        cells(level) == pow2(2 * level),
{
    vstd::arithmetic::power2::lemma_pow2_adds(level, level);
}

/// First global id of a level, as `u64`.
fn level_base_u64(level: u8) -> (r: u64)
    requires
        level <= 31,
    ensures
        r == level_base(level as nat),
        r < 0x1555_5555_5555_5556,
{
    let side = pow2_u32(level) as u64;
    proof {
        lemma_level_base(level as nat);
        lemma2_to64();
        lemma_mul_inequality(side as int, 0x8000_0000, side as int);
        lemma_mul_inequality(side as int, 0x8000_0000, 0x8000_0000);
        lemma_pow2_pos(level as nat);
        assert(side * side >= 1) by (nonlinear_arith)
            requires
                side >= 1,
        ;
    }
    (side * side - 1) / 3
}

/// Global id of tile `(x, y)` of level `level`: the cells of all lower levels
/// come first, then the Hilbert distance within the level (coordinates taken
/// modulo the side).
pub fn zxy_to_hilbert(level: u8, x: u32, y: u32) -> (r: u64)
    requires
        level <= 31,
    ensures
        r == level_base(level as nat) + hilbert_index(
            level as nat,
            x as int % pow2(level as nat) as int,
            y as int % pow2(level as nat) as int,
        ),
{
    let base = level_base_u64(level);
    let d = xy_to_hilbert(level, x, y);
    proof {
        lemma_pow2_pos(level as nat);
        lemma_hilbert_index_bound(
            level as nat,
            x as int % pow2(level as nat) as int,
            y as int % pow2(level as nat) as int,
        );
        lemma2_to64();
        if level < 31 {
            lemma_pow2_strictly_increases(level as nat, 31);
        }
        lemma_mul_inequality(pow2(level as nat) as int, 0x8000_0000, pow2(level as nat) as int);
        lemma_mul_inequality(pow2(level as nat) as int, 0x8000_0000, 0x8000_0000);
        assert(cells(level as nat) <= 0x4000_0000_0000_0000) by (nonlinear_arith)
            requires
                0 <= pow2(level as nat) <= 0x8000_0000,
        ;
    }
    base + d
}

/// Bit length of a positive `u64`, through its leading zeros.
proof fn lemma_bit_length(t: u64)
    requires
        t > 0,
    ensures
        0 <= u64_leading_zeros(t) < 64,
        pow2((63 - u64_leading_zeros(t)) as nat) <= t < pow2((64 - u64_leading_zeros(t)) as nat),
    decreases t,
{
    reveal_with_fuel(u64_leading_zeros, 2);
    lemma2_to64();
    if t > 1 {
        let h = (t / 2) as u64;
        lemma_bit_length(h);
        let e = (63 - u64_leading_zeros(h)) as nat;
        assert(u64_leading_zeros(t) == u64_leading_zeros(h) - 1);
        lemma_pow2_unfold(e + 1);
        lemma_pow2_unfold(e + 2);
    }
}

/// Level and tile coordinates of a global id.
pub fn hilbert_to_zxy(id: u64) -> (r: (u8, u32, u32))
    requires
        id < 0x5555_5555_5555_5555,
    ensures
        r.0 <= 31,
        level_base(r.0 as nat) <= id < level_base(r.0 as nat + 1),
        r.1 < pow2(r.0 as nat),
        r.2 < pow2(r.0 as nat),
        level_base(r.0 as nat) + hilbert_index(r.0 as nat, r.1 as int, r.2 as int) == id,
{
    let t = 3 * id + 1;
    let lz = t.leading_zeros();
    proof {
        lemma_bit_length(t);
    }
    let bits = 64 - lz;
    let level = ((bits - 1) / 2) as u8;
    proof {
        let l = level as nat;
        lemma_cells_pow2(l);
        lemma_cells_pow2(l + 1);
        let b = (bits - 1) as nat;
        if 2 * l < b {
            lemma_pow2_strictly_increases(2 * l, b);
        }
        if b + 1 < 2 * (l + 1) {
            lemma_pow2_strictly_increases(b + 1, 2 * (l + 1));
        }
        lemma_level_base(l);
        lemma_level_base(l + 1);
        assert(level_base(l + 1) == level_base(l) + cells(l));
    }
    let base = level_base_u64(level);
    let local = id - base;
    let (x, y) = hilbert_to_xy(level, local);
    proof {
        vstd::arithmetic::div_mod::lemma_small_mod(local as nat, cells(level as nat) as nat);
    }
    (level, x, y)
}

/// Distinct grid points have distinct distances.
proof fn lemma_hilbert_injective(level: nat, x1: int, y1: int, x2: int, y2: int)
    requires
        0 <= x1 < pow2(level),
        0 <= y1 < pow2(level),
        0 <= x2 < pow2(level),
        0 <= y2 < pow2(level),
        hilbert_index(level, x1, y1) == hilbert_index(level, x2, y2),
    ensures
        x1 == x2,
        y1 == y2,
    decreases level,
{
    if level == 0 {
        lemma2_to64();
    } else {
        lemma_cells_unfold(level);
        let s = pow2((level - 1) as nat) as int;
        lemma_pow2_pos((level - 1) as nat);
        let rx1 = x1 >= s;
        let ry1 = y1 >= s;
        let p1 = rotated(s, if rx1 { x1 - s } else { x1 }, if ry1 { y1 - s } else { y1 }, rx1, ry1);
        let rx2 = x2 >= s;
        let ry2 = y2 >= s;
        let p2 = rotated(s, if rx2 { x2 - s } else { x2 }, if ry2 { y2 - s } else { y2 }, rx2, ry2);
        lemma_hilbert_index_bound((level - 1) as nat, p1.0, p1.1);
        lemma_hilbert_index_bound((level - 1) as nat, p2.0, p2.1);
        let h1 = hilbert_index((level - 1) as nat, p1.0, p1.1);
        let h2 = hilbert_index((level - 1) as nat, p2.0, p2.1);
        let q1 = quadrant(rx1, ry1);
        let q2 = quadrant(rx2, ry2);
        let total = q1 * (s * s) + h1;
        assert(s * s > 0) by (nonlinear_arith)
            requires
                s > 0,
        ;
        lemma_fundamental_div_mod_converse(total, s * s, q1, h1);
        lemma_fundamental_div_mod_converse(total, s * s, q2, h2);
        assert(q1 == q2) by (nonlinear_arith)
            requires
                q1 * (s * s) + h1 == q2 * (s * s) + h2,
                h1 == h2,
                s * s > 0,
        ;
        lemma_hilbert_injective((level - 1) as nat, p1.0, p1.1, p2.0, p2.1);
    }
}

/// Per level, the point read back from the distance of `(x, y)` is
/// `(x, y)` again.
pub proof fn lemma_hilbert_round_trip(level: nat, x: int, y: int)
    requires
        0 <= x < pow2(level),
        0 <= y < pow2(level),
    ensures
        forall|p: (int, int)|
            0 <= p.0 < pow2(level) && 0 <= p.1 < pow2(level) && #[trigger] hilbert_index(
                level,
                p.0,
                p.1,
            ) == hilbert_index(level, x, y) % cells(level) ==> p == (x, y),
{
    lemma_hilbert_index_bound(level, x, y);
    vstd::arithmetic::div_mod::lemma_small_mod(
        hilbert_index(level, x, y) as nat,
        cells(level) as nat,
    );
    assert forall|p: (int, int)|
        0 <= p.0 < pow2(level) && 0 <= p.1 < pow2(level) && #[trigger] hilbert_index(
            level,
            p.0,
            p.1,
        ) == hilbert_index(level, x, y) % cells(level) implies p == (x, y) by {
        lemma_hilbert_injective(level, p.0, p.1, x, y);
    }
}

/// Across levels, the level and tile read back from the global id of a
/// tile are that level and tile again.
pub proof fn lemma_zxy_round_trip(level: nat, x: int, y: int)
    requires
        level <= 31,
        0 <= x < pow2(level),
        0 <= y < pow2(level),
    ensures
        forall|l: nat, px: int, py: int|
            0 <= px < pow2(l) && 0 <= py < pow2(l) && #[trigger] (level_base(l) + hilbert_index(
                l,
                px,
                py,
            )) == level_base(level) + hilbert_index(level, x, y) ==> l == level && px == x && py
                == y,
{
    assert forall|l: nat, px: int, py: int|
        0 <= px < pow2(l) && 0 <= py < pow2(l) && #[trigger] (level_base(l) + hilbert_index(
            l,
            px,
            py,
        )) == level_base(level) + hilbert_index(level, x, y) implies l == level && px == x && py
        == y by {
        lemma_hilbert_index_bound(level, x, y);
        lemma_hilbert_index_bound(l, px, py);
        if l < level {
            lemma_level_base_grows(l + 1, level);
        } else if level < l {
            lemma_level_base_grows(level + 1, l);
        }
        lemma_hilbert_injective(level, px, py, x, y);
    }
}

proof fn lemma_level_base_grows(a: nat, b: nat)
    requires
        a <= b,
    ensures
        level_base(a) <= level_base(b),
    decreases b - a,
{
    if a < b {
        lemma_level_base_grows(a, (b - 1) as nat);
        lemma_pow2_pos((b - 1) as nat);
        assert(cells((b - 1) as nat) > 0) by (nonlinear_arith)
            requires
                pow2((b - 1) as nat) > 0,
        ;
    }
}

} // verus!
