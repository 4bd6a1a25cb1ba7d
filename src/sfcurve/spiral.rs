//! Square-spiral ids: concentric rings around the origin.
use vstd::prelude::*;

verus! {

/// Absolute value.
pub open spec fn magnitude(v: int) -> int {
    if v < 0 { -v } else { v }
}

/// Ring of a point: its distance `|x| + |y|` from the origin.
pub open spec fn ring(x: int, y: int) -> int {
    magnitude(x) + magnitude(y)
}

/// First id of ring `d`: the origin is 0, ring `d >= 1` starts at `2d(d-1) + 1`.
pub open spec fn ring_start(d: int) -> int {
    if d == 0 { 0 } else { 2 * d * (d - 1) + 1 }
}

/// Spiral id of `(x, y)`: ring `d` is walked counter-clockwise along its four
/// edges, starting at `(d, 0)`.
pub open spec fn spiral_index(x: int, y: int) -> int {
    let d = ring(x, y);
    let start = ring_start(d);
    if x > 0 && y >= 0 {
        start + d - x
    } else if x <= 0 && y > 0 {
        start + 2 * d - y
    } else if x < 0 && y <= 0 {
        start + 3 * d + x
    } else {
        start + 4 * d + y
    }
}

/// Largest ring whose ids all fit below `2^31`.
pub const MAX_RING: u32 = 32767;

/// Largest spiral id: the last one of ring `MAX_RING`.
pub const MAX_SPIRAL_ID: u32 = 2147418112;

/// Spiral id of `(x, y)`.
pub fn xy_to_spiral(x: i16, y: i16) -> (r: u32)
    requires
        ring(x as int, y as int) <= MAX_RING,
    ensures
        r == spiral_index(x as int, y as int),
{
    let x = x as i32;
    let y = y as i32;
    let ax = if x < 0 { -x } else { x };
    let ay = if y < 0 { -y } else { y };
    let d = ax + ay;
    let start = if d == 0 {
        0
    } else {
        proof {
            assert(0 <= d * (d - 1) <= 32767 * 32766) by (nonlinear_arith)
                requires
                    1 <= d <= 32767,
            ;
        }
        assert(d * (d - 1) * 2 == 2 * d * (d - 1)) by (nonlinear_arith);
        d * (d - 1) * 2 + 1
    };
    assert(start == ring_start(d as int));
    (if x > 0 && y >= 0 {
        start + d - x
    } else if x <= 0 && y > 0 {
        start + 2 * d - y
    } else if x < 0 && y <= 0 {
        start + 3 * d + x
    } else {
        start + 4 * d + y
    }) as u32
}

/// The point at offset `a` (`0 <= a < 4d`) along ring `d`.
pub open spec fn ring_point(d: int, a: int) -> (int, int) {
    if a < d {
        (d - a, a)
    } else if a < 2 * d {
        (d - a, 2 * d - a)
    } else if a < 3 * d {
        (a - 3 * d, 2 * d - a)
    } else {
        (a - 3 * d, a - 4 * d)
    }
}

proof fn lemma_ring_start_next(d: int)
    requires
        d >= 0,
    ensures
        ring_start(d + 1) == ring_start(d) + 4 * d + if d == 0 { 1int } else { 0int },
{
    assert(2 * (d + 1) * d == 2 * d * (d - 1) + 4 * d) by (nonlinear_arith);
}

proof fn lemma_ring_start_grows(d1: int, d2: int)
    requires
        0 <= d1 < d2,
    ensures
        ring_start(d1 + 1) <= ring_start(d2),
{
    lemma_ring_start_next(d1);
    if d1 > 0 {
        assert(2 * (d1 + 1) * d1 <= 2 * d2 * (d2 - 1)) by (nonlinear_arith)
            requires
                0 < d1 < d2,
        ;
    }
}

/// A point off the origin lies at offset `spiral_index - ring_start` of its
/// ring, and that offset gives the point back.
proof fn lemma_ring_offset(x: int, y: int)
    requires
        ring(x, y) >= 1,
    ensures
        0 <= spiral_index(x, y) - ring_start(ring(x, y)) < 4 * ring(x, y),
        ring_point(ring(x, y), spiral_index(x, y) - ring_start(ring(x, y))) == (x, y),
{
}

/// The spiral id of a point lies within the ids of its ring.
proof fn lemma_in_ring(x: int, y: int)
    ensures
        ring_start(ring(x, y)) <= spiral_index(x, y) < ring_start(ring(x, y) + 1),
{
    lemma_ring_start_next(ring(x, y));
}

/// Distinct points have distinct spiral ids.
proof fn lemma_spiral_injective(x1: int, y1: int, x2: int, y2: int)
    requires
        spiral_index(x1, y1) == spiral_index(x2, y2),
    ensures
        x1 == x2,
        y1 == y2,
{
    let d1 = ring(x1, y1);
    let d2 = ring(x2, y2);
    lemma_in_ring(x1, y1);
    lemma_in_ring(x2, y2);
    if d1 < d2 {
        lemma_ring_start_grows(d1, d2);
    } else if d2 < d1 {
        lemma_ring_start_grows(d2, d1);
    } else if d1 >= 1 {
        lemma_ring_offset(x1, y1);
        lemma_ring_offset(x2, y2);
    }
}

/// Point of the spiral with id `id`.
pub fn spiral_to_xy(id: u32) -> (r: (i16, i16))
    requires
        id <= MAX_SPIRAL_ID,
    ensures
        ring(r.0 as int, r.1 as int) <= MAX_RING,
        spiral_index(r.0 as int, r.1 as int) == id,
{
    if id == 0 {
        return (0, 0);
    }
    let mut d: u32 = 0;
    while (d + 1) * d * 2 + 1 <= id
        invariant
            d <= MAX_RING,
            id <= MAX_SPIRAL_ID,
            ring_start(d as int) <= id,
            (d + 1) * d * 2 + 1 <= 2147418113,
        decreases MAX_RING - d,
    {
        proof {
            assert(d < 32767) by (nonlinear_arith)
                requires
                    (d + 1) * d * 2 + 1 <= id,
                    id <= 2147418112,
            ;
            assert((d + 1) * d * 2 == 2 * (d + 1) * ((d + 1) - 1)) by (nonlinear_arith);
            assert((d + 2) * (d + 1) * 2 + 1 <= 2147418113) by (nonlinear_arith)
                requires
                    d < 32767,
            ;
        }
        d = d + 1;
    }
    proof {
        lemma_ring_start_next(d as int);
        assert(d >= 1);
        assert(d * (d - 1) * 2 == 2 * d * (d - 1)) by (nonlinear_arith);
        assert((d + 1) * d * 2 == 2 * (d + 1) * ((d + 1) - 1)) by (nonlinear_arith);
        assert(id < ring_start(d + 1));
    }
    let a = id - (d * (d - 1) * 2 + 1);
    if a < d {
        ((d - a) as i16, a as i16)
    } else if a < 2 * d {
        (-((a - d) as i16), (2 * d - a) as i16)
    } else if a < 3 * d {
        (-((3 * d - a) as i16), -((a - 2 * d) as i16))
    } else {
        ((a - 3 * d) as i16, -((4 * d - a) as i16))
    }
}

/// Over the range of safe rings, the point read back from the spiral id of
/// `(x, y)` is `(x, y)` again.
pub proof fn lemma_spiral_round_trip(x: i16, y: i16)
    requires
        ring(x as int, y as int) <= MAX_RING,
    ensures
        forall|p: (i16, i16)|
            #[trigger] spiral_index(p.0 as int, p.1 as int) == spiral_index(x as int, y as int)
                ==> p == (x, y),
{
    assert forall|p: (i16, i16)|
        #[trigger] spiral_index(p.0 as int, p.1 as int) == spiral_index(
            x as int,
            y as int,
        ) implies p == (x, y) by {
        lemma_spiral_injective(p.0 as int, p.1 as int, x as int, y as int);
    }
}

} // verus!
