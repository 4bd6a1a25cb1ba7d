//! Delta encoding of integer sequences against a bias.
use vstd::prelude::*;
use vstd::arithmetic::div_mod::{lemma_add_mod_noop, lemma_mod_add_multiples_vanish, lemma_small_mod};

verus! {

/// Reduction of an integer into `u64`, as fixed-width wrapping arithmetic does.
pub open spec fn wrap64(v: int) -> u64 {
    (v % 0x1_0000_0000_0000_0000) as u64
}

/// The delta encoding of `s` against bias `a`: the first element unchanged,
/// every later one the (wrapping) difference to its predecessor minus `a`.
pub open spec fn delta_encoded(s: Seq<u64>, a: u64) -> Seq<u64> {
    Seq::new(s.len(), |i: int| if i == 0 { s[0] } else { wrap64(s[i] - s[i - 1] - a) })
}

/// The delta decoding of `e` against bias `a`: the first element unchanged,
/// every later one its decoded predecessor plus the delta plus `a` (wrapping).
pub open spec fn delta_decoded(e: Seq<u64>, a: u64) -> Seq<u64>
    decreases e.len(),
{
    if e.len() <= 1 {
        e
    } else {
        let p = delta_decoded(e.drop_last(), a);
        p.push(wrap64(p.last() + e.last() + a))
    }
}

proof fn lemma_wrapping_sub(x: u64, y: u64)
    ensures
        x.wrapping_sub(y) == wrap64(x - y),
{
    let m: int = 0x1_0000_0000_0000_0000;
    if x - y < 0 {
        lemma_mod_add_multiples_vanish(x - y, m);
        lemma_small_mod((x - y + m) as nat, m as nat);
    } else {
        lemma_small_mod((x - y) as nat, m as nat);
    }
}

proof fn lemma_wrapping_add(x: u64, y: u64)
    ensures
        x.wrapping_add(y) == wrap64(x + y),
{
    let m: int = 0x1_0000_0000_0000_0000;
    if x + y > u64::MAX {
        lemma_mod_add_multiples_vanish(x + y - m, m);
        lemma_small_mod((x + y - m) as nat, m as nat);
    } else {
        lemma_small_mod((x + y) as nat, m as nat);
    }
}

proof fn lemma_wrap_absorb(x: int, y: int)
    ensures
        wrap64(x + wrap64(y)) == wrap64(x + y),
        wrap64(wrap64(y) + x) == wrap64(x + y),
{
    let m: int = 0x1_0000_0000_0000_0000;
    lemma_add_mod_noop(x, y, m);
    lemma_add_mod_noop(x, y % m, m);
    assert((y % m) % m == y % m) by {
        vstd::arithmetic::div_mod::lemma_mod_twice(y, m);
    }
}

proof fn lemma_decoded_len(e: Seq<u64>, a: u64)
    ensures
        delta_decoded(e, a).len() == e.len(),
    decreases e.len(),
{
    if e.len() > 1 {
        lemma_decoded_len(e.drop_last(), a);
    }
}

/// Decoding what was encoded gives back the encoded sequence, for every
/// bias and every sequence (differences wrap, so no order is needed).
pub proof fn lemma_delta_round_trip(s: Seq<u64>, a: u64)
    ensures
        delta_decoded(delta_encoded(s, a), a) == s,
    decreases s.len(),
{
    let e = delta_encoded(s, a);
    if s.len() <= 1 {
        assert(e == s);
    } else {
        let t = s.drop_last();
        assert(e.drop_last() == delta_encoded(t, a));
        lemma_delta_round_trip(t, a);
        let n = s.len() - 1;
        lemma_wrap_absorb(s[n - 1] + a, s[n] - s[n - 1] - a);
        lemma_small_mod(s[n] as nat, 0x1_0000_0000_0000_0000nat);
        assert(delta_decoded(e, a) == t.push(s[n]));
        assert(t.push(s[n]) == s);
    }
}

/// Delta-encodes `s` against bias `a`.
pub fn delta_encode(s: &[u64], a: u64) -> (r: Vec<u64>)
    ensures
        r@ == delta_encoded(s@, a),
{
    let mut r: Vec<u64> = Vec::new();
    let mut i: usize = 0;
    while i < s.len()
        invariant
            i <= s.len(),
            r@ == delta_encoded(s@.subrange(0, i as int), a),
        decreases s.len() - i,
    {
        if i == 0 {
            r.push(s[0]);
        } else {
            let d = s[i].wrapping_sub(s[i - 1]).wrapping_sub(a);
            proof {
                lemma_wrapping_sub(s[i as int], s[i - 1]);
                lemma_wrapping_sub(s[i as int].wrapping_sub(s[i - 1]), a);
                lemma_wrap_absorb(-(a as int), s[i as int] - s[i - 1]);
            }
            r.push(d);
        }
        i = i + 1;
        assert(r@ == delta_encoded(s@.subrange(0, i as int), a));
    }
    assert(s@.subrange(0, s.len() as int) == s@);
    r
}

/// Delta-decodes `e` against bias `a`.
pub fn delta_decode(e: &[u64], a: u64) -> (r: Vec<u64>)
    ensures
        r@ == delta_decoded(e@, a),
        r@.len() == e@.len(),
{
    let mut r: Vec<u64> = Vec::new();
    let mut prev: u64 = 0;
    let mut i: usize = 0;
    while i < e.len()
        invariant
            i <= e.len(),
            r@ == delta_decoded(e@.subrange(0, i as int), a),
            i > 0 ==> prev == r@.last(),
        decreases e.len() - i,
    {
        proof {
            lemma_decoded_len(e@.subrange(0, i as int), a);
        }
        let v = if i == 0 {
            e[0]
        } else {
            proof {
                lemma_wrapping_add(prev, e[i as int]);
                lemma_wrapping_add(prev.wrapping_add(e[i as int]), a);
                lemma_wrap_absorb(a as int, prev + e[i as int]);
            }
            prev.wrapping_add(e[i]).wrapping_add(a)
        };
        r.push(v);
        prev = v;
        i = i + 1;
        proof {
            let sub = e@.subrange(0, i as int);
            if i > 1 {
                assert(sub.drop_last() == e@.subrange(0, i - 1));
            }
        }
    }
    assert(e@.subrange(0, e.len() as int) == e@);
    proof {
        lemma_decoded_len(e@, a);
    }
    r
}

} // verus!
