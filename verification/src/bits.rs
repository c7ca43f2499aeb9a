//! Bitboards as 64-bit sets of squares, and the facts about bit operations
//! that the rest of the crate reasons with.
use vstd::prelude::*;
use vstd::std_specs::bits::{axiom_u64_trailing_zeros, u64_trailing_zeros};

verus! {

/// The bitboard holding square `s` alone.
pub open spec fn bit(s: int) -> u64 {
    1u64 << (s as u64)
}

/// Whether bitboard `b` holds square `s`.
pub open spec fn in_bb(b: u64, s: int) -> bool {
    (b >> (s as u64)) & 1u64 == 1u64
}

/// A square index of the board.
pub open spec fn is_square(s: int) -> bool {
    0 <= s < 64
}

/// The bitboard holds exactly one square.
pub open spec fn single_bit(b: u64) -> bool {
    exists|s: int| is_square(s) && b == #[trigger] bit(s)
}

pub proof fn lemma_has_or(a: u64, b: u64, t: u64)
    requires
        t < 64,
    ensures
        in_bb(a | b, t as int) == (in_bb(a, t as int) || in_bb(b, t as int)),
{
    assert(((a | b) >> t) & 1u64 == 1u64 <==> ((a >> t) & 1u64 == 1u64 || (b >> t) & 1u64 == 1u64))
        by (bit_vector)
        requires
            t < 64,
    ;
}

pub proof fn lemma_has_and(a: u64, b: u64, t: u64)
    requires
        t < 64,
    ensures
        in_bb(a & b, t as int) == (in_bb(a, t as int) && in_bb(b, t as int)),
{
    assert(((a & b) >> t) & 1u64 == 1u64 <==> ((a >> t) & 1u64 == 1u64 && (b >> t) & 1u64 == 1u64))
        by (bit_vector)
        requires
            t < 64,
    ;
}

pub proof fn lemma_has_not(a: u64, t: u64)
    requires
        t < 64,
    ensures
        in_bb(!a, t as int) == !in_bb(a, t as int),
{
    assert(((!a) >> t) & 1u64 == 1u64 <==> !((a >> t) & 1u64 == 1u64)) by (bit_vector)
        requires
            t < 64,
    ;
}

pub proof fn lemma_has_bit(s: u64, t: u64)
    requires
        s < 64,
        t < 64,
    ensures
        in_bb(1u64 << s, t as int) == (s == t),
{
    assert(((1u64 << s) >> t) & 1u64 == 1u64 <==> s == t) by (bit_vector)
        requires
            s < 64,
            t < 64,
    ;
}

/// A bitboard meets a one-square bitboard exactly when it holds that square.
pub proof fn lemma_and_bit(x: u64, s: u64)
    requires
        s < 64,
    ensures
        (x & (1u64 << s) != 0) == in_bb(x, s as int),
        (x & (1u64 << s) == 0) == !in_bb(x, s as int),
        ((1u64 << s) & x == 0) == !in_bb(x, s as int),
{
    assert((x & (1u64 << s) != 0) == ((x >> s) & 1u64 == 1u64) && ((1u64 << s) & x == 0) == !((x
        >> s) & 1u64 == 1u64)) by (bit_vector)
        requires
            s < 64,
    ;
}

pub proof fn lemma_has_zero(t: u64)
    requires
        t < 64,
    ensures
        !in_bb(0u64, t as int),
{
    assert(((0u64 >> t) & 1u64) == 0u64) by (bit_vector);
}

/// Every bit operation that the crate uses, stated square by square.
pub proof fn lemma_has_ops()
    ensures
        forall|a: u64, b: u64, t: int|
            is_square(t) ==> #[trigger] in_bb(a | b, t) == (in_bb(a, t) || in_bb(b, t)),
        forall|a: u64, b: u64, t: int|
            is_square(t) ==> #[trigger] in_bb(a & b, t) == (in_bb(a, t) && in_bb(b, t)),
        forall|a: u64, t: int| is_square(t) ==> #[trigger] in_bb(!a, t) == !in_bb(a, t),
        forall|s: int, t: int|
            is_square(s) && is_square(t) ==> #[trigger] in_bb(bit(s), t) == (s == t),
        forall|t: int| is_square(t) ==> !#[trigger] in_bb(0u64, t),
{
    assert forall|a: u64, b: u64, t: int| is_square(t) implies #[trigger] in_bb(a | b, t) == (in_bb(
        a,
        t,
    ) || in_bb(b, t)) by {
        lemma_has_or(a, b, t as u64);
    }
    assert forall|a: u64, b: u64, t: int| is_square(t) implies #[trigger] in_bb(a & b, t) == (in_bb(
        a,
        t,
    ) && in_bb(b, t)) by {
        lemma_has_and(a, b, t as u64);
    }
    assert forall|a: u64, t: int| is_square(t) implies #[trigger] in_bb(!a, t) == !in_bb(a, t) by {
        lemma_has_not(a, t as u64);
    }
    assert forall|s: int, t: int| is_square(s) && is_square(t) implies #[trigger] in_bb(bit(s), t)
        == (s == t) by {
        lemma_has_bit(s as u64, t as u64);
    }
    assert forall|t: int| is_square(t) implies !#[trigger] in_bb(0u64, t) by {
        lemma_has_zero(t as u64);
    }
}

/// Two bitboards that hold the same squares are equal.
pub proof fn lemma_bb_ext(a: u64, b: u64)
    requires
        forall|t: int| is_square(t) ==> #[trigger] in_bb(a, t) == in_bb(b, t),
    ensures
        a == b,
{
    assert(in_bb(a, 63) == in_bb(b, 63));
    assert(a >> 63u64 == b >> 63u64) by (bit_vector)
        requires
            ((a >> 63u64) & 1u64 == 1u64) == ((b >> 63u64) & 1u64 == 1u64),
    ;
    lemma_bb_ext_below(a, b, 63);
}

/// Two bitboards that agree above square `k` and on every square below it
/// are equal: the agreement extends one square down at a time.
proof fn lemma_bb_ext_below(a: u64, b: u64, k: u64)
    requires
        k <= 63,
        a >> k == b >> k,
        forall|t: int| is_square(t) ==> #[trigger] in_bb(a, t) == in_bb(b, t),
    ensures
        a == b,
    decreases k,
{
    let j: u64 = if k == 0 {
        0
    } else {
        (k - 1) as u64
    };
    assert(in_bb(a, j as int) == in_bb(b, j as int));
    assert((a >> 0u64 == a && b >> 0u64 == b) && (j + 1 == k && a >> k == b >> k && ((a >> j) & 1u64
        == 1u64) == ((b >> j) & 1u64 == 1u64) ==> a >> j == b >> j)) by (bit_vector)
        requires
            j < 64,
            k < 64,
    ;
    if k > 0 {
        lemma_bb_ext_below(a, b, j);
    }
}

/// The listing of squares below `n` has at most `n` entries, and fewer where
/// some square below `n` is missing.
pub proof fn lemma_bits_upto_len(b: u64, n: int, q: int)
    requires
        0 <= n <= 64,
    ensures
        bits_upto(b, n).len() <= n,
        0 <= q < n && !in_bb(b, q) ==> bits_upto(b, n).len() < n,
    decreases n,
{
    if n > 0 {
        lemma_bits_upto_len(b, n - 1, q);
    }
}

/// Two bitboards are disjoint exactly when no square is in both.
pub proof fn lemma_disjoint_iff(a: u64, b: u64)
    ensures
        (a & b == 0) == (forall|t: int| is_square(t) ==> !(#[trigger] in_bb(a, t) && #[trigger] in_bb(b, t))),
{
    lemma_has_ops();
    if forall|t: int| is_square(t) ==> !(#[trigger] in_bb(a, t) && #[trigger] in_bb(b, t)) {
        assert forall|t: int| is_square(t) implies #[trigger] in_bb(a & b, t) == in_bb(0u64, t) by {
            assert(!(in_bb(a, t) && in_bb(b, t)));
        }
        lemma_bb_ext(a & b, 0u64);
    }
    if a & b == 0 {
        assert forall|t: int| is_square(t) implies !(#[trigger] in_bb(a, t) && #[trigger] in_bb(b, t)) by {
            assert(in_bb(a & b, t) == (in_bb(a, t) && in_bb(b, t)));
            assert(!in_bb(0u64, t));
        }
    }
}

/// The squares of `b` below `n`, as one-square bitboards in ascending order.
pub open spec fn bits_upto(b: u64, n: int) -> Seq<u64>
    decreases n,
{
    if n <= 0 {
        seq![]
    } else if in_bb(b, n - 1) {
        bits_upto(b, n - 1).push(bit(n - 1))
    } else {
        bits_upto(b, n - 1)
    }
}

/// The squares of `b`, as one-square bitboards in ascending order.
pub open spec fn bits_of(b: u64) -> Seq<u64> {
    bits_upto(b, 64)
}

/// Two bitboards that differ at most on square `s`: below `n`, each has as
/// many squares as the other, give or take `s`.
pub proof fn lemma_count_one_change(a: u64, b: u64, s: int, n: int)
    requires
        0 <= n <= 64,
        is_square(s),
        forall|q: int| is_square(q) && q != s ==> #[trigger] in_bb(a, q) == in_bb(b, q),
    ensures
        bits_upto(a, n).len() + (if s < n && in_bb(b, s) {
            1int
        } else {
            0
        }) == bits_upto(b, n).len() + (if s < n && in_bb(a, s) {
            1int
        } else {
            0
        }),
    decreases n,
{
    if n > 0 {
        lemma_count_one_change(a, b, s, n - 1);
        if n - 1 != s {
            assert(in_bb(a, n - 1) == in_bb(b, n - 1));
        }
    }
}

/// Squares of `b` in `[k, n)` are absent: the listing stops growing at `k`.
pub proof fn lemma_bits_upto_gap(b: u64, k: int, n: int)
    requires
        0 <= k <= n,
        forall|t: int| k <= t < n ==> !#[trigger] in_bb(b, t),
    ensures
        bits_upto(b, n) == bits_upto(b, k),
    decreases n - k,
{
    if n > k {
        lemma_bits_upto_gap(b, k, n - 1);
    }
}

/// `x` is the one-square bitboard of a square of `b` below `n`.
pub open spec fn is_listed(b: u64, n: int, x: u64) -> bool {
    exists|s: int| 0 <= s < n && in_bb(b, s) && x == #[trigger] bit(s)
}

/// What the listing of squares holds: each square of `b` below `n` once, as a
/// one-square bitboard, in ascending order.
pub proof fn lemma_bits_upto_members(b: u64, n: int)
    requires
        0 <= n <= 64,
    ensures
        forall|i: int| 0 <= i < bits_upto(b, n).len() ==> is_listed(b, n, #[trigger] bits_upto(b, n)[i]),
        forall|s: int| 0 <= s < n && in_bb(b, s) ==> #[trigger] bits_upto(b, n).contains(bit(s)),
        forall|i: int, j: int|
            0 <= i < j < bits_upto(b, n).len() ==> bits_upto(b, n)[i] < bits_upto(b, n)[j],
        forall|i: int|
            0 <= i < bits_upto(b, n).len() ==> bits_upto(b, n)[i] < bit(n) || n == 64,
    decreases n,
{
    if n > 0 {
        lemma_bits_upto_members(b, n - 1);
        let prev = bits_upto(b, n - 1);
        assert forall|s: int, x: int| 0 <= s < x < 64 implies #[trigger] bit(s) < #[trigger] bit(x) by {
            lemma_bit_lt(s as u64, x as u64);
        }
        if in_bb(b, n - 1) {
            let cur = prev.push(bit(n - 1));
            assert(bits_upto(b, n) == cur);
            assert forall|i: int| 0 <= i < cur.len() implies is_listed(b, n, #[trigger] cur[i]) by {
                if i < prev.len() {
                    let s = choose|s: int| 0 <= s < n - 1 && in_bb(b, s) && prev[i] == bit(s);
                    assert(cur[i] == bit(s));
                } else {
                    assert(cur[i] == bit(n - 1));
                }
            }
            assert forall|s: int| 0 <= s < n && in_bb(b, s) implies #[trigger] cur.contains(bit(s)) by {
                if s < n - 1 {
                    assert(prev.contains(bit(s)));
                    let i = choose|i: int| 0 <= i < prev.len() && prev[i] == bit(s);
                    assert(cur[i] == bit(s));
                } else {
                    assert(cur[prev.len() as int] == bit(s));
                }
            }
            assert forall|i: int| 0 <= i < cur.len() implies cur[i] < bit(n) || n == 64 by {
                if n < 64 {
                    if i < prev.len() {
                        let s = choose|s: int| 0 <= s < n - 1 && in_bb(b, s) && prev[i] == bit(s);
                        assert(bit(s) < bit(n));
                    } else {
                        assert(bit(n - 1) < bit(n));
                    }
                }
            }
            assert forall|i: int, j: int| 0 <= i < j < cur.len() implies cur[i] < cur[j] by {
                if j == prev.len() {
                    assert(prev[i] < bit(n - 1) || n - 1 == 64);
                }
            }
        } else {
            assert(bits_upto(b, n) == prev);
            assert forall|i: int| 0 <= i < prev.len() implies is_listed(b, n, #[trigger] prev[i]) by {
                let s = choose|s: int| 0 <= s < n - 1 && in_bb(b, s) && prev[i] == bit(s);
                assert(prev[i] == bit(s));
            }
            assert forall|i: int| 0 <= i < prev.len() implies prev[i] < bit(n) || n == 64 by {
                if n < 64 {
                    let s = choose|s: int| 0 <= s < n - 1 && in_bb(b, s) && prev[i] == bit(s);
                    assert(bit(s) < bit(n));
                }
            }
        }
    }
}

pub proof fn lemma_bit_lt(s: u64, x: u64)
    requires
        s < x < 64,
    ensures
        (1u64 << s) < (1u64 << x),
{
    assert((1u64 << s) < (1u64 << x)) by (bit_vector)
        requires
            s < x < 64,
    ;
}

/// Removing a square that `m` holds makes `m` smaller.
pub proof fn lemma_remove_square_smaller(m: u64, l: u64)
    requires
        l < 64,
        (m >> l) & 1u64 == 1u64,
    ensures
        m & !(1u64 << l) < m,
{
    assert(m & !(1u64 << l) < m) by (bit_vector)
        requires
            l < 64,
            (m >> l) & 1u64 == 1u64,
    ;
}

/// The lowest square of a one-square bitboard is that square.
pub proof fn lemma_trailing_zeros_bit(s: int)
    requires
        is_square(s),
    ensures
        u64_trailing_zeros(bit(s)) == s,
{
    axiom_u64_trailing_zeros(bit(s));
    lemma_has_bit(s as u64, s as u64);
    let z = u64_trailing_zeros(bit(s));
    assert(bit(s) != 0) by {
        lemma_has_zero(s as u64);
    }
    lemma_has_bit(s as u64, z as u64);
    assert(z == s);
}

/// The squares of `b` as one-square bitboards, lowest first.
pub fn square_bits(b: u64) -> (r: Vec<u64>)
    ensures
        r@ == bits_of(b),
{
    let mut out: Vec<u64> = Vec::new();
    let mut m: u64 = b;
    let ghost mut k: int = 0;
    while m != 0
        invariant
            0 <= k <= 64,
            out@ == bits_upto(b, k),
            forall|t: int| is_square(t) ==> (#[trigger] in_bb(m, t) <==> in_bb(b, t) && t >= k),
        decreases m,
    {
        let l: u32 = m.trailing_zeros();
        proof {
            axiom_u64_trailing_zeros(m);
            assert(in_bb(m, l as int));
            assert forall|t: int| k <= t < l implies !#[trigger] in_bb(b, t) by {
                assert((m >> (t as u64)) & 1u64 == 0u64);
                assert(!in_bb(m, t));
            }
            lemma_bits_upto_gap(b, k, l as int);
            assert(in_bb(m, l as int));
        }
        let sq_bit: u64 = 1u64 << l;
        out.push(sq_bit);
        let ghost old_m = m;
        m = m & !sq_bit;
        proof {
            lemma_has_ops();
            lemma_remove_square_smaller(old_m, l as u64);
            k = l + 1;
        }
    }
    proof {
        assert forall|t: int| k <= t < 64 implies !#[trigger] in_bb(b, t) by {
            lemma_has_zero(t as u64);
        }
        lemma_bits_upto_gap(b, k, 64);
    }
    out
}

} // verus!
