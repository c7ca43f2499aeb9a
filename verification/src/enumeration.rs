//! Why the blocker lists hold every set of blockers: stepping `b = (b - 1) & rel`
//! from `rel` visits each subset of `rel` exactly once before coming back.
use vstd::prelude::*;
use vstd::arithmetic::power2::{lemma_pow2_pos, lemma_pow2_unfold, pow2};
use crate::bits::{bit, bits_of, bits_upto, in_bb, is_square, lemma_bb_ext, lemma_has_ops};
use crate::magic::subset_at;

verus! {

/// `s` holds no square outside `rel`.
pub open spec fn is_subset(s: u64, rel: u64) -> bool {
    s & !rel == 0
}

/// The number of squares of `rel`.
pub open spec fn square_count(rel: u64) -> nat {
    bits_of(rel).len()
}

proof fn lemma_step_value(x: u64)
    ensures
        x.wrapping_sub(1) == (if x == 0 {
            u64::MAX
        } else {
            (x - 1) as u64
        }),
{
}

/// The bit facts about one step of the enumeration, for `rel = h | rp` with
/// `h` a single square above every square of `rp`.
proof fn lemma_split_step(p: u64, rp: u64, c: u64)
    requires
        p < 64,
        rp < (1u64 << p),
    ensures
        ({
            let h = 1u64 << p;
            &&& (c != 0 && c & !rp == 0) ==> ((((h | c) - 1) as u64) & (h | rp)) == h | ((((c - 1)
                as u64)) & rp)
            &&& ((((h - 1) as u64)) & (h | rp)) == rp
            &&& (c != 0 && c & !rp == 0) ==> ((((c - 1) as u64)) & (h | rp)) == ((((c - 1) as u64))
                & rp)
            &&& (h | c) != 0
            &&& u64::MAX & (h | rp) == h | rp
            &&& rp & h == 0
            &&& (h | 0u64) == h
        }),
{
    let h = 1u64 << p;
    assert((c != 0 && c & !rp == 0) ==> ((((h | c) - 1) as u64) & (h | rp)) == h | ((((c - 1)
        as u64)) & rp)) by (bit_vector)
        requires
            p < 64,
            rp < h,
            h == 1u64 << p,
    ;
    assert(((((h - 1) as u64)) & (h | rp)) == rp) by (bit_vector)
        requires
            p < 64,
            rp < h,
            h == 1u64 << p,
    ;
    assert((c != 0 && c & !rp == 0) ==> ((((c - 1) as u64)) & (h | rp)) == ((((c - 1) as u64))
        & rp)) by (bit_vector)
        requires
            p < 64,
            rp < h,
            h == 1u64 << p,
    ;
    assert((h | c) != 0 && u64::MAX & (h | rp) == h | rp && rp & h == 0 && (h | 0u64) == h)
        by (bit_vector)
        requires
            p < 64,
            rp < h,
            h == 1u64 << p,
    ;
}

/// Subsets of `h | rp` split by whether they hold `h`; equal halves come from
/// equal subsets of `rp`.
proof fn lemma_split_subsets(p: u64, rp: u64, s: u64, a: u64, b: u64)
    requires
        p < 64,
        rp < (1u64 << p),
    ensures
        ({
            let h = 1u64 << p;
            &&& (s & !(h | rp) == 0 && s & h != 0) ==> s == (h | (s & !h)) && (s & !h) & !rp == 0
            &&& (s & !(h | rp) == 0 && s & h == 0) ==> s & !rp == 0
            &&& (a & !rp == 0 && b & !rp == 0 && (h | a) == (h | b)) ==> a == b
            &&& (a & !rp == 0 && b & !rp == 0) ==> (h | a) != b
            &&& (a & !rp == 0) ==> (h | a) & !(h | rp) == 0 && a & !(h | rp) == 0
        }),
{
    let h = 1u64 << p;
    assert((s & !(h | rp) == 0 && s & h != 0) ==> s == (h | (s & !h)) && (s & !h) & !rp == 0)
        by (bit_vector)
        requires
            p < 64,
            rp < h,
            h == 1u64 << p,
    ;
    assert((s & !(h | rp) == 0 && s & h == 0) ==> s & !rp == 0) by (bit_vector)
        requires
            p < 64,
            rp < h,
            h == 1u64 << p,
    ;
    assert((a & !rp == 0 && b & !rp == 0 && (h | a) == (h | b)) ==> a == b) by (bit_vector)
        requires
            p < 64,
            rp < h,
            h == 1u64 << p,
    ;
    assert((a & !rp == 0 && b & !rp == 0) ==> (h | a) != b) by (bit_vector)
        requires
            p < 64,
            rp < h,
            h == 1u64 << p,
    ;
    assert((a & !rp == 0) ==> (h | a) & !(h | rp) == 0 && a & !(h | rp) == 0) by (bit_vector)
        requires
            p < 64,
            rp < h,
            h == 1u64 << p,
    ;
}

/// Bitboards that agree below `n` list the same squares below `n`.
proof fn lemma_bits_upto_agree(a: u64, b: u64, n: int)
    requires
        0 <= n <= 64,
        forall|t: int| 0 <= t < n ==> #[trigger] in_bb(a, t) == in_bb(b, t),
    ensures
        bits_upto(a, n) == bits_upto(b, n),
    decreases n,
{
    if n > 0 {
        lemma_bits_upto_agree(a, b, n - 1);
    }
}

proof fn lemma_low_mask(p: u64, t: u64)
    requires
        p < 64,
        t < 64,
    ensures
        in_bb((((1u64 << p) - 1) as u64), t as int) == (t < p),
{
    assert(((((((1u64 << p) - 1) as u64)) >> t) & 1u64 == 1u64) == (t < p)) by (bit_vector)
        requires
            p < 64,
            t < 64,
    ;
}

/// A non-empty `rel` is its highest square `p` together with the squares
/// below it, which are one fewer.
proof fn lemma_split_top(rel: u64) -> (pr: (u64, u64))
    requires
        rel != 0,
    ensures
        pr.0 < 64,
        pr.1 < (1u64 << pr.0),
        rel == (1u64 << pr.0) | pr.1,
        square_count(pr.1) + 1 == square_count(rel),
{
    lemma_has_ops();
    crate::bits::lemma_bits_upto_members(rel, 64);
    let bs = bits_of(rel);
    // Some square of `rel` is listed.
    if forall|t: int| is_square(t) ==> !#[trigger] in_bb(rel, t) {
        assert forall|t: int| is_square(t) implies #[trigger] in_bb(rel, t) == in_bb(0u64, t) by {}
        lemma_bb_ext(rel, 0u64);
    }
    let q = choose|t: int| is_square(t) && #[trigger] in_bb(rel, t);
    assert(bs.contains(bit(q)));
    assert(bs.len() > 0);
    let last = bs[bs.len() - 1];
    assert(crate::bits::is_listed(rel, 64, last));
    let p = choose|s: int| 0 <= s < 64 && in_bb(rel, s) && last == #[trigger] bit(s);
    // Every square of `rel` is at most `p`.
    assert forall|t: int| is_square(t) && #[trigger] in_bb(rel, t) implies t <= p by {
        assert(bs.contains(bit(t)));
        let i = choose|i: int| 0 <= i < bs.len() && bs[i] == bit(t);
        if t > p {
            crate::bits::lemma_bit_lt(p as u64, t as u64);
            if i < bs.len() - 1 {
                assert(bs[i] < bs[bs.len() - 1]);
            }
        }
    }
    let pu = p as u64;
    let h = 1u64 << pu;
    let rp = rel & !h;
    // The squares of `rp` are those of `rel` but `p`.
    assert forall|t: int| is_square(t) implies #[trigger] in_bb(rp, t) == (in_bb(rel, t) && t != p) by {}
    // `rp` lies below `h`.
    let m = ((h - 1) as u64);
    assert forall|t: int| is_square(t) implies #[trigger] in_bb(rp & m, t) == in_bb(rp, t) by {
        lemma_low_mask(pu, t as u64);
    }
    lemma_bb_ext(rp & m, rp);
    assert((rp & m) < h) by (bit_vector)
        requires
            h == 1u64 << pu,
            pu < 64,
            m == ((h - 1) as u64),
    ;
    // `rel` is `h` and `rp`.
    assert forall|t: int| is_square(t) implies #[trigger] in_bb(h | rp, t) == in_bb(rel, t) by {}
    lemma_bb_ext(h | rp, rel);
    // Counting: the listings agree below `p`, and neither has squares above.
    assert forall|t: int| 0 <= t < p implies #[trigger] in_bb(rp, t) == in_bb(rel, t) by {}
    lemma_bits_upto_agree(rp, rel, p);
    assert(bits_upto(rel, p + 1) == bits_upto(rel, p).push(bit(p)));
    assert(bits_upto(rp, p + 1) == bits_upto(rp, p));
    assert forall|t: int| p + 1 <= t < 64 implies !#[trigger] in_bb(rel, t) by {}
    assert forall|t: int| p + 1 <= t < 64 implies !#[trigger] in_bb(rp, t) by {}
    crate::bits::lemma_bits_upto_gap(rel, p + 1, 64);
    crate::bits::lemma_bits_upto_gap(rp, p + 1, 64);
    (pu, rp)
}

/// The enumeration of the subsets of `rel`, with `n` squares, in its first
/// `2^n` steps: it returns to `rel` after `2^n` steps, reaches the empty set
/// only at the last of them, and meets every subset exactly once.
pub open spec fn visits_all(rel: u64, n: nat) -> bool {
    let big_n = pow2(n);
    &&& subset_at(rel, big_n) == rel
    &&& subset_at(rel, (big_n - 1) as nat) == 0
    &&& forall|k: nat| k < big_n - 1 ==> #[trigger] subset_at(rel, k) != 0
    &&& forall|s: u64| is_subset(s, rel) ==> exists|k: nat| k < big_n && #[trigger] subset_at(rel, k) == s
    &&& forall|i: nat, j: nat|
        i < big_n && j < big_n && i != j ==> #[trigger] subset_at(rel, i) != #[trigger] subset_at(rel, j)
}

proof fn lemma_first_half(p: u64, rp: u64, m: nat, k: nat)
    requires
        p < 64,
        rp < (1u64 << p),
        forall|k: nat| k < m - 1 ==> #[trigger] subset_at(rp, k) != 0,
        k <= m - 1,
    ensures
        subset_at((1u64 << p) | rp, k) == (1u64 << p) | subset_at(rp, k),
    decreases k,
{
    if k > 0 {
        lemma_first_half(p, rp, m, (k - 1) as nat);
        let c = subset_at(rp, (k - 1) as nat);
        assert(c != 0);
        crate::magic::lemma_subset_at_within(rp, (k - 1) as nat);
        lemma_split_step(p, rp, c);
        lemma_step_value((1u64 << p) | c);
        lemma_step_value(c);
    }
}

proof fn lemma_second_half(p: u64, rp: u64, m: nat, j: nat)
    requires
        p < 64,
        rp < (1u64 << p),
        m >= 1,
        forall|k: nat| k < m - 1 ==> #[trigger] subset_at(rp, k) != 0,
        subset_at(rp, (m - 1) as nat) == 0,
        j <= m - 1,
    ensures
        subset_at((1u64 << p) | rp, m + j) == subset_at(rp, j),
    decreases j,
{
    let h = 1u64 << p;
    lemma_split_step(p, rp, 0);
    if j == 0 {
        lemma_first_half(p, rp, m, (m - 1) as nat);
        lemma_step_value(h);
        assert(subset_at(h | rp, m) == subset_at(h | rp, (m - 1) as nat).wrapping_sub(1) & (h | rp));
    } else {
        lemma_second_half(p, rp, m, (j - 1) as nat);
        let c = subset_at(rp, (j - 1) as nat);
        assert(c != 0);
        crate::magic::lemma_subset_at_within(rp, (j - 1) as nat);
        lemma_split_step(p, rp, c);
        lemma_step_value(c);
        assert(subset_at(h | rp, m + j) == subset_at(h | rp, (m + j - 1) as nat).wrapping_sub(1) & (h
            | rp));
    }
}

/// The enumeration of the subsets of `rel` meets each of them once in
/// `2^n` steps, `n` being the number of squares of `rel`.
pub proof fn lemma_enumeration(rel: u64)
    ensures
        visits_all(rel, square_count(rel)),
    decreases square_count(rel),
{
    if rel == 0 {
        assert(square_count(0u64) == 0) by {
            lemma_has_ops();
            crate::bits::lemma_bits_upto_gap(0u64, 0, 64);
        }
        assert(pow2(0) == 1) by {
            vstd::arithmetic::power2::lemma2_to64();
        }
        lemma_step_value(0);
        assert(u64::MAX & 0u64 == 0u64) by (bit_vector);
        assert(subset_at(0u64, 0) == 0u64);
        assert(subset_at(0u64, 1) == subset_at(0u64, 0).wrapping_sub(1) & 0u64);
        assert(subset_at(0u64, 1) == 0);
        assert forall|s: u64| is_subset(s, 0u64) implies exists|k: nat|
            k < 1 && #[trigger] subset_at(0u64, k) == s by {
            assert(s & !0u64 == 0 ==> s == 0) by (bit_vector);
            assert(subset_at(0u64, 0) == s);
        }
    } else {
        let (p, rp) = lemma_split_top(rel);
        let h = 1u64 << p;
        lemma_enumeration(rp);
        let m = pow2(square_count(rp));
        let big_n = pow2(square_count(rel));
        lemma_pow2_unfold(square_count(rel));
        lemma_pow2_pos(square_count(rp));
        assert(big_n == 2 * m);
        lemma_split_step(p, rp, 0);
        // The last steps.
        lemma_second_half(p, rp, m, (m - 1) as nat);
        assert(subset_at(rel, (big_n - 1) as nat) == 0);
        lemma_step_value(0);
        assert(subset_at(rel, big_n) == subset_at(rel, (big_n - 1) as nat).wrapping_sub(1) & rel);
        // The empty set comes only at the end.
        assert forall|k: nat| k < big_n - 1 implies #[trigger] subset_at(rel, k) != 0 by {
            if k <= m - 1 {
                lemma_first_half(p, rp, m, k);
                lemma_split_step(p, rp, subset_at(rp, k));
            } else {
                lemma_second_half(p, rp, m, (k - m) as nat);
            }
        }
        // Every subset comes.
        assert forall|s: u64| is_subset(s, rel) implies exists|k: nat|
            k < big_n && #[trigger] subset_at(rel, k) == s by {
            lemma_split_subsets(p, rp, s, 0, 0);
            if s & h != 0 {
                let c = s & !h;
                assert(is_subset(c, rp));
                let k = choose|k: nat| k < m && #[trigger] subset_at(rp, k) == c;
                lemma_first_half(p, rp, m, k);
                assert(subset_at(rel, k) == s);
            } else {
                assert(is_subset(s, rp));
                let j = choose|k: nat| k < m && #[trigger] subset_at(rp, k) == s;
                lemma_second_half(p, rp, m, j);
                assert(subset_at(rel, m + j) == s);
            }
        }
        // No subset comes twice.
        assert forall|i: nat, j: nat|
            i < big_n && j < big_n && i != j implies #[trigger] subset_at(rel, i) != #[trigger] subset_at(
            rel,
            j,
        ) by {
            if i < m {
                lemma_first_half(p, rp, m, i);
                crate::magic::lemma_subset_at_within(rp, i);
            } else {
                lemma_second_half(p, rp, m, (i - m) as nat);
                crate::magic::lemma_subset_at_within(rp, (i - m) as nat);
            }
            if j < m {
                lemma_first_half(p, rp, m, j);
                crate::magic::lemma_subset_at_within(rp, j);
            } else {
                lemma_second_half(p, rp, m, (j - m) as nat);
                crate::magic::lemma_subset_at_within(rp, (j - m) as nat);
            }
            let a = if i < m {
                subset_at(rp, i)
            } else {
                subset_at(rp, (i - m) as nat)
            };
            let b = if j < m {
                subset_at(rp, j)
            } else {
                subset_at(rp, (j - m) as nat)
            };
            lemma_split_subsets(p, rp, 0, a, b);
            lemma_split_subsets(p, rp, 0, b, a);
        }
    }
}

/// The blocker list of `blocker_attacks`, whose `i`-th entry holds
/// `subset_at(rel, i + 1)` for `i` below `2^n`, holds every subset of `rel`
/// exactly once.
pub proof fn lemma_blocker_list_complete(rel: u64)
    requires
        square_count(rel) < 64,
    ensures
        forall|s: u64|
            is_subset(s, rel) ==> exists|i: nat|
                i < (1u64 << (square_count(rel) as u64)) && #[trigger] subset_at(rel, i + 1) == s,
        forall|i: nat, j: nat|
            i < (1u64 << (square_count(rel) as u64)) && j < (1u64 << (square_count(rel) as u64)) && i
                != j ==> #[trigger] subset_at(rel, i + 1) != #[trigger] subset_at(rel, j + 1),
{
    let n = square_count(rel);
    lemma_enumeration(rel);
    vstd::bits::lemma_u64_pow2_no_overflow(n);
    vstd::bits::lemma_u64_shl_is_mul(1u64, n as u64);
    let big_n = pow2(n);
    lemma_pow2_pos(n);
    assert((1u64 << (n as u64)) == big_n);
    assert forall|s: u64| is_subset(s, rel) implies exists|i: nat|
        i < (1u64 << (square_count(rel) as u64)) && #[trigger] subset_at(rel, i + 1) == s by {
        let k = choose|k: nat| k < big_n && #[trigger] subset_at(rel, k) == s;
        if k == 0 {
            assert(subset_at(rel, ((big_n - 1) as nat + 1) as nat) == s);
        } else {
            assert(subset_at(rel, ((k - 1) as nat + 1) as nat) == s);
        }
    }
    assert forall|i: nat, j: nat|
        i < (1u64 << (square_count(rel) as u64)) && j < (1u64 << (square_count(rel) as u64)) && i != j
            implies #[trigger] subset_at(rel, i + 1) != #[trigger] subset_at(rel, j + 1) by {
        let a: nat = if i + 1 == big_n {
            0
        } else {
            i + 1
        };
        let b: nat = if j + 1 == big_n {
            0
        } else {
            j + 1
        };
        assert(subset_at(rel, a) == subset_at(rel, i + 1));
        assert(subset_at(rel, b) == subset_at(rel, j + 1));
        assert(subset_at(rel, a) != subset_at(rel, b));
    }
}

} // verus!
