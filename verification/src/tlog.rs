//! The index algebra of the log: hashes live in one append-only linear
//! sequence, and every tree coordinate `(level, n)` owns exactly one slot of
//! it. This module defines that bijection, the count of slots used by a tree
//! of a given size, the decomposition of a leaf range into stored subtrees,
//! and the domain-separated hash primitives.
use vstd::prelude::*;

use crate::{lemma_pow2_mono, lemma_pow2_pos, lemma_pow2_word_exp, pow2};

verus! {

/// `n + n/2 + n/4 + ...`: the storage index of the level-0 hash committed
/// with record `n`, which equals the number of hashes committed strictly
/// before that record's own hash.
pub open spec fn shift_sum(n: nat) -> nat
    decreases n,
{
    if n == 0 {
        0
    } else {
        n + shift_sum(n / 2)
    }
}

/// The number of trailing zero bits of `n` (zero for `n == 0`).
pub open spec fn trailing_zeros(n: nat) -> nat
    decreases n,
{
    if n == 0 || n % 2 == 1 {
        0
    } else {
        1 + trailing_zeros(n / 2)
    }
}

/// The number of trailing one bits of `n`.
pub open spec fn trailing_ones(n: nat) -> nat
    decreases n,
{
    if n % 2 == 1 {
        1 + trailing_ones(n / 2)
    } else {
        0
    }
}

/// Applies `n -> 2n + 1` `level` times: the level-0 position whose committed
/// hash coincides with the hash at `(level, n)`.
pub open spec fn descend(level: nat, n: nat) -> nat
    decreases level,
{
    if level == 0 {
        n
    } else {
        descend((level - 1) as nat, 2 * n + 1)
    }
}

/// Halves `n` `level` times.
pub open spec fn halve(level: nat, n: nat) -> nat
    decreases level,
{
    if level == 0 {
        n
    } else {
        halve((level - 1) as nat, n / 2)
    }
}

/// The storage index of the hash at tree coordinate `(level, n)`. Level -1
/// (a data tile's pseudo-level) sits one slot before the level-0 hash.
pub open spec fn stored_hash_index_spec(level: int, n: nat) -> int {
    if level >= 0 {
        shift_sum(descend(level as nat, n)) + level
    } else {
        shift_sum(n) - 1
    }
}

/// The number of stored hashes for a tree of `n` records: the index of the
/// last record's leaf hash, plus one, plus one interior hash per completed
/// subtree ending at that record. Equal to `shift_sum(n)`, the index where
/// the next leaf hash will go ([`lemma_stored_hash_count_closed`]).
pub open spec fn stored_hash_count_spec(n: nat) -> int {
    if n == 0 {
        0
    } else {
        shift_sum((n - 1) as nat) + 1 + trailing_ones((n - 1) as nat) as int
    }
}

pub proof fn lemma_shift_sum_ge(n: nat)
    ensures
        shift_sum(n) >= n,
    decreases n,
{
    if n > 0 {
        lemma_shift_sum_ge(n / 2);
    }
}

/// For `n >= 1`, `shift_sum(n) <= 2n - 1`.
pub proof fn lemma_shift_sum_upper(n: nat)
    requires
        n >= 1,
    ensures
        shift_sum(n) <= 2 * n - 1,
    decreases n,
{
    assert(shift_sum(n) == n + shift_sum(n / 2));
    if n / 2 >= 1 {
        lemma_shift_sum_upper(n / 2);
    } else {
        assert(shift_sum((n / 2) as nat) == 0);
    }
}

/// Appending record `n + 1` adds one leaf hash plus one interior hash per
/// completed power-of-two subtree.
pub proof fn lemma_shift_sum_step(n: nat)
    ensures
        shift_sum(n + 1) == shift_sum(n) + 1 + trailing_zeros(n + 1),
    decreases n,
{
    if (n + 1) % 2 == 1 {
        assert((n + 1) / 2 == n / 2);
    } else {
        let m = ((n + 1) / 2) as nat;
        assert(n == 2 * m - 1);
        lemma_shift_sum_step((m - 1) as nat);
        assert(shift_sum(n + 1) == (n + 1) + shift_sum(m));
        assert(shift_sum(n) == n + shift_sum((m - 1) as nat));
        assert(trailing_zeros(n + 1) == 1 + trailing_zeros(m));
    }
}

pub proof fn lemma_shift_sum_mono(a: nat, b: nat)
    requires
        a <= b,
    ensures
        shift_sum(a) <= shift_sum(b),
        a < b ==> shift_sum(a) + 1 + trailing_zeros(a + 1) <= shift_sum(b),
    decreases b - a,
{
    if a < b {
        lemma_shift_sum_step(a);
        lemma_shift_sum_mono(a + 1, b);
    }
}

/// Trailing ones of `n` are the trailing zeros of `n + 1`.
pub proof fn lemma_trailing_ones_zeros(n: nat)
    ensures
        trailing_ones(n) == trailing_zeros(n + 1),
    decreases n,
{
    if n % 2 == 1 {
        let k = (n / 2) as nat;
        assert(n + 1 == 2 * (k + 1));
        lemma_trailing_ones_zeros(k);
        assert(trailing_zeros(n + 1) == 1 + trailing_zeros(k + 1));
    }
}

pub proof fn lemma_descend_unfold(level: nat, n: nat)
    requires
        level >= 1,
    ensures
        descend(level, n) == 2 * descend((level - 1) as nat, n) + 1,
    decreases level,
{
    assert(descend(level, n) == descend((level - 1) as nat, 2 * n + 1));
    if level > 1 {
        lemma_descend_unfold((level - 1) as nat, 2 * n + 1);
        assert(descend((level - 1) as nat, n) == descend((level - 2) as nat, 2 * n + 1));
    } else {
        assert(descend(0, 2 * n + 1) == 2 * n + 1);
        assert(descend(0, n) == n);
    }
}

pub proof fn lemma_descend_ge(level: nat, n: nat)
    ensures
        descend(level, n) >= n,
        level >= 1 ==> descend(level, n) >= 2 * n + 1,
    decreases level,
{
    if level >= 1 {
        lemma_descend_ge((level - 1) as nat, 2 * n + 1);
    }
}

/// The level-0 position owning the hash at `(level, n)` ends in at least
/// `level` one bits, i.e. its successor has at least `level` trailing zeros.
pub proof fn lemma_descend_tz(level: nat, n: nat)
    ensures
        trailing_zeros(descend(level, n) + 1) >= level,
    decreases level,
{
    if level >= 1 {
        lemma_descend_tz((level - 1) as nat, n);
        lemma_descend_unfold(level, n);
        let d = descend((level - 1) as nat, n);
        assert(descend(level, n) + 1 == 2 * (d + 1));
        assert(trailing_zeros(2 * (d + 1)) == 1 + trailing_zeros(d + 1));
    }
}

/// Halving undoes descending as long as enough trailing one bits remain.
pub proof fn lemma_descend_halve(level: nat, n: nat)
    requires
        trailing_zeros(n + 1) >= level,
    ensures
        descend(level, halve(level, n)) == n,
    decreases level,
{
    if level >= 1 {
        assert((n + 1) % 2 == 0);
        let k = (n / 2) as nat;
        assert(n == 2 * k + 1);
        assert((n + 1) / 2 == k + 1);
        assert(trailing_zeros(n + 1) == 1 + trailing_zeros(k + 1));
        lemma_descend_halve((level - 1) as nat, k);
        assert(halve(level, n) == halve((level - 1) as nat, k));
        lemma_descend_unfold(level, halve(level, n));
    }
}

pub proof fn lemma_descend_injective(level: nat, n1: nat, n2: nat)
    requires
        descend(level, n1) == descend(level, n2),
    ensures
        n1 == n2,
    decreases level,
{
    if level >= 1 {
        lemma_descend_unfold(level, n1);
        lemma_descend_unfold(level, n2);
        lemma_descend_injective((level - 1) as nat, n1, n2);
    }
}

/// The closed form of `descend`: `descend(level, n) = (n + 1) * 2^level - 1`.
pub proof fn lemma_descend_closed(level: nat, n: nat)
    ensures
        descend(level, n) + 1 == (n + 1) * pow2(level),
    decreases level,
{
    if level == 0 {
        assert((n + 1) * 1 == n + 1);
    } else {
        lemma_descend_closed((level - 1) as nat, n);
        lemma_descend_unfold(level, n);
        assert((n + 1) * pow2(level) == 2 * ((n + 1) * pow2((level - 1) as nat)))
            by (nonlinear_arith)
            requires
                pow2(level) == 2 * pow2((level - 1) as nat),
        ;
    }
}

/// Law: the map from tree coordinates to storage indices is injective over
/// all coordinates with `level >= 0`. Together with the postcondition of
/// [`Coordinate::split_stored_hash_index`] — that the returned coordinate
/// maps back to the given index — this makes the two functions inverse to
/// each other: splitting `stored_hash_index_spec(level, n)` yields exactly
/// `(level, n)`.
pub proof fn lemma_stored_hash_index_injective(l1: int, n1: nat, l2: int, n2: nat)
    requires
        0 <= l1,
        0 <= l2,
        stored_hash_index_spec(l1, n1) == stored_hash_index_spec(l2, n2),
    ensures
        l1 == l2,
        n1 == n2,
{
    let a = descend(l1 as nat, n1);
    let b = descend(l2 as nat, n2);
    lemma_descend_tz(l1 as nat, n1);
    lemma_descend_tz(l2 as nat, n2);
    if a < b {
        lemma_shift_sum_mono(a, b);
        assert(false);
    }
    if b < a {
        lemma_shift_sum_mono(b, a);
        assert(false);
    }
    lemma_descend_injective(l1 as nat, n1, n2);
}

/// The number of trailing zero bits, executably.
fn trailing_zeros_exec(m: usize) -> (r: usize)
    requires
        m >= 1,
    ensures
        r == trailing_zeros(m as nat),
        pow2(r as nat) <= m as nat,
        r <= 63,
{
    let mut x: usize = m;
    let mut t: usize = 0;
    proof {
        assert(pow2(0) == 1);
        assert(1 * (m as nat) == m as nat);
    }
    while x % 2 == 0
        invariant
            x >= 1,
            trailing_zeros(m as nat) == t + trailing_zeros(x as nat),
            pow2(t as nat) * x == m as nat,
        decreases x,
    {
        proof {
            lemma_pow2_pos(t as nat);
            assert(pow2((t + 1) as nat) * ((x / 2) as nat) == pow2(t as nat) * x as nat)
                by (nonlinear_arith)
                requires
                    x % 2 == 0,
                    x >= 1,
                    pow2((t + 1) as nat) == 2 * pow2(t as nat),
            ;
            assert(t < m) by {
                assert(pow2(t as nat) <= pow2(t as nat) * x) by (nonlinear_arith)
                    requires
                        x >= 1,
                        pow2(t as nat) >= 1,
                ;
                crate::lemma_pow2_gt_exp(t as nat);
            }
        }
        x = x / 2;
        t = t + 1;
    }
    proof {
        lemma_pow2_pos(t as nat);
        assert(pow2(t as nat) <= pow2(t as nat) * x) by (nonlinear_arith)
            requires
                x >= 1,
                pow2(t as nat) >= 1,
        ;
        lemma_pow2_word_exp(t as nat);
    }
    t
}

/// The coordinate of one hash of the tree: the hash at `(level, n)` covers
/// the `2^level` leaves starting at leaf `n * 2^level`.
#[derive(Copy, Clone, Debug, PartialEq, Eq, Hash, Structural)]
pub struct Coordinate {
    /// The level, 0 at the leaves.
    pub level: isize,
    /// The offset within the level.
    pub n: usize,
}

/// Maps the tree coordinate `(level, n)` to its position in the dense linear
/// ordering used for hash storage.
pub fn stored_hash_index(level: isize, n: usize) -> (r: usize)
    requires
        -1 <= level <= 63,
        level == -1 ==> n >= 1,
        stored_hash_index_spec(level as int, n as nat) <= usize::MAX as int,
    ensures
        r as int == stored_hash_index_spec(level as int, n as nat),
{
    let ghost d_final: nat = if level >= 0 {
        descend(level as nat, n as nat)
    } else {
        n as nat
    };
    proof {
        lemma_shift_sum_ge(d_final);
    }
    let mut m: usize = n;
    let mut i: isize = 0;
    while i < level
        invariant
            0 <= i,
            i <= level || level < 0,
            level <= 63,
            level >= 0 ==> descend((level - i) as nat, m as nat) == d_final,
            level < 0 ==> m == n,
            shift_sum(d_final) >= d_final,
            shift_sum(d_final) + (if level >= 0 { level as int } else { -1 }) <= usize::MAX as int,
        decreases level - i,
    {
        proof {
            lemma_descend_ge((level - i - 1) as nat, (2 * m as nat + 1) as nat);
            assert(descend((level - i) as nat, m as nat) == descend(
                (level - i - 1) as nat,
                (2 * m as nat + 1) as nat,
            ));
        }
        m = 2 * m + 1;
        i = i + 1;
    }
    let ghost target: int = if level >= 0 {
        shift_sum(d_final) as int
    } else {
        shift_sum(n as nat) - 1
    };
    let mut sum: usize = 0;
    if level < 0 {
        // The first term of the sum enters reduced by one, so the running
        // total never exceeds the final index.
        sum = m - 1;
        m = m / 2;
    }
    while m > 0
        invariant
            sum as int + shift_sum(m as nat) == target,
            target <= usize::MAX as int,
            -1 <= level <= 63,
            level >= 0 ==> target + level == stored_hash_index_spec(level as int, n as nat),
            level < 0 ==> target == stored_hash_index_spec(level as int, n as nat),
        decreases m,
    {
        proof {
            lemma_shift_sum_ge(m as nat);
        }
        sum = sum + m;
        m = m / 2;
    }
    if level >= 0 {
        sum + (level as usize)
    } else {
        sum
    }
}

impl Coordinate {
    /// The position of this coordinate's hash in the linear hash storage.
    pub fn stored_hash_index(&self) -> (r: usize)
        requires
            -1 <= self.level <= 63,
            self.level == -1 ==> self.n >= 1,
            stored_hash_index_spec(self.level as int, self.n as nat) <= usize::MAX as int,
        ensures
            r as int == stored_hash_index_spec(self.level as int, self.n as nat),
    {
        stored_hash_index(self.level, self.n)
    }

    /// The inverse of [`Self::stored_hash_index`]: recovers the unique tree
    /// coordinate (with `level >= 0`) whose hash is stored at `index`.
    /// Uniqueness is [`lemma_stored_hash_index_injective`].
    pub fn split_stored_hash_index(index: usize) -> (r: Coordinate)
        ensures
            0 <= r.level <= 63,
            stored_hash_index_spec(r.level as int, r.n as nat) == index as int,
    {
        let mut n: usize = index / 2;
        proof {
            if n >= 1 {
                lemma_shift_sum_upper(n as nat);
            }
        }
        let mut index_n: usize = stored_hash_index(0, n);
        proof {
            assert(n < usize::MAX) by {
                if n == usize::MAX {
                    lemma_shift_sum_ge((n / 2) as nat);
                    assert(shift_sum(n as nat) == n as nat + shift_sum((n / 2) as nat));
                }
            }
        }
        let mut t: usize = trailing_zeros_exec(n + 1);
        while index - index_n >= 1 + t
            invariant
                shift_sum(n as nat) == index_n as nat,
                index_n <= index,
                n < usize::MAX,
                t == trailing_zeros((n + 1) as nat),
                pow2(t as nat) <= (n + 1) as nat,
                t <= 63,
            decreases index - index_n,
        {
            proof {
                lemma_shift_sum_step(n as nat);
            }
            n = n + 1;
            index_n = index_n + 1 + t;
            proof {
                assert(n < usize::MAX) by {
                    if n == usize::MAX {
                        lemma_shift_sum_ge((n / 2) as nat);
                        assert(shift_sum(n as nat) == n as nat + shift_sum((n / 2) as nat));
                    }
                }
            }
            t = trailing_zeros_exec(n + 1);
        }
        let level_u: usize = index - index_n;
        proof {
            lemma_pow2_word_exp(t as nat);
        }
        let mut m: usize = n;
        let mut j: usize = 0;
        while j < level_u
            invariant
                j <= level_u,
                halve((level_u - j) as nat, m as nat) == halve(level_u as nat, n as nat),
            decreases level_u - j,
        {
            proof {
                assert(halve((level_u - j) as nat, m as nat) == halve(
                    (level_u - j - 1) as nat,
                    (m / 2) as nat,
                ));
            }
            m = m / 2;
            j = j + 1;
        }
        proof {
            lemma_descend_halve(level_u as nat, n as nat);
        }
        Coordinate { level: level_u as isize, n: m }
    }
}

/// Returns the number of stored hashes that are expected for a tree with
/// `n` records.
pub fn stored_hash_count(n: usize) -> (r: usize)
    requires
        stored_hash_count_spec(n as nat) <= usize::MAX as int,
    ensures
        r as int == stored_hash_count_spec(n as nat),
{
    if n == 0 {
        return 0;
    }
    proof {
        assert(descend(0, (n - 1) as nat) == (n - 1) as nat);
    }
    // The tree has the hashes up to the last leaf hash, the one of record
    // n - 1 ...
    let mut num: usize = stored_hash_index(0, n - 1) + 1;
    // ... and one more for every subtree completed by that leaf.
    let mut i: usize = n - 1;
    while i % 2 != 0
        invariant
            num as int + trailing_ones(i as nat) == stored_hash_count_spec(n as nat),
            stored_hash_count_spec(n as nat) <= usize::MAX as int,
        decreases i,
    {
        proof {
            assert(trailing_ones(i as nat) == 1 + trailing_ones((i / 2) as nat));
        }
        num = num + 1;
        i = i / 2;
    }
    num
}

/// Law: the stored-hash count equals the storage index of the next leaf
/// hash, so the stored hashes densely fill `[0, count(n))`.
pub proof fn lemma_stored_hash_count_closed(n: nat)
    ensures
        stored_hash_count_spec(n) == stored_hash_index_spec(0, n),
{
    if n > 0 {
        lemma_shift_sum_step((n - 1) as nat);
        lemma_trailing_ones_zeros((n - 1) as nat);
        assert((n - 1) as nat + 1 == n);
    }
    assert(descend(0, n) == n);
}

/// Law: the stored-hash count never shrinks as records are appended — each
/// new record adds its leaf hash plus one interior hash per power-of-two
/// subtree it completes — and an empty tree stores no hashes.
pub proof fn lemma_stored_hash_count_monotonic(n: nat)
    ensures
        stored_hash_count_spec(n + 1) - stored_hash_count_spec(n) == 1 + trailing_zeros(n + 1),
        stored_hash_count_spec(n + 1) >= stored_hash_count_spec(n),
        stored_hash_count_spec(0) == 0,
{
    lemma_stored_hash_count_closed(n);
    lemma_stored_hash_count_closed(n + 1);
    lemma_shift_sum_step(n);
    assert(descend(0, n) == n);
    assert(descend(0, n + 1) == n + 1);
}

/// Law: after `n` records, a coordinate's hash index lies below the count
/// exactly when its subtree is complete, that is, when all `2^level` leaves
/// under it exist.
pub proof fn lemma_stored_hash_count_dense(level: int, k: nat, n: nat)
    requires
        0 <= level,
    ensures
        stored_hash_index_spec(level, k) < stored_hash_count_spec(n) <==> (k + 1) * pow2(
            level as nat,
        ) <= n,
{
    lemma_stored_hash_count_closed(n);
    assert(descend(0, n) == n);
    lemma_descend_closed(level as nat, k);
    let d = descend(level as nat, k);
    if (k + 1) * pow2(level as nat) <= n {
        lemma_descend_tz(level as nat, k);
        lemma_shift_sum_step(d);
        lemma_shift_sum_mono(d + 1, n);
    } else {
        lemma_shift_sum_mono(n, d);
    }
}

/// Whether the aligned subtree of `2^l` leaves starting at `lo` exists and
/// fits below `hi`.
pub open spec fn chunk_cond(lo: nat, hi: nat, l: nat) -> bool {
    lo % pow2(l) == 0 && lo + pow2(l) <= hi
}

/// The largest exponent `<= start` satisfying [`chunk_cond`] (conditions are
/// downward closed, so a descending scan finds the maximum).
pub open spec fn chunk_exp_from(lo: nat, hi: nat, start: nat) -> nat
    decreases start,
{
    if start == 0 {
        0
    } else if chunk_cond(lo, hi, start) {
        start
    } else {
        chunk_exp_from(lo, hi, (start - 1) as nat)
    }
}

/// The size (as an exponent) of the largest aligned subtree starting at `lo`
/// that fits in the half-open leaf range `[lo, hi)`.
pub open spec fn chunk_exp(lo: nat, hi: nat) -> nat {
    chunk_exp_from(lo, hi, 63)
}

proof fn lemma_chunk_cond_zero(lo: nat, hi: nat)
    requires
        lo < hi,
    ensures
        chunk_cond(lo, hi, 0),
{
    assert(pow2(0) == 1);
    assert(lo % 1 == 0);
}

/// If the condition holds for an exponent, it holds for all smaller ones.
proof fn lemma_chunk_cond_down(lo: nat, hi: nat, a: nat, b: nat)
    requires
        a <= b,
        chunk_cond(lo, hi, b),
    ensures
        chunk_cond(lo, hi, a),
    decreases b - a,
{
    if a < b {
        let p = pow2((b - 1) as nat);
        lemma_pow2_pos((b - 1) as nat);
        assert(pow2(b) == 2 * p);
        vstd::arithmetic::div_mod::lemma_fundamental_div_mod(lo as int, 2 * p as int);
        let q = lo as int / (2 * p as int);
        assert(lo as int == (2 * q) * p as int) by (nonlinear_arith)
            requires
                lo as int == (2 * p as int) * q,
        ;
        vstd::arithmetic::div_mod::lemma_mod_multiples_basic(2 * q, p as int);
        lemma_pow2_mono((b - 1) as nat, b);
        assert(chunk_cond(lo, hi, (b - 1) as nat));
        lemma_chunk_cond_down(lo, hi, a, (b - 1) as nat);
    }
}

/// Pins `chunk_exp_from` to the exponent the greedy doubling search finds.
proof fn lemma_chunk_exp_char(lo: nat, hi: nat, e: nat)
    requires
        e <= 63,
        chunk_cond(lo, hi, e),
        !chunk_cond(lo, hi, e + 1),
    ensures
        chunk_exp(lo, hi) == e,
{
    assert forall|l: nat| e < l <= 63 implies !chunk_cond(lo, hi, l) by {
        if chunk_cond(lo, hi, l) {
            lemma_chunk_cond_down(lo, hi, e + 1, l);
        }
    }
    lemma_chunk_exp_from_char(lo, hi, 63, e);
}

proof fn lemma_chunk_exp_from_char(lo: nat, hi: nat, start: nat, e: nat)
    requires
        e <= start,
        chunk_cond(lo, hi, e),
        forall|l: nat| e < l <= start ==> !chunk_cond(lo, hi, l),
    ensures
        chunk_exp_from(lo, hi, start) == e,
    decreases start,
{
    if start > e {
        lemma_chunk_exp_from_char(lo, hi, (start - 1) as nat, e);
    }
}

/// The storage index of a chunk is below `shift_sum(hi)`, and the chunk is
/// exactly the one the specification emits.
proof fn lemma_chunk_index_bound(lo: nat, hi: nat, e: nat)
    requires
        chunk_cond(lo, hi, e),
    ensures
        0 <= stored_hash_index_spec(e as int, lo / pow2(e)) < shift_sum(hi),
        descend(e, lo / pow2(e)) == lo + pow2(e) - 1,
{
    let p = pow2(e);
    lemma_pow2_pos(e);
    let m = lo / p;
    vstd::arithmetic::div_mod::lemma_fundamental_div_mod(lo as int, p as int);
    assert(lo as int == p as int * m as int);
    lemma_descend_closed(e, m);
    assert((m + 1) * p == m as int * p as int + p) by (nonlinear_arith);
    let d = descend(e, m);
    assert(d == lo + p - 1);
    lemma_descend_tz(e, m);
    lemma_shift_sum_step(d);
    lemma_shift_sum_mono(d + 1, hi);
}

#[via_fn]
proof fn subtree_indices_decreases(lo: nat, hi: nat) {
    if lo < hi {
        lemma_chunk_cond_zero(lo, hi);
        lemma_chunk_exp_char_holds(lo, hi);
        lemma_pow2_pos(chunk_exp(lo, hi));
    }
}

/// The chunk chosen by `chunk_exp` really satisfies its condition.
proof fn lemma_chunk_exp_char_holds(lo: nat, hi: nat)
    requires
        lo < hi,
    ensures
        chunk_cond(lo, hi, chunk_exp(lo, hi)),
{
    lemma_chunk_cond_zero(lo, hi);
    lemma_chunk_exp_from_holds(lo, hi, 63);
}

proof fn lemma_chunk_exp_from_holds(lo: nat, hi: nat, start: nat)
    requires
        chunk_cond(lo, hi, 0),
    ensures
        chunk_cond(lo, hi, chunk_exp_from(lo, hi, start)),
    decreases start,
{
    if start > 0 && !chunk_cond(lo, hi, start) {
        lemma_chunk_exp_from_holds(lo, hi, (start - 1) as nat);
    }
}

/// The decomposition of the half-open leaf range `[lo, hi)` into maximal
/// aligned stored subtrees: each step takes the largest power of two
/// `2^level` such that `lo` is a multiple of it and `lo + 2^level <= hi`,
/// and emits the storage index of that subtree's root hash.
pub open spec fn subtree_indices(lo: nat, hi: nat) -> Seq<int>
    decreases hi - lo,
        when lo <= hi
        via subtree_indices_decreases
{
    if lo >= hi {
        Seq::empty()
    } else {
        let e = chunk_exp(lo, hi);
        seq![stored_hash_index_spec(e as int, lo / pow2(e))] + subtree_indices(lo + pow2(e), hi)
    }
}

/// Splits `[lo, hi)` into maximal aligned subtrees whose root hashes are
/// already stored, returning their storage indices in leaf order. Combining
/// the hashes at these indices left to right with [`node_hash`] yields the
/// hash of the whole range.
pub fn sub_tree_index(lo: usize, hi: usize) -> (r: Vec<usize>)
    requires
        lo <= hi,
        shift_sum(hi as nat) <= usize::MAX as nat,
    ensures
        r@.map_values(|x: usize| x as int) == subtree_indices(lo as nat, hi as nat),
{
    let ghost lo0 = lo as nat;
    let mut r: Vec<usize> = Vec::new();
    let mut lo = lo;
    while lo < hi
        invariant
            lo <= hi,
            lo0 <= hi as nat,
            shift_sum(hi as nat) <= usize::MAX as nat,
            subtree_indices(lo0, hi as nat) == r@.map_values(|x: usize| x as int)
                + subtree_indices(lo as nat, hi as nat),
        decreases hi - lo,
    {
        let ghost e_spec = chunk_exp(lo as nat, hi as nat);
        let mut k: usize = 1;
        let mut level: usize = 0;
        proof {
            lemma_chunk_cond_zero(lo as nat, hi as nat);
            assert(pow2(0) == 1);
        }
        while k <= (hi - lo) / 2 && lo % (2 * k) == 0
            invariant
                lo < hi,
                1 <= k,
                k == pow2(level as nat),
                chunk_cond(lo as nat, hi as nat, level as nat),
            decreases hi - lo - k,
        {
            proof {
                crate::lemma_pow2_gt_exp(level as nat);
            }
            k = 2 * k;
            level = level + 1;
        }
        proof {
            lemma_pow2_word_exp(level as nat);
            assert(!chunk_cond(lo as nat, hi as nat, (level + 1) as nat)) by {
                assert(pow2((level + 1) as nat) == 2 * k);
            }
            lemma_chunk_exp_char(lo as nat, hi as nat, level as nat);
            lemma_chunk_index_bound(lo as nat, hi as nat, level as nat);
            lemma_shift_sum_ge(hi as nat);
            vstd::arithmetic::div_mod::lemma_fundamental_div_mod(lo as int, k as int);
        }
        let idx = stored_hash_index(level as isize, lo / k);
        let ghost r_old = r@;
        r.push(idx);
        proof {
            assert(r@.map_values(|x: usize| x as int) =~= r_old.map_values(|x: usize| x as int)
                + seq![idx as int]);
            assert(subtree_indices(lo as nat, hi as nat) == seq![idx as int] + subtree_indices(
                (lo + k) as nat,
                hi as nat,
            ));
            assert(r_old.map_values(|x: usize| x as int) + (seq![idx as int] + subtree_indices(
                (lo + k) as nat,
                hi as nat,
            )) =~= (r_old.map_values(|x: usize| x as int) + seq![idx as int]) + subtree_indices(
                (lo + k) as nat,
                hi as nat,
            ));
        }
        lo = lo + k;
    }
    proof {
        assert(subtree_indices(lo as nat, hi as nat) == Seq::<int>::empty());
        assert(r@.map_values(|x: usize| x as int) + Seq::<int>::empty() =~= r@.map_values(
            |x: usize| x as int,
        ));
    }
    r
}

/// The SHA-256 digest of a byte sequence, named but not defined: all the
/// contracts need is that it is a function of the bytes alone.
pub uninterp spec fn sha256_of(data: Seq<u8>) -> Seq<u8>;

/// Relies on sha2::Sha256::digest: the SHA-256 digest of the input, 32
/// bytes, a function of the input bytes alone.
#[verifier::external_body]
fn sha256(data: &[u8]) -> (r: [u8; 32])
    ensures
        r@ == sha256_of(data@),
{
    <sha2::Sha256 as sha2::Digest>::digest(data).into()
}

/// The hash of a leaf record: the digest of `0x00` followed by the record
/// bytes. The leading byte keeps leaf hashes apart from interior hashes.
pub open spec fn record_hash_spec(data: Seq<u8>) -> Seq<u8> {
    sha256_of(seq![0u8] + data)
}

/// The hash of an interior node: the digest of `0x01` followed by the left
/// then the right child hash.
pub open spec fn node_hash_spec(left: Seq<u8>, right: Seq<u8>) -> Seq<u8> {
    sha256_of(seq![1u8] + left + right)
}

/// The all-zero digest value, the hash of an empty tree.
pub open spec fn zero_hash() -> Seq<u8> {
    Seq::new(32, |i: int| 0u8)
}

/// A fixed-size 32-byte digest value.
#[derive(Copy, Clone, Debug)]
pub struct Hash {
    bytes: [u8; 32],
}

impl View for Hash {
    type V = Seq<u8>;

    closed spec fn view(&self) -> Seq<u8> {
        self.bytes@
    }
}

impl Default for Hash {
    /// The all-zero hash.
    fn default() -> (r: Self)
        ensures
            r@ == zero_hash(),
    {
        let bytes: [u8; 32] = [0u8; 32];
        proof {
            assert(bytes@ =~= zero_hash());
        }
        Hash { bytes }
    }
}

impl Hash {
    /// The raw digest bytes.
    pub fn as_bytes(&self) -> (r: &[u8; 32])
        ensures
            r@ == self@,
    {
        &self.bytes
    }
}

/// Returns the content hash for record data.
pub fn record_hash(data: &[u8]) -> (r: Hash)
    ensures
        r@ == record_hash_spec(data@),
{
    let mut buf: Vec<u8> = Vec::new();
    buf.push(0u8);
    let mut i: usize = 0;
    proof {
        assert(buf@ =~= seq![0u8] + data@.subrange(0, 0));
    }
    while i < data.len()
        invariant
            i <= data@.len(),
            buf@ == seq![0u8] + data@.subrange(0, i as int),
        decreases data@.len() - i,
    {
        buf.push(data[i]);
        i = i + 1;
        proof {
            assert(buf@ =~= seq![0u8] + data@.subrange(0, i as int));
        }
    }
    proof {
        assert(data@.subrange(0, data@.len() as int) =~= data@);
    }
    Hash { bytes: sha256(buf.as_slice()) }
}

/// Returns the hash for an interior tree node.
pub fn node_hash(left: &Hash, right: &Hash) -> (r: Hash)
    ensures
        r@ == node_hash_spec(left@, right@),
{
    let mut buf: Vec<u8> = Vec::new();
    buf.push(1u8);
    let mut i: usize = 0;
    proof {
        assert(buf@ =~= seq![1u8] + left@.subrange(0, 0));
    }
    while i < 32
        invariant
            i <= 32,
            buf@ == seq![1u8] + left@.subrange(0, i as int),
        decreases 32 - i,
    {
        buf.push(left.bytes[i]);
        i = i + 1;
        proof {
            assert(buf@ =~= seq![1u8] + left@.subrange(0, i as int));
        }
    }
    proof {
        assert(left@.subrange(0, 32) =~= left@);
    }
    let mut j: usize = 0;
    proof {
        assert(buf@ =~= (seq![1u8] + left@) + right@.subrange(0, 0));
    }
    while j < 32
        invariant
            j <= 32,
            buf@ == (seq![1u8] + left@) + right@.subrange(0, j as int),
        decreases 32 - j,
    {
        buf.push(right.bytes[j]);
        j = j + 1;
        proof {
            assert(buf@ =~= (seq![1u8] + left@) + right@.subrange(0, j as int));
        }
    }
    proof {
        assert(right@.subrange(0, 32) =~= right@);
        assert((seq![1u8] + left@) + right@ =~= seq![1u8] + left@ + right@);
    }
    Hash { bytes: sha256(buf.as_slice()) }
}

/// Folding a nonempty sequence of subtree hashes, rightmost first, through
/// interior-node hashing.
pub open spec fn combined_hash_spec(hs: Seq<Seq<u8>>) -> Seq<u8>
    decreases hs.len(),
    when hs.len() >= 1
{
    if hs.len() == 1 {
        hs[0]
    } else {
        node_hash_spec(hs[0], combined_hash_spec(hs.subrange(1, hs.len() as int)))
    }
}

/// Combines the root hashes of a subtree decomposition (as produced by
/// [`sub_tree_index`], leftmost subtree first) into the hash of the whole
/// range.
pub fn combine_hashes(hashes: &Vec<Hash>) -> (r: Hash)
    requires
        hashes@.len() >= 1,
    ensures
        r@ == combined_hash_spec(hashes@.map_values(|h: Hash| h@)),
{
    let ghost hs = hashes@.map_values(|h: Hash| h@);
    let n = hashes.len();
    let mut acc: Hash = hashes[n - 1];
    let mut i: usize = n - 1;
    proof {
        assert(hs.subrange(i as int, n as int).len() == 1);
        assert(hs.subrange(i as int, n as int)[0] == acc@);
    }
    while i > 0
        invariant
            i < n,
            n == hashes@.len(),
            hs == hashes@.map_values(|h: Hash| h@),
            acc@ == combined_hash_spec(hs.subrange(i as int, n as int)),
        decreases i,
    {
        i = i - 1;
        acc = node_hash(&hashes[i], &acc);
        proof {
            assert(hs.subrange(i as int, n as int).subrange(
                1,
                hs.subrange(i as int, n as int).len() as int,
            ) =~= hs.subrange(i + 1, n as int));
            assert(hs.subrange(i as int, n as int)[0] == hs[i as int]);
        }
    }
    proof {
        assert(hs.subrange(0, n as int) =~= hs);
    }
    acc
}

/// A capability for reading stored hashes back from whatever medium holds
/// them; implemented outside this crate.
pub trait ReadHash {
    type Error;

    /// Reads the hash at each of the given storage indices, one hash per
    /// index, in order.
    fn read_hashes(&self, indices: &Vec<usize>) -> (r: Result<Vec<Hash>, Self::Error>)
        ensures
            r matches Ok(hs) ==> hs@.len() == indices@.len(),
    ;
}

/// The root hash of the tree over the first `n` records, reconstructed from
/// stored hashes: the empty tree hashes to all zeroes, and a nonempty tree
/// is the left-to-right combination of its subtree decomposition, whose
/// hashes `reader` supplies.
pub fn tree_hash<R: ReadHash>(n: usize, reader: &R) -> (r: Result<Hash, R::Error>)
    requires
        shift_sum(n as nat) <= usize::MAX as nat,
    ensures
        n == 0 ==> (r matches Ok(h) && h@ == zero_hash()),
        n > 0 ==> (r matches Ok(h) ==> exists|hs: Seq<Seq<u8>>|
            hs.len() == subtree_indices(0, n as nat).len() && h@ == combined_hash_spec(hs)),
{
    if n == 0 {
        return Ok(Hash::default());
    }
    let indices = sub_tree_index(0, n);
    proof {
        assert(subtree_indices(0, n as nat).len() >= 1);
        assert(indices@.map_values(|x: usize| x as int).len() == indices@.len());
    }
    let hashes = match reader.read_hashes(&indices) {
        Ok(h) => h,
        Err(e) => {
            return Err(e);
        },
    };
    let root = combine_hashes(&hashes);
    proof {
        let hs = hashes@.map_values(|h: Hash| h@);
        assert(hs.len() == subtree_indices(0, n as nat).len());
        assert(root@ == combined_hash_spec(hs));
    }
    Ok(root)
}

} // verus!
