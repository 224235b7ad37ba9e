//! Addressing and hashing algebra for an append-only, tile-based Merkle
//! transparency log: hash primitives with domain separation, the bijection
//! between tree coordinates and storage indices, tile geometry with path
//! encoding, and the planner for the tiles touched when the tree grows.
use vstd::prelude::*;

pub mod tile;
pub mod tlog;

verus! {

/// `2^e` as a mathematical value.
pub open spec fn pow2(e: nat) -> nat
    decreases e,
{
    if e == 0 {
        1
    } else {
        2 * pow2((e - 1) as nat)
    }
}

pub proof fn lemma_pow2_pos(e: nat)
    ensures
        pow2(e) >= 1,
    decreases e,
{
    if e > 0 {
        lemma_pow2_pos((e - 1) as nat);
    }
}

pub proof fn lemma_pow2_mono(a: nat, b: nat)
    requires
        a <= b,
    ensures
        pow2(a) <= pow2(b),
    decreases b,
{
    if a < b {
        lemma_pow2_mono(a, (b - 1) as nat);
        lemma_pow2_pos((b - 1) as nat);
    }
}

/// The concrete powers of two that bound tile heights and word width.
pub proof fn lemma_pow2_consts()
    ensures
        pow2(30) == 0x4000_0000nat,
        pow2(64) == 0x1_0000_0000_0000_0000nat,
{
    reveal_with_fuel(pow2, 65);
}

pub proof fn lemma_pow2_adds(a: nat, b: nat)
    ensures
        pow2(a + b) == pow2(a) * pow2(b),
    decreases a,
{
    if a == 0 {
        assert(1 * pow2(b) == pow2(b));
    } else {
        lemma_pow2_adds((a - 1) as nat, b);
        assert(pow2(a) * pow2(b) == 2 * (pow2((a - 1) as nat) * pow2(b))) by (nonlinear_arith)
            requires
                pow2(a) == 2 * pow2((a - 1) as nat),
        ;
        assert(pow2(a + b) == 2 * pow2((a + b - 1) as nat));
    }
}

pub proof fn lemma_pow2_gt_exp(e: nat)
    ensures
        pow2(e) > e,
    decreases e,
{
    if e > 0 {
        lemma_pow2_gt_exp((e - 1) as nat);
    }
}

/// Any machine word is below `2^64`, so an exponent whose power fits in a
/// word is at most 63.
pub proof fn lemma_pow2_word_exp(e: nat)
    requires
        pow2(e) <= usize::MAX as nat,
    ensures
        e <= 63,
{
    lemma_pow2_consts();
    if e > 63 {
        lemma_pow2_mono(64, e);
    }
}

/// `2^e` as an executable value.
pub fn pow2_exec(e: usize) -> (r: usize)
    requires
        pow2(e as nat) <= usize::MAX as nat,
    ensures
        r == pow2(e as nat),
{
    let mut r: usize = 1;
    let mut i: usize = 0;
    while i < e
        invariant
            i <= e,
            r == pow2(i as nat),
            pow2(e as nat) <= usize::MAX as nat,
        decreases e - i,
    {
        proof {
            lemma_pow2_mono((i + 1) as nat, e as nat);
        }
        r = 2 * r;
        i = i + 1;
    }
    r
}

} // verus!
