use vstd::prelude::*;

verus! {

/// Whether bit `j` of the word `w` is set.
pub open spec fn bit(w: u64, j: u64) -> bool {
    (w >> j) & 1u64 == 1u64
}

/// Number of set bits of a word.
pub open spec fn popcount(w: u64) -> nat
    decreases w,
{
    if w == 0 {
        0
    } else {
        (w % 2) as nat + popcount(w / 2)
    }
}

pub proof fn lemma_mask_test(w: u64, j: u64)
    requires
        j < 64,
    ensures
        ((w & (1u64 << j)) != 0) == bit(w, j),
{
    assert(((w & (1u64 << j)) != 0) == ((w >> j) & 1u64 == 1u64)) by (bit_vector)
        requires
            j < 64,
    ;
}

pub proof fn lemma_set_bit(w: u64, j: u64, k: u64)
    requires
        j < 64,
        k < 64,
    ensures
        bit(w | (1u64 << j), k) == (k == j || bit(w, k)),
{
    assert((((w | (1u64 << j)) >> k) & 1u64 == 1u64) == (k == j || (w >> k) & 1u64 == 1u64))
        by (bit_vector)
        requires
            j < 64,
            k < 64,
    ;
}

pub proof fn lemma_clear_bit(w: u64, j: u64, k: u64)
    requires
        j < 64,
        k < 64,
    ensures
        bit(w & !(1u64 << j), k) == (k != j && bit(w, k)),
{
    assert((((w & !(1u64 << j)) >> k) & 1u64 == 1u64) == (k != j && (w >> k) & 1u64 == 1u64))
        by (bit_vector)
        requires
            j < 64,
            k < 64,
    ;
}

pub proof fn lemma_and_bit(a: u64, b: u64, k: u64)
    requires
        k < 64,
    ensures
        bit(a & b, k) == (bit(a, k) && bit(b, k)),
{
    assert((((a & b) >> k) & 1u64 == 1u64) == (((a >> k) & 1u64 == 1u64) && ((b >> k) & 1u64
        == 1u64))) by (bit_vector)
        requires
            k < 64,
    ;
}

pub proof fn lemma_or_bit(a: u64, b: u64, k: u64)
    requires
        k < 64,
    ensures
        bit(a | b, k) == (bit(a, k) || bit(b, k)),
{
    assert((((a | b) >> k) & 1u64 == 1u64) == (((a >> k) & 1u64 == 1u64) || ((b >> k) & 1u64
        == 1u64))) by (bit_vector)
        requires
            k < 64,
    ;
}

pub proof fn lemma_not_bit(a: u64, k: u64)
    requires
        k < 64,
    ensures
        bit(!a, k) == !bit(a, k),
{
    assert(((((!a) >> k) & 1u64 == 1u64) == !((a >> k) & 1u64 == 1u64))) by (bit_vector)
        requires
            k < 64,
    ;
}

pub proof fn lemma_andnot_bit(a: u64, b: u64, k: u64)
    requires
        k < 64,
    ensures
        bit(a & !b, k) == (bit(a, k) && !bit(b, k)),
{
    assert((((a & !b) >> k) & 1u64 == 1u64) == (((a >> k) & 1u64 == 1u64) && !((b >> k) & 1u64
        == 1u64))) by (bit_vector)
        requires
            k < 64,
    ;
}

pub proof fn lemma_zero_bit(k: u64)
    requires
        k < 64,
    ensures
        !bit(0u64, k),
{
    assert(!(((0u64 >> k) & 1u64) == 1u64)) by (bit_vector);
}

/// A word is zero exactly when none of its 64 bits is set.
pub proof fn lemma_zero_iff_no_bits(w: u64)
    ensures
        (w == 0) == (forall|k: u64| k < 64 ==> !#[trigger] bit(w, k)),
{
    if w != 0 {
        let tz = w.trailing_zeros();
        vstd::std_specs::bits::axiom_u64_trailing_zeros(w);
        assert(bit(w, tz as u64));
    } else {
        assert forall|k: u64| k < 64 implies !#[trigger] bit(w, k) by {
            lemma_zero_bit(k);
        }
    }
}

/// Bits of a word shifted left by `s` and filled from below with the top of `lower`.
pub proof fn lemma_shl_carry_bit(w: u64, lower: u64, s: u64, k: u64)
    requires
        0 < s < 64,
        k < 64,
    ensures
        bit((w << s) | (lower >> ((64 - s) as u64)), k) == if k >= s {
            bit(w, (k - s) as u64)
        } else {
            bit(lower, (k + 64 - s) as u64)
        },
{
    let inv = (64 - s) as u64;
    if k >= s {
        let t = (k - s) as u64;
        assert(((((w << s) | (lower >> inv)) >> k) & 1u64 == 1u64) == ((w >> t) & 1u64 == 1u64))
            by (bit_vector)
            requires
                0 < s < 64,
                k < 64,
                k >= s,
                t == k - s,
                inv == 64 - s,
        ;
    } else {
        let t = (k + 64 - s) as u64;
        assert(((((w << s) | (lower >> inv)) >> k) & 1u64 == 1u64) == ((lower >> t) & 1u64
            == 1u64)) by (bit_vector)
            requires
                0 < s < 64,
                k < 64,
                k < s,
                t == k + 64 - s,
                inv == 64 - s,
        ;
    }
}

/// Bits of a word shifted right by `s` and filled from above with the bottom of `upper`.
pub proof fn lemma_shr_carry_bit(w: u64, upper: u64, s: u64, k: u64)
    requires
        0 < s < 64,
        k < 64,
    ensures
        bit((w >> s) | (upper << ((64 - s) as u64)), k) == if k + s < 64 {
            bit(w, (k + s) as u64)
        } else {
            bit(upper, (k + s - 64) as u64)
        },
{
    let inv = (64 - s) as u64;
    if k + s < 64 {
        let t = (k + s) as u64;
        assert(((((w >> s) | (upper << inv)) >> k) & 1u64 == 1u64) == ((w >> t) & 1u64 == 1u64))
            by (bit_vector)
            requires
                0 < s < 64,
                k < 64,
                k + s < 64,
                t == k + s,
                inv == 64 - s,
        ;
    } else {
        let t = (k + s - 64) as u64;
        assert(((((w >> s) | (upper << inv)) >> k) & 1u64 == 1u64) == ((upper >> t) & 1u64
            == 1u64)) by (bit_vector)
            requires
                0 < s < 64,
                k < 64,
                k + s >= 64,
                t == k + s - 64,
                inv == 64 - s,
        ;
    }
}

} // verus!
