use vstd::prelude::*;

verus! {

/// Whether bit `j` (0 = least significant) of word `w` is one.
pub open spec fn bit_of(w: u64, j: u64) -> bool {
    (w >> j) & 1u64 == 1u64
}

/// The number of one bits of `w` among its `n` lowest positions.
pub open spec fn ones_below(w: u64, n: nat) -> nat
    decreases n,
{
    if n == 0 {
        0
    } else {
        ones_below(w, (n - 1) as nat) + if bit_of(w, (n - 1) as u64) {
            1nat
        } else {
            0nat
        }
    }
}

/// The mask that keeps the `n` lowest bits of a word; a zero `n` keeps all 64.
pub open spec fn low_mask(n: u64) -> u64 {
    if n == 0 {
        !0u64
    } else {
        ((1u64 << n) - 1) as u64
    }
}

/// No bit of the zero word is set.
pub proof fn lemma_bit_zero(j: u64)
    ensures
        !bit_of(0u64, j),
{
    assert((0u64 >> j) & 1u64 != 1u64) by (bit_vector);
}

pub proof fn lemma_bit_and(a: u64, b: u64, j: u64)
    requires
        j < 64,
    ensures
        bit_of(a & b, j) == (bit_of(a, j) && bit_of(b, j)),
{
    assert(((a & b) >> j) & 1u64 == 1u64 <==> ((a >> j) & 1u64 == 1u64 && (b >> j) & 1u64
        == 1u64)) by (bit_vector)
        requires
            j < 64,
    ;
}

pub proof fn lemma_bit_or(a: u64, b: u64, j: u64)
    requires
        j < 64,
    ensures
        bit_of(a | b, j) == (bit_of(a, j) || bit_of(b, j)),
{
    assert(((a | b) >> j) & 1u64 == 1u64 <==> ((a >> j) & 1u64 == 1u64 || (b >> j) & 1u64
        == 1u64)) by (bit_vector)
        requires
            j < 64,
    ;
}

pub proof fn lemma_bit_xor(a: u64, b: u64, j: u64)
    requires
        j < 64,
    ensures
        bit_of(a ^ b, j) == (bit_of(a, j) != bit_of(b, j)),
{
    assert(((a ^ b) >> j) & 1u64 == 1u64 <==> ((a >> j) & 1u64 == 1u64) != ((b >> j) & 1u64
        == 1u64)) by (bit_vector)
        requires
            j < 64,
    ;
}

/// Testing a word against a one-bit mask reads that bit.
pub proof fn lemma_bit_test(w: u64, b: u64)
    requires
        b < 64,
    ensures
        (w & (1u64 << b) != 0) == bit_of(w, b),
{
    assert((w & (1u64 << b) != 0) <==> (w >> b) & 1u64 == 1u64) by (bit_vector)
        requires
            b < 64,
    ;
}

/// Setting bit `b` changes that bit alone.
pub proof fn lemma_bit_set(w: u64, b: u64, j: u64)
    requires
        b < 64,
        j < 64,
    ensures
        bit_of(w | (1u64 << b), j) == (j == b || bit_of(w, j)),
{
    assert(((w | (1u64 << b)) >> j) & 1u64 == 1u64 <==> (j == b || (w >> j) & 1u64 == 1u64))
        by (bit_vector)
        requires
            b < 64,
            j < 64,
    ;
}

/// Clearing bit `b` changes that bit alone.
pub proof fn lemma_bit_clear(w: u64, b: u64, j: u64)
    requires
        b < 64,
        j < 64,
    ensures
        bit_of(w & !(1u64 << b), j) == (j != b && bit_of(w, j)),
{
    assert(((w & !(1u64 << b)) >> j) & 1u64 == 1u64 <==> (j != b && (w >> j) & 1u64 == 1u64))
        by (bit_vector)
        requires
            b < 64,
            j < 64,
    ;
}

/// Masking with `low_mask(n)` keeps exactly the bits below `n`.
pub proof fn lemma_bit_low_mask(w: u64, n: u64, j: u64)
    requires
        n < 64,
        j < 64,
    ensures
        bit_of(w & low_mask(n), j) == (bit_of(w, j) && (n == 0 || j < n)),
{
    if n == 0 {
        assert(((w & !0u64) >> j) & 1u64 == (w >> j) & 1u64) by (bit_vector);
    } else {
        assert(((w & (((1u64 << n) - 1) as u64)) >> j) & 1u64 == 1u64 <==> ((w >> j) & 1u64
            == 1u64 && j < n)) by (bit_vector)
            requires
                0 < n < 64,
                j < 64,
        ;
    }
}

/// Bits that are zero from `n` up to 64 add nothing to the count.
pub proof fn lemma_ones_below_zero_tail(w: u64, n: nat, k: nat)
    requires
        n <= k <= 64,
        forall|j: u64| n <= j < 64 ==> !#[trigger] bit_of(w, j),
    ensures
        ones_below(w, k) == ones_below(w, n),
    decreases k - n,
{
    if k > n {
        lemma_ones_below_zero_tail(w, n, (k - 1) as nat);
        assert(!bit_of(w, (k - 1) as u64));
    }
}

/// Two words that agree from bit `n` up agree once shifted right by `n`.
proof fn lemma_bits_determine_shift(a: u64, b: u64, n: u64)
    requires
        n < 64,
        forall|j: u64| j < 64 ==> #[trigger] bit_of(a, j) == bit_of(b, j),
    ensures
        a >> n == b >> n,
    decreases 63 - n,
{
    assert(bit_of(a, n) == bit_of(b, n));
    if n == 63 {
        assert(a >> 63u64 == b >> 63u64) by (bit_vector)
            requires
                ((a >> 63u64) & 1u64 == 1u64) == ((b >> 63u64) & 1u64 == 1u64),
        ;
    } else {
        let m: u64 = (n + 1) as u64;
        lemma_bits_determine_shift(a, b, m);
        assert(a >> n == b >> n) by (bit_vector)
            requires
                n < 63,
                m == n + 1,
                a >> m == b >> m,
                ((a >> n) & 1u64 == 1u64) == ((b >> n) & 1u64 == 1u64),
        ;
    }
}

/// A word is determined by its 64 bits.
pub proof fn lemma_bits_determine_word(a: u64, b: u64)
    requires
        forall|j: u64| j < 64 ==> #[trigger] bit_of(a, j) == bit_of(b, j),
    ensures
        a == b,
{
    lemma_bits_determine_shift(a, b, 0);
    assert(a >> 0u64 == a && b >> 0u64 == b) by (bit_vector);
}

/// Relies on `u64::count_ones`, documented as the number of ones in the binary
/// representation of the word.
#[verifier::external_body]
pub(crate) fn word_ones(w: u64) -> (r: u32)
    ensures
        r as nat == ones_below(w, 64),
{
    w.count_ones()
}

} // verus!
