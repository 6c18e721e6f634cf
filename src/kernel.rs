use vstd::prelude::*;

verus! {

/// Word-by-word `dst[i] &= src[i]` over the common length of the two ranges.
pub fn block_and(dst: &mut [u64], src: &[u64])
    ensures
        final(dst)@.len() == old(dst)@.len(),
        forall|i: int|
            0 <= i < old(dst)@.len() ==> #[trigger] final(dst)@[i] == if i < src@.len() {
                old(dst)@[i] & src@[i]
            } else {
                old(dst)@[i]
            },
{
    let n: usize = if dst.len() < src.len() {
        dst.len()
    } else {
        src.len()
    };
    let mut i: usize = 0;
    while i < n
        invariant
            n <= dst@.len(),
            n <= src@.len(),
            n == dst@.len() || n == src@.len(),
            i <= n,
            dst@.len() == old(dst)@.len(),
            forall|k: int|
                0 <= k < dst@.len() ==> #[trigger] dst@[k] == if k < i {
                    old(dst)@[k] & src@[k]
                } else {
                    old(dst)@[k]
                },
        decreases n - i,
    {
        dst[i] = dst[i] & src[i];
        i = i + 1;
    }
}

/// Word-by-word `dst[i] |= src[i]` over the common length of the two ranges.
pub fn block_or(dst: &mut [u64], src: &[u64])
    ensures
        final(dst)@.len() == old(dst)@.len(),
        forall|i: int|
            0 <= i < old(dst)@.len() ==> #[trigger] final(dst)@[i] == if i < src@.len() {
                old(dst)@[i] | src@[i]
            } else {
                old(dst)@[i]
            },
{
    let n: usize = if dst.len() < src.len() {
        dst.len()
    } else {
        src.len()
    };
    let mut i: usize = 0;
    while i < n
        invariant
            n <= dst@.len(),
            n <= src@.len(),
            n == dst@.len() || n == src@.len(),
            i <= n,
            dst@.len() == old(dst)@.len(),
            forall|k: int|
                0 <= k < dst@.len() ==> #[trigger] dst@[k] == if k < i {
                    old(dst)@[k] | src@[k]
                } else {
                    old(dst)@[k]
                },
        decreases n - i,
    {
        dst[i] = dst[i] | src[i];
        i = i + 1;
    }
}

/// Word-by-word `dst[i] ^= src[i]` over the common length of the two ranges.
pub fn block_xor(dst: &mut [u64], src: &[u64])
    ensures
        final(dst)@.len() == old(dst)@.len(),
        forall|i: int|
            0 <= i < old(dst)@.len() ==> #[trigger] final(dst)@[i] == if i < src@.len() {
                old(dst)@[i] ^ src@[i]
            } else {
                old(dst)@[i]
            },
{
    let n: usize = if dst.len() < src.len() {
        dst.len()
    } else {
        src.len()
    };
    let mut i: usize = 0;
    while i < n
        invariant
            n <= dst@.len(),
            n <= src@.len(),
            n == dst@.len() || n == src@.len(),
            i <= n,
            dst@.len() == old(dst)@.len(),
            forall|k: int|
                0 <= k < dst@.len() ==> #[trigger] dst@[k] == if k < i {
                    old(dst)@[k] ^ src@[k]
                } else {
                    old(dst)@[k]
                },
        decreases n - i,
    {
        dst[i] = dst[i] ^ src[i];
        i = i + 1;
    }
}

} // verus!
