//! Moving stretches of bytes between and within buffers.

use vstd::prelude::*;

verus! {

/// Copies `n` bytes of `src`, from index `from` on, to `dst` at index `to`.
pub(crate) fn copy_block(src: &[u8], from: usize, dst: &mut [u8], to: usize, n: usize)
    requires
        from + n <= src@.len(),
        to + n <= old(dst)@.len(),
    ensures
        final(dst)@ == old(dst)@.take(to as int) + src@.subrange(from as int, from + n)
            + old(dst)@.skip(to + n),
{
    let ghost before = dst@;
    let src_len = src.len();
    let dst_len = dst.len();
    assert(dst@ =~= before.take(to as int) + src@.subrange(from as int, from as int) + before.skip(
        to as int,
    ));
    let mut k: usize = 0;
    while k < n
        invariant
            k <= n,
            src_len == src@.len(),
            dst_len == before.len(),
            from + n <= src_len,
            to + n <= dst_len,
            dst@.len() == before.len(),
            dst@ == before.take(to as int) + src@.subrange(from as int, from + k) + before.skip(
                to + k,
            ),
        decreases n - k,
    {
        let b: u8 = src[from + k];
        dst[to + k] = b;
        k += 1;
        assert(dst@ =~= before.take(to as int) + src@.subrange(from as int, from + k)
            + before.skip(to + k));
    }
}

/// Moves `n` bytes of `buf` from index `from` down to index `to`.
pub(crate) fn shift_block(buf: &mut [u8], from: usize, to: usize, n: usize)
    requires
        to <= from,
        from + n <= old(buf)@.len(),
    ensures
        final(buf)@ == old(buf)@.take(to as int) + old(buf)@.subrange(from as int, from + n)
            + old(buf)@.skip(to + n),
{
    let ghost before = buf@;
    let len = buf.len();
    assert(buf@ =~= before.take(to as int) + before.subrange(from as int, from as int)
        + before.skip(to as int));
    let mut k: usize = 0;
    while k < n
        invariant
            k <= n,
            to <= from,
            len == before.len(),
            from + n <= len,
            buf@.len() == before.len(),
            buf@ == before.take(to as int) + before.subrange(from as int, from + k) + before.skip(
                to + k,
            ),
        decreases n - k,
    {
        let b: u8 = buf[from + k];
        assert(b == before[from + k]) by {
            assert(buf@[from + k] == before.skip(to + k)[from - to]);
        }
        buf[to + k] = b;
        k += 1;
        assert(buf@ =~= before.take(to as int) + before.subrange(from as int, from + k)
            + before.skip(to + k));
    }
}

} // verus!
