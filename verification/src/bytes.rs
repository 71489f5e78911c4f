//! Small operations on byte vectors.

use vstd::prelude::*;

verus! {

/// Appends the bytes of `src` to `dst`.
pub fn append_bytes(dst: &mut Vec<u8>, src: &Vec<u8>)
    ensures
        final(dst)@ == old(dst)@ + src@,
{
    let mut i: usize = 0;
    while i < src.len()
        invariant
            i <= src.len(),
            dst@ == old(dst)@ + src@.subrange(0, i as int),
        decreases src.len() - i,
    {
        dst.push(src[i]);
        i += 1;
        assert(dst@ =~= old(dst)@ + src@.subrange(0, i as int));
    }
    assert(src@.subrange(0, i as int) =~= src@);
}

/// A copy of the bytes of `src` from position `from` on.
pub fn copy_from(src: &Vec<u8>, from: usize) -> (copy: Vec<u8>)
    requires
        from <= src.len(),
    ensures
        copy@ == src@.skip(from as int),
{
    let mut copy: Vec<u8> = Vec::new();
    let mut i: usize = from;
    while i < src.len()
        invariant
            from <= i <= src.len(),
            copy@ == src@.subrange(from as int, i as int),
        decreases src.len() - i,
    {
        copy.push(src[i]);
        i += 1;
        assert(copy@ =~= src@.subrange(from as int, i as int));
    }
    assert(copy@ =~= src@.skip(from as int));
    copy
}

} // verus!
