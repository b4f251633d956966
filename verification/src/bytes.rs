//! Byte primitives.

use vstd::prelude::*;
use vstd::slice::slice_subrange;

verus! {

/// Appends the bytes of `src` to `dst`.
pub fn append_bytes(dst: &mut Vec<u8>, src: &[u8])
    ensures
        final(dst)@ == old(dst)@ + src@,
{
    let ghost start = dst@;
    let mut i: usize = 0;
    assert(dst@ =~= start + src@.take(0));
    while i < src.len()
        invariant
            i <= src.len(),
            dst@ == start + src@.take(i as int),
        decreases src.len() - i,
    {
        dst.push(src[i]);
        assert(start + src@.take(i + 1) =~= (start + src@.take(i as int)).push(src@[i as int]));
        i += 1;
    }
    assert(src@.take(src.len() as int) =~= src@);
}

/// The `len` bytes of `content` from position `offset` on, if it holds that
/// many.
pub fn read_at(content: &Vec<u8>, offset: usize, len: usize) -> (r: Option<&[u8]>)
    ensures
        match r {
            Some(s) => offset + len <= content.len() && s@ == content@.subrange(
                offset as int,
                offset + len,
            ),
            None => offset + len > content.len(),
        },
{
    if offset > content.len() || len > content.len() - offset {
        None
    } else {
        Some(slice_subrange(content.as_slice(), offset, offset + len))
    }
}

/// Whether both hold the same bytes.
pub fn same_bytes(a: &[u8], b: &[u8]) -> (r: bool)
    ensures
        r == (a@ == b@),
{
    if a.len() != b.len() {
        return false;
    }
    let mut i: usize = 0;
    while i < a.len()
        invariant
            i <= a.len(),
            a.len() == b.len(),
            forall|j: int| 0 <= j < i ==> a@[j] == b@[j],
        decreases a.len() - i,
    {
        if a[i] != b[i] {
            return false;
        }
        i += 1;
    }
    assert(a@ =~= b@);
    true
}

/// Whether `content` holds the bytes of `chunk` from position `offset` on.
pub fn holds_at(content: &Vec<u8>, offset: usize, chunk: &[u8]) -> (r: bool)
    ensures
        r == (offset + chunk.len() <= content.len() && content@.subrange(
            offset as int,
            offset + chunk.len(),
        ) == chunk@),
{
    if offset > content.len() || chunk.len() > content.len() - offset {
        return false;
    }
    let mut i: usize = 0;
    while i < chunk.len()
        invariant
            i <= chunk.len(),
            offset + chunk.len() <= content.len(),
            forall|j: int| 0 <= j < i ==> content@[offset + j] == chunk@[j],
        decreases chunk.len() - i,
    {
        if content[offset + i] != chunk[i] {
            assert(content@.subrange(offset as int, offset + chunk.len())[i as int] != chunk@[i as int]);
            return false;
        }
        i += 1;
    }
    assert(content@.subrange(offset as int, offset + chunk.len()) =~= chunk@);
    true
}

/// Writing `chunk` after `written` keeps a prefix of `content` exactly when
/// `written` is one and `content` holds `chunk` where `written` ends.
pub proof fn lemma_prefix_step(written: Seq<u8>, chunk: Seq<u8>, content: Seq<u8>)
    ensures
        (written + chunk).is_prefix_of(content) <==> written.is_prefix_of(content)
            && written.len() + chunk.len() <= content.len() && content.subrange(
            written.len() as int,
            (written.len() + chunk.len()) as int,
        ) == chunk,
{
    let whole = written + chunk;
    let n = written.len() as int;
    if whole.is_prefix_of(content) {
        assert(content.subrange(0, whole.len() as int) == whole);
        assert(content.subrange(0, n) =~= written) by {
            assert forall|i: int| 0 <= i < n implies content.subrange(0, n)[i] == written[i] by {
                assert(content.subrange(0, whole.len() as int)[i] == whole[i]);
            }
        }
        assert(content.subrange(n, n + chunk.len()) =~= chunk) by {
            assert forall|i: int| 0 <= i < chunk.len() implies content.subrange(
                n,
                n + chunk.len(),
            )[i] == chunk[i] by {
                assert(content.subrange(0, whole.len() as int)[n + i] == whole[n + i]);
            }
        }
    }
    if written.is_prefix_of(content) && n + chunk.len() <= content.len() && content.subrange(
        n,
        n + chunk.len(),
    ) == chunk {
        assert(content.subrange(0, n) == written);
        assert(content.subrange(0, whole.len() as int) =~= whole) by {
            assert forall|i: int| 0 <= i < whole.len() implies content.subrange(
                0,
                whole.len() as int,
            )[i] == whole[i] by {
                if i < n {
                    assert(content.subrange(0, n)[i] == written[i]);
                } else {
                    assert(content.subrange(n, n + chunk.len())[i - n] == chunk[i - n]);
                }
            }
        }
    }
}

} // verus!
