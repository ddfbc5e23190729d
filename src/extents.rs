//! The extent digest: a digest of the physical extent layout of a file, so
//! that files sharing storage have equal extent digests.
use crate::hash::Hash256;
use vstd::prelude::*;

verus! {

/// One entry of a file's extent map.
#[derive(Clone, Copy, Debug, PartialEq, Eq, Structural)]
pub struct FileExtent {
    pub logical: u64,
    pub physical: u64,
    pub length: u64,
}

/// The SHA-256 digest of a byte string.
pub uninterp spec fn sha256_of(data: Seq<u8>) -> Seq<u8>;

/// Relies on sha2's `Sha256::digest`: a 32-byte digest that depends on the
/// bytes alone.
#[verifier::external_body]
fn sha256_digest(data: &[u8]) -> (r: Hash256)
    ensures
        r@ == sha256_of(data@),
{
    let out = <sha2::Sha256 as sha2::Digest>::digest(data);
    out.into()
}

/// The `n` low-order bytes of `x`, least significant first.
pub open spec fn le_bytes(x: nat, n: nat) -> Seq<u8>
    decreases n,
{
    if n == 0 {
        seq![]
    } else {
        seq![(x % 256) as u8] + le_bytes(x / 256, (n - 1) as nat)
    }
}

/// The layout of one extent entry: its three fields, eight bytes each,
/// least significant byte first.
pub open spec fn extent_entry_bytes(e: FileExtent) -> Seq<u8> {
    le_bytes(e.logical as nat, 8) + le_bytes(e.physical as nat, 8) + le_bytes(e.length as nat, 8)
}

/// The entries with a physical location, laid out one after another.
pub open spec fn extent_stream(es: Seq<FileExtent>) -> Seq<u8>
    decreases es.len(),
{
    if es.len() == 0 {
        seq![]
    } else {
        extent_stream(es.drop_last()) + (if es.last().physical != 0 {
            extent_entry_bytes(es.last())
        } else {
            seq![]
        })
    }
}

pub open spec fn has_physical(es: Seq<FileExtent>) -> bool {
    exists|i: int| 0 <= i < es.len() && #[trigger] es[i].physical != 0
}

fn push_le(out: &mut Vec<u8>, x: u64, n: u64)
    ensures
        final(out)@ == old(out)@ + le_bytes(x as nat, n as nat),
    decreases n,
{
    if n > 0 {
        out.push((x % 256) as u8);
        push_le(out, x / 256, n - 1);
        assert(final(out)@ =~= old(out)@ + le_bytes(x as nat, n as nat));
    } else {
        assert(final(out)@ =~= old(out)@ + le_bytes(x as nat, n as nat));
    }
}

/// The bytes that the extent digest covers: each entry with a physical
/// location (unallocated entries carry no identity), in order.
pub fn extent_bytes(extents: &[FileExtent]) -> (r: Vec<u8>)
    ensures
        r@ == extent_stream(extents@),
{
    let mut out: Vec<u8> = Vec::new();
    let mut i: usize = 0;
    while i < extents.len()
        invariant
            0 <= i <= extents@.len(),
            out@ == extent_stream(extents@.subrange(0, i as int)),
        decreases extents@.len() - i,
    {
        let e = extents[i];
        assert(extents@.subrange(0, i + 1).drop_last() =~= extents@.subrange(0, i as int));
        if e.physical != 0 {
            push_le(&mut out, e.logical, 8);
            push_le(&mut out, e.physical, 8);
            push_le(&mut out, e.length, 8);
            assert(out@ =~= extent_stream(extents@.subrange(0, i + 1)));
        } else {
            assert(out@ =~= extent_stream(extents@.subrange(0, i + 1)));
        }
        i = i + 1;
    }
    assert(extents@.subrange(0, extents@.len() as int) =~= extents@);
    out
}

/// The extent digest of a file: `None` when no entry has a physical
/// location, else the digest of `extent_bytes`.
pub fn calculate_extent_hash(extents: &[FileExtent]) -> (r: Option<Hash256>)
    ensures
        r is None <==> !has_physical(extents@),
        r matches Some(h) ==> h@ == sha256_of(extent_stream(extents@)),
{
    let mut any = false;
    let mut i: usize = 0;
    while i < extents.len()
        invariant
            0 <= i <= extents@.len(),
            any <==> exists|k: int| 0 <= k < i && #[trigger] extents@[k].physical != 0,
        decreases extents@.len() - i,
    {
        if extents[i].physical != 0 {
            any = true;
        }
        i = i + 1;
    }
    if any {
        let bytes = extent_bytes(extents);
        Some(sha256_digest(bytes.as_slice()))
    } else {
        None
    }
}

} // verus!
