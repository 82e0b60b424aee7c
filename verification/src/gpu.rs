//! Blobs and figures of the GPU demo that are plain bytes and integers: the
//! mesh blob that points at a vertex buffer, and the frame rate report.

use vstd::prelude::*;
use crate::wire::le_bytes;

verus! {

/// Byte `i` of a mesh blob: kind `0x08` at 0, the vertex count as a
/// little-endian `u32` at 2, the vertex stride as a little-endian `u16` at
/// 10, the hash of the vertex buffer at 32 to 64, zero elsewhere.
pub open spec fn mesh_byte(count: u32, stride: u16, hash: Seq<u8>, i: int) -> u8 {
    if i == 0 {
        0x08u8
    } else if 2 <= i < 6 {
        le_bytes(count as nat, 4)[i - 2]
    } else if 10 <= i < 12 {
        le_bytes(stride as nat, 2)[i - 10]
    } else if 32 <= i < 64 {
        hash[i - 32]
    } else {
        0u8
    }
}

/// The 128-byte mesh blob for a vertex buffer of `count` vertices of
/// `stride` bytes whose content hash is `hash`.
pub open spec fn mesh_blob_spec(count: u32, stride: u16, hash: Seq<u8>) -> Seq<u8> {
    Seq::new(128, |i: int| mesh_byte(count, stride, hash, i))
}

fn push_zeros(v: &mut Vec<u8>, n: usize)
    ensures
        final(v)@ == old(v)@ + Seq::new(n as nat, |i: int| 0u8),
{
    let ghost start = v@;
    let mut k: usize = 0;
    while k < n
        invariant
            0 <= k <= n,
            v@ == start + Seq::new(k as nat, |i: int| 0u8),
        decreases n - k,
    {
        v.push(0u8);
        assert(start + Seq::new((k + 1) as nat, |i: int| 0u8) =~= (start + Seq::new(
            k as nat,
            |i: int| 0u8,
        )).push(0u8));
        k = k + 1;
    }
}

/// Builds the mesh blob for a vertex buffer.
pub fn mesh_blob(vertex_count: u32, stride: u16, vertex_hash: &[u8; 32]) -> (r: Vec<u8>)
    ensures
        r@ == mesh_blob_spec(vertex_count, stride, vertex_hash@),
{
    let mut v: Vec<u8> = Vec::new();
    v.push(0x08u8);
    v.push(0u8);
    let c = vertex_count;
    assert((c as u8) == ((c % 256) as u8)) by (bit_vector);
    assert(((c >> 8) as u8) == (((c / 256) % 256) as u8)) by (bit_vector);
    assert(((c >> 16) as u8) == (((c / 256 / 256) % 256) as u8)) by (bit_vector);
    assert(((c >> 24) as u8) == (((c / 256 / 256 / 256) % 256) as u8)) by (bit_vector);
    v.push(#[verifier::truncate] (c as u8));
    v.push(#[verifier::truncate] ((c >> 8) as u8));
    v.push(#[verifier::truncate] ((c >> 16) as u8));
    v.push(#[verifier::truncate] ((c >> 24) as u8));
    push_zeros(&mut v, 4);
    let s = stride;
    assert((s as u8) == ((s % 256) as u8)) by (bit_vector);
    assert(((s >> 8) as u8) == (((s / 256) % 256) as u8)) by (bit_vector);
    v.push(#[verifier::truncate] (s as u8));
    v.push(#[verifier::truncate] ((s >> 8) as u8));
    push_zeros(&mut v, 20);
    let h = vertex_hash.as_slice();
    let mut k: usize = 0;
    let ghost before_hash = v@;
    while k < 32
        invariant
            h@ == vertex_hash@,
            h@.len() == 32,
            0 <= k <= 32,
            v@ == before_hash + h@.take(k as int),
        decreases 32 - k,
    {
        v.push(h[k]);
        assert(h@.take(k + 1) =~= h@.take(k as int).push(h@[k as int]));
        k = k + 1;
    }
    push_zeros(&mut v, 64);
    proof {
        reveal_with_fuel(le_bytes, 5);
        assert(h@.take(32) =~= h@);
        assert(v@ =~= mesh_blob_spec(vertex_count, stride, vertex_hash@));
    }
    v
}

/// Frames per second over a report interval: `None` when no time passed.
pub fn frame_rate(frames: u32, elapsed_ms: u64) -> (r: Option<u64>)
    ensures
        elapsed_ms == 0 ==> r is None,
        elapsed_ms > 0 ==> r == Some((frames as nat * 1000 / elapsed_ms as nat) as u64),
{
    if elapsed_ms > 0 {
        Some((frames as u64 * 1000) / elapsed_ms)
    } else {
        None
    }
}

} // verus!
