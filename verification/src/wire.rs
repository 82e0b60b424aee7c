//! Little-endian integers in byte buffers: the monitor's reports and the
//! fields of configuration blobs.

use vstd::prelude::*;

verus! {

/// The message type of a successful reply from a service.
pub const REPLY_OK: u16 = 100;

/// The unsigned value of `bs` read least significant byte first.
pub open spec fn le_value(bs: Seq<u8>) -> nat
    decreases bs.len(),
{
    if bs.len() == 0 {
        0
    } else {
        bs[0] as nat + 256 * le_value(bs.drop_first())
    }
}

/// The `n` low bytes of `v`, least significant first.
pub open spec fn le_bytes(v: nat, n: nat) -> Seq<u8>
    decreases n,
{
    if n == 0 {
        Seq::<u8>::empty()
    } else {
        seq![(v % 256) as u8] + le_bytes(v / 256, (n - 1) as nat)
    }
}

/// `256` to the power `n`: one more than the largest value of `n` bytes.
pub open spec fn pow256(n: nat) -> nat
    decreases n,
{
    if n == 0 {
        1
    } else {
        256 * pow256((n - 1) as nat)
    }
}

/// Reads a little-endian `u16` from the first two bytes of `b`.
pub fn u16_le(b: &[u8]) -> (r: u16)
    requires
        b@.len() >= 2,
    ensures
        r as nat == le_value(b@.take(2)),
{
    let b0 = b[0];
    let b1 = b[1];
    let r = (b0 as u16) | ((b1 as u16) << 8);
    assert((b0 as u16) | ((b1 as u16) << 8) == b0 as u16 + 256 * (b1 as u16)) by (bit_vector);
    proof {
        reveal_with_fuel(le_value, 3);
        let t = b@.take(2);
        assert(t.drop_first().drop_first() =~= Seq::<u8>::empty());
    }
    r
}

/// Reads a little-endian `u32` from the first four bytes of `b`.
pub fn u32_le(b: &[u8]) -> (r: u32)
    requires
        b@.len() >= 4,
    ensures
        r as nat == le_value(b@.take(4)),
{
    let b0 = b[0];
    let b1 = b[1];
    let b2 = b[2];
    let b3 = b[3];
    let r = (b0 as u32) | ((b1 as u32) << 8) | ((b2 as u32) << 16) | ((b3 as u32) << 24);
    assert((b0 as u32) | ((b1 as u32) << 8) | ((b2 as u32) << 16) | ((b3 as u32) << 24)
        == b0 as u32 + 256 * (b1 as u32 + 256 * (b2 as u32 + 256 * (b3 as u32)))) by (bit_vector);
    proof {
        reveal_with_fuel(le_value, 5);
        let t = b@.take(4);
        assert(t.drop_first().drop_first().drop_first().drop_first() =~= Seq::<u8>::empty());
    }
    r
}

/// Reads a little-endian `u64` from the first eight bytes of `b`.
pub fn u64_le(b: &[u8]) -> (r: u64)
    requires
        b@.len() >= 8,
    ensures
        r as nat == le_value(b@.take(8)),
{
    let b0 = b[0];
    let b1 = b[1];
    let b2 = b[2];
    let b3 = b[3];
    let b4 = b[4];
    let b5 = b[5];
    let b6 = b[6];
    let b7 = b[7];
    let r = (b0 as u64) | ((b1 as u64) << 8) | ((b2 as u64) << 16) | ((b3 as u64) << 24) | ((
    b4 as u64) << 32) | ((b5 as u64) << 40) | ((b6 as u64) << 48) | ((b7 as u64) << 56);
    assert((b0 as u64) | ((b1 as u64) << 8) | ((b2 as u64) << 16) | ((b3 as u64) << 24) | ((
    b4 as u64) << 32) | ((b5 as u64) << 40) | ((b6 as u64) << 48) | ((b7 as u64) << 56) == b0 as u64
        + 256 * (b1 as u64 + 256 * (b2 as u64 + 256 * (b3 as u64 + 256 * (b4 as u64 + 256 * (
    b5 as u64 + 256 * (b6 as u64 + 256 * (b7 as u64)))))))) by (bit_vector);
    proof {
        reveal_with_fuel(le_value, 9);
        let t = b@.take(8);
        assert(t.drop_first().drop_first().drop_first().drop_first().drop_first().drop_first().drop_first().drop_first()
            =~= Seq::<u8>::empty());
    }
    r
}

/// Whether a field of `size` bytes at `offset` is one that configuration
/// blobs hold: one, two or four bytes, inside a blob of `len` bytes.
pub open spec fn field_fits(len: nat, offset: nat, size: nat) -> bool {
    (size == 1 || size == 2 || size == 4) && offset + size <= len
}

/// The value `read_field` gives: the little-endian field, or zero where the
/// field does not fit.
pub open spec fn field_value(data: Seq<u8>, offset: nat, size: nat) -> nat {
    if field_fits(data.len(), offset, size) {
        le_value(data.subrange(offset as int, (offset + size) as int))
    } else {
        0
    }
}

/// The blob `write_field` leaves: the field replaced by the low bytes of
/// `value` where it fits, the blob unchanged otherwise.
pub open spec fn field_written(data: Seq<u8>, offset: nat, size: nat, value: nat) -> Seq<u8> {
    if field_fits(data.len(), offset, size) {
        data.subrange(0, offset as int) + le_bytes(value, size) + data.subrange(
            (offset + size) as int,
            data.len() as int,
        )
    } else {
        data
    }
}

/// Reads the little-endian field of `size` bytes at `offset`; zero if the
/// size is not one, two or four, or the field runs past the blob.
pub fn read_field(data: &[u8], offset: u8, size: u8) -> (r: u32)
    ensures
        r as nat == field_value(data@, offset as nat, size as nat),
{
    let off = offset as usize;
    let n = data.len();
    if size == 1 {
        if off < n {
            let v = data[off];
            proof {
                reveal_with_fuel(le_value, 2);
                assert(data@.subrange(off as int, off + 1).drop_first() =~= Seq::<u8>::empty());
            }
            v as u32
        } else {
            0
        }
    } else if size == 2 {
        if off + 2 <= n {
            let s = vstd::slice::slice_subrange(data, off, off + 2);
            assert(s@.take(2) =~= s@);
            u16_le(s) as u32
        } else {
            0
        }
    } else if size == 4 {
        if off + 4 <= n {
            let s = vstd::slice::slice_subrange(data, off, off + 4);
            assert(s@.take(4) =~= s@);
            u32_le(s)
        } else {
            0
        }
    } else {
        0
    }
}

/// Writes the low `size` bytes of `value`, least significant first, at
/// `offset`; nothing is written if the size is not one, two or four, or the
/// field runs past the blob.
pub fn write_field(data: &mut [u8], offset: u8, size: u8, value: u32)
    ensures
        final(data)@ == field_written(old(data)@, offset as nat, size as nat, value as nat),
{
    let off = offset as usize;
    let n = data.len();
    let ghost d0 = data@;
    if size == 1 {
        if off < n {
            let b0 = #[verifier::truncate] (value as u8);
            assert((value as u8) == ((value % 256) as u8)) by (bit_vector);
            data[off] = b0;
            proof {
                reveal_with_fuel(le_bytes, 2);
                assert(data@ =~= d0.subrange(0, off as int) + le_bytes(value as nat, 1) + d0.subrange(
                    off + 1,
                    n as int,
                ));
            }
        }
    } else if size == 2 {
        if off + 2 <= n {
            let b0 = #[verifier::truncate] (value as u8);
            let b1 = #[verifier::truncate] ((value >> 8) as u8);
            assert((value as u8) == ((value % 256) as u8)) by (bit_vector);
            assert(((value >> 8) as u8) == (((value / 256) % 256) as u8)) by (bit_vector);
            data[off] = b0;
            data[off + 1] = b1;
            proof {
                reveal_with_fuel(le_bytes, 3);
                assert(data@ =~= d0.subrange(0, off as int) + le_bytes(value as nat, 2) + d0.subrange(
                    off + 2,
                    n as int,
                ));
            }
        }
    } else if size == 4 {
        if off + 4 <= n {
            let b0 = #[verifier::truncate] (value as u8);
            let b1 = #[verifier::truncate] ((value >> 8) as u8);
            let b2 = #[verifier::truncate] ((value >> 16) as u8);
            let b3 = #[verifier::truncate] ((value >> 24) as u8);
            assert((value as u8) == ((value % 256) as u8)) by (bit_vector);
            assert(((value >> 8) as u8) == (((value / 256) % 256) as u8)) by (bit_vector);
            assert(((value >> 16) as u8) == (((value / 256 / 256) % 256) as u8)) by (bit_vector);
            assert(((value >> 24) as u8) == (((value / 256 / 256 / 256) % 256) as u8)) by (bit_vector);
            data[off] = b0;
            data[off + 1] = b1;
            data[off + 2] = b2;
            data[off + 3] = b3;
            proof {
                reveal_with_fuel(le_bytes, 5);
                assert(data@ =~= d0.subrange(0, off as int) + le_bytes(value as nat, 4) + d0.subrange(
                    off + 4,
                    n as int,
                ));
            }
        }
    }
}


proof fn lemma_pow256_positive(n: nat)
    ensures
        pow256(n) > 0,
    decreases n,
{
    if n > 0 {
        lemma_pow256_positive((n - 1) as nat);
    }
}

/// A little-endian value of `n` bytes is below `256^n`; in particular two,
/// four and eight bytes fit a `u16`, a `u32` and a `u64`.
pub proof fn lemma_le_value_bound(bs: Seq<u8>)
    ensures
        le_value(bs) < pow256(bs.len()),
        pow256(2) == 0x1_0000,
        pow256(4) == 0x1_0000_0000,
        pow256(8) == 0x1_0000_0000_0000_0000,
    decreases bs.len(),
{
    reveal_with_fuel(pow256, 9);
    if bs.len() > 0 {
        lemma_le_value_bound(bs.drop_first());
        let p = pow256((bs.len() - 1) as nat);
        let v = le_value(bs.drop_first());
        assert(256 * v + 256 <= 256 * p) by (nonlinear_arith)
            requires
                v < p,
        ;
    }
}

/// `le_bytes` gives exactly the number of bytes asked for.
pub proof fn lemma_le_bytes_len(v: nat, n: nat)
    ensures
        le_bytes(v, n).len() == n,
    decreases n,
{
    if n > 0 {
        lemma_le_bytes_len(v / 256, (n - 1) as nat);
    }
}

/// Reading back the `n` low bytes of `v` gives `v` modulo `256^n`.
pub proof fn lemma_le_roundtrip(v: nat, n: nat)
    ensures
        le_value(le_bytes(v, n)) == v % pow256(n),
    decreases n,
{
    if n > 0 {
        let m = (n - 1) as nat;
        lemma_le_roundtrip(v / 256, m);
        lemma_pow256_positive(m);
        let bs = le_bytes(v, n);
        let rest = le_bytes(v / 256, m);
        assert(bs[0] == (v % 256) as u8);
        assert(bs.drop_first() =~= rest);
        vstd::arithmetic::div_mod::lemma_mod_breakdown(v as int, 256, pow256(m) as int);
    }
}

/// Law: a field that `write_field` wrote reads back, through `read_field`,
/// as the written value cut to the field's width; where the field does not
/// fit, the blob is left as it was.
pub proof fn law_read_after_write(data: Seq<u8>, offset: nat, size: nat, value: nat)
    ensures
        field_fits(data.len(), offset, size) ==> field_value(
            field_written(data, offset, size, value),
            offset,
            size,
        ) == value % pow256(size),
        !field_fits(data.len(), offset, size) ==> field_written(data, offset, size, value)
            == data,
{
    if field_fits(data.len(), offset, size) {
        lemma_le_bytes_len(value, size);
        lemma_le_roundtrip(value, size);
        let w = field_written(data, offset, size, value);
        assert(w.len() == data.len());
        assert(w.subrange(offset as int, (offset + size) as int) =~= le_bytes(value, size));
    }
}

/// Law: `write_field` leaves every byte outside the field as it was, and
/// never changes the blob's length.
pub proof fn law_write_keeps_other_bytes(data: Seq<u8>, offset: nat, size: nat, value: nat, i: int)
    requires
        0 <= i < data.len(),
        i < offset || offset + size <= i,
    ensures
        field_written(data, offset, size, value).len() == data.len(),
        field_written(data, offset, size, value)[i] == data[i],
{
    lemma_le_bytes_len(value, size);
    if field_fits(data.len(), offset, size) {
        let w = field_written(data, offset, size, value);
        if i < offset {
            assert(w[i] == data.subrange(0, offset as int)[i]);
        } else {
            assert(w[i] == data.subrange((offset + size) as int, data.len() as int)[i - offset - size]);
        }
    }
}


/// Law: a little-endian number read in two pieces is the low piece plus the
/// high piece shifted past it; so a `u32` read is two `u16` reads, and a
/// `u64` read two `u32` reads.
pub proof fn law_le_concat(lo: Seq<u8>, hi: Seq<u8>)
    ensures
        le_value(lo + hi) == le_value(lo) + pow256(lo.len()) * le_value(hi),
    decreases lo.len(),
{
    let x = pow256(lo.len());
    let y = le_value(hi);
    assert(x * y >= 0) by (nonlinear_arith);
    if lo.len() > 0 {
        law_le_concat(lo.drop_first(), hi);
        assert((lo + hi).drop_first() =~= lo.drop_first() + hi);
        assert((lo + hi)[0] == lo[0]);
        let p = pow256((lo.len() - 1) as nat);
        let a = le_value(lo.drop_first());
        let h = le_value(hi);
        assert(pow256(lo.len()) == 256 * p);
        assert(le_value(lo + hi) == lo[0] as nat + 256 * (a + p * h));
        assert(le_value(lo) == lo[0] as nat + 256 * a);
        assert(256 * (a + p * h) == 256 * a + (256 * p) * h) by (nonlinear_arith);
        assert(le_value(lo + hi) == le_value(lo) + pow256(lo.len()) * le_value(hi));
    } else {
        assert(lo + hi =~= hi);
        assert(le_value(lo) == 0);
        assert(pow256(lo.len()) == 1);
        assert(x * y == y) by (nonlinear_arith)
            requires
                x == 1,
        ;
    }
}

/// The little-endian value of `n` bytes of `buf` at `off`.
pub open spec fn le_at(buf: Seq<u8>, off: int, n: int) -> nat {
    le_value(buf.subrange(off, off + n))
}

/// How many records of `width` bytes, up to `wanted`, fit between `base`
/// and `len`.
pub open spec fn records_that_fit(len: int, base: int, width: int, wanted: int) -> int {
    if base > len {
        0
    } else if (len - base) / width < wanted {
        (len - base) / width
    } else {
        wanted
    }
}

pub(crate) fn le_u16_at(buf: &[u8], off: usize) -> (r: u16)
    requires
        off + 2 <= buf@.len(),
    ensures
        r as nat == le_at(buf@, off as int, 2),
{
    let _n = buf.len();
    let s = vstd::slice::slice_subrange(buf, off, off + 2);
    assert(s@.take(2) =~= s@);
    u16_le(s)
}

pub(crate) fn le_u32_at(buf: &[u8], off: usize) -> (r: u32)
    requires
        off + 4 <= buf@.len(),
    ensures
        r as nat == le_at(buf@, off as int, 4),
{
    let _n = buf.len();
    let s = vstd::slice::slice_subrange(buf, off, off + 4);
    assert(s@.take(4) =~= s@);
    u32_le(s)
}

pub(crate) fn le_u64_at(buf: &[u8], off: usize) -> (r: u64)
    requires
        off + 8 <= buf@.len(),
    ensures
        r as nat == le_at(buf@, off as int, 8),
{
    let _n = buf.len();
    let s = vstd::slice::slice_subrange(buf, off, off + 8);
    assert(s@.take(8) =~= s@);
    u64_le(s)
}

/// Law: the records a reply is read into lie inside it, and there are no
/// more of them than the reply announces.
pub proof fn law_records_inside(len: int, base: int, width: int, wanted: int)
    requires
        0 <= base,
        0 < width,
        0 <= wanted,
    ensures
        0 <= records_that_fit(len, base, width, wanted) <= wanted,
        records_that_fit(len, base, width, wanted) > 0 ==> base + width * records_that_fit(
            len,
            base,
            width,
            wanted,
        ) <= len,
{
    let n = records_that_fit(len, base, width, wanted);
    if base <= len {
        vstd::arithmetic::div_mod::lemma_fundamental_div_mod(len - base, width);
        vstd::arithmetic::div_mod::lemma_div_pos_is_pos(len - base, width);
        assert(width * n <= width * ((len - base) / width)) by (nonlinear_arith)
            requires
                n <= (len - base) / width,
                0 < width,
        ;
        assert((len - base) % width >= 0) by {
            vstd::arithmetic::div_mod::lemma_mod_pos_bound(len - base, width);
        }
    }
}

} // verus!
