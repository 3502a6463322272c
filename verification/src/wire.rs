//! Big-endian ("network byte order") integer fields and raw byte runs, the
//! primitives every wire frame in this crate is built from.

use vstd::prelude::*;

verus! {

/// The two bytes of `v` in big-endian order.
pub open spec fn u16_be(v: u16) -> Seq<u8> {
    seq![((v / 0x100) % 0x100) as u8, (v % 0x100) as u8]
}

/// The four bytes of `v` in big-endian order.
pub open spec fn u32_be(v: u32) -> Seq<u8> {
    seq![
        ((v / 0x1000000) % 0x100) as u8,
        ((v / 0x10000) % 0x100) as u8,
        ((v / 0x100) % 0x100) as u8,
        (v % 0x100) as u8,
    ]
}

/// The eight bytes of `v` in big-endian order.
pub open spec fn u64_be(v: u64) -> Seq<u8> {
    seq![
        ((v / 0x100000000000000) % 0x100) as u8,
        ((v / 0x1000000000000) % 0x100) as u8,
        ((v / 0x10000000000) % 0x100) as u8,
        ((v / 0x100000000) % 0x100) as u8,
        ((v / 0x1000000) % 0x100) as u8,
        ((v / 0x10000) % 0x100) as u8,
        ((v / 0x100) % 0x100) as u8,
        (v % 0x100) as u8,
    ]
}

/// The `u16` denoted by two bytes in big-endian order.
pub open spec fn u16_of_be(b: Seq<u8>) -> u16
    recommends
        b.len() == 2,
{
    (b[0] * 0x100 + b[1]) as u16
}

/// The `u32` denoted by four bytes in big-endian order.
pub open spec fn u32_of_be(b: Seq<u8>) -> u32
    recommends
        b.len() == 4,
{
    (b[0] * 0x1000000 + b[1] * 0x10000 + b[2] * 0x100 + b[3]) as u32
}

/// The `u64` denoted by eight bytes in big-endian order.
pub open spec fn u64_of_be(b: Seq<u8>) -> u64
    recommends
        b.len() == 8,
{
    (b[0] * 0x100000000000000 + b[1] * 0x1000000000000 + b[2] * 0x10000000000 + b[3] * 0x100000000
        + b[4] * 0x1000000 + b[5] * 0x10000 + b[6] * 0x100 + b[7]) as u64
}

pub proof fn lemma_u16_be_round_trip(v: u16)
    by (bit_vector)
    ensures
        ((v / 0x100) % 0x100) * 0x100 + (v % 0x100) == v,
{
}

pub proof fn lemma_u32_be_round_trip(v: u32)
    by (bit_vector)
    ensures
        ((v / 0x1000000) % 0x100) * 0x1000000 + ((v / 0x10000) % 0x100) * 0x10000 + ((v / 0x100)
            % 0x100) * 0x100 + (v % 0x100) == v,
{
}

pub proof fn lemma_u64_be_round_trip(v: u64)
    by (bit_vector)
    ensures
        ((v / 0x100000000000000) % 0x100) * 0x100000000000000 + ((v / 0x1000000000000) % 0x100)
            * 0x1000000000000 + ((v / 0x10000000000) % 0x100) * 0x10000000000 + ((v / 0x100000000)
            % 0x100) * 0x100000000 + ((v / 0x1000000) % 0x100) * 0x1000000 + ((v / 0x10000) % 0x100)
            * 0x10000 + ((v / 0x100) % 0x100) * 0x100 + (v % 0x100) == v,
{
}

/// Reassembling the value written by `u16_be` yields the value back.
pub proof fn lemma_u16_of_be_of(v: u16)
    ensures
        u16_of_be(u16_be(v)) == v,
{
    lemma_u16_be_round_trip(v);
}

/// Reassembling the value written by `u32_be` yields the value back.
pub proof fn lemma_u32_of_be_of(v: u32)
    ensures
        u32_of_be(u32_be(v)) == v,
{
    lemma_u32_be_round_trip(v);
}

/// Reassembling the value written by `u64_be` yields the value back.
pub proof fn lemma_u64_of_be_of(v: u64)
    ensures
        u64_of_be(u64_be(v)) == v,
{
    lemma_u64_be_round_trip(v);
}

pub proof fn lemma_u16_be_split(b0: u8, b1: u8)
    by (bit_vector)
    ensures
        (b0 * 0x100 + b1) / 0x100 % 0x100 == b0,
        (b0 * 0x100 + b1) % 0x100 == b1,
        b0 * 0x100 + b1 < 0x10000,
{
}

pub proof fn lemma_u32_be_split(b0: u8, b1: u8, b2: u8, b3: u8)
    by (bit_vector)
    ensures
        (b0 * 0x1000000 + b1 * 0x10000 + b2 * 0x100 + b3) / 0x1000000 % 0x100 == b0,
        (b0 * 0x1000000 + b1 * 0x10000 + b2 * 0x100 + b3) / 0x10000 % 0x100 == b1,
        (b0 * 0x1000000 + b1 * 0x10000 + b2 * 0x100 + b3) / 0x100 % 0x100 == b2,
        (b0 * 0x1000000 + b1 * 0x10000 + b2 * 0x100 + b3) % 0x100 == b3,
        b0 * 0x1000000 + b1 * 0x10000 + b2 * 0x100 + b3 < 0x100000000,
{
}

pub proof fn lemma_u64_be_split(b0: u8, b1: u8, b2: u8, b3: u8, b4: u8, b5: u8, b6: u8, b7: u8)
    by (bit_vector)
    ensures
        (b0 * 0x100000000000000 + b1 * 0x1000000000000 + b2 * 0x10000000000 + b3 * 0x100000000 + b4
            * 0x1000000 + b5 * 0x10000 + b6 * 0x100 + b7) / 0x100000000000000 % 0x100 == b0,
        (b0 * 0x100000000000000 + b1 * 0x1000000000000 + b2 * 0x10000000000 + b3 * 0x100000000 + b4
            * 0x1000000 + b5 * 0x10000 + b6 * 0x100 + b7) / 0x1000000000000 % 0x100 == b1,
        (b0 * 0x100000000000000 + b1 * 0x1000000000000 + b2 * 0x10000000000 + b3 * 0x100000000 + b4
            * 0x1000000 + b5 * 0x10000 + b6 * 0x100 + b7) / 0x10000000000 % 0x100 == b2,
        (b0 * 0x100000000000000 + b1 * 0x1000000000000 + b2 * 0x10000000000 + b3 * 0x100000000 + b4
            * 0x1000000 + b5 * 0x10000 + b6 * 0x100 + b7) / 0x100000000 % 0x100 == b3,
        (b0 * 0x100000000000000 + b1 * 0x1000000000000 + b2 * 0x10000000000 + b3 * 0x100000000 + b4
            * 0x1000000 + b5 * 0x10000 + b6 * 0x100 + b7) / 0x1000000 % 0x100 == b4,
        (b0 * 0x100000000000000 + b1 * 0x1000000000000 + b2 * 0x10000000000 + b3 * 0x100000000 + b4
            * 0x1000000 + b5 * 0x10000 + b6 * 0x100 + b7) / 0x10000 % 0x100 == b5,
        (b0 * 0x100000000000000 + b1 * 0x1000000000000 + b2 * 0x10000000000 + b3 * 0x100000000 + b4
            * 0x1000000 + b5 * 0x10000 + b6 * 0x100 + b7) / 0x100 % 0x100 == b6,
        (b0 * 0x100000000000000 + b1 * 0x1000000000000 + b2 * 0x10000000000 + b3 * 0x100000000 + b4
            * 0x1000000 + b5 * 0x10000 + b6 * 0x100 + b7) % 0x100 == b7,
{
}

/// Writing the bytes read by `u64_of_be` yields the bytes back.
pub proof fn lemma_u64_be_of_be(b: Seq<u8>)
    requires
        b.len() == 8,
    ensures
        u64_be(u64_of_be(b)) == b,
{
    lemma_u64_be_split(b[0], b[1], b[2], b[3], b[4], b[5], b[6], b[7]);
    assert(u64_be(u64_of_be(b)) =~= b);
}

/// Writing the bytes read by `u32_of_be` yields the bytes back.
pub proof fn lemma_u32_be_of_be(b: Seq<u8>)
    requires
        b.len() == 4,
    ensures
        u32_be(u32_of_be(b)) == b,
{
    lemma_u32_be_split(b[0], b[1], b[2], b[3]);
    assert(u32_be(u32_of_be(b)) =~= b);
}

/// Writing the bytes read by `u16_of_be` yields the bytes back.
pub proof fn lemma_u16_be_of_be(b: Seq<u8>)
    requires
        b.len() == 2,
    ensures
        u16_be(u16_of_be(b)) == b,
{
    lemma_u16_be_split(b[0], b[1]);
    assert(u16_be(u16_of_be(b)) =~= b);
}

/// Appends the big-endian bytes of `v` to `out`.
pub fn write_u16_be(out: &mut Vec<u8>, v: u16)
    ensures
        final(out)@ == old(out)@ + u16_be(v),
{
    out.push(((v / 0x100) % 0x100) as u8);
    out.push((v % 0x100) as u8);
    proof {
        assert(out@ =~= old(out)@ + u16_be(v));
    }
}

/// Appends the big-endian bytes of `v` to `out`.
pub fn write_u32_be(out: &mut Vec<u8>, v: u32)
    ensures
        final(out)@ == old(out)@ + u32_be(v),
{
    out.push(((v / 0x1000000) % 0x100) as u8);
    out.push(((v / 0x10000) % 0x100) as u8);
    out.push(((v / 0x100) % 0x100) as u8);
    out.push((v % 0x100) as u8);
    proof {
        assert(out@ =~= old(out)@ + u32_be(v));
    }
}

/// Appends the big-endian bytes of `v` to `out`.
pub fn write_u64_be(out: &mut Vec<u8>, v: u64)
    ensures
        final(out)@ == old(out)@ + u64_be(v),
{
    out.push(((v / 0x100000000000000) % 0x100) as u8);
    out.push(((v / 0x1000000000000) % 0x100) as u8);
    out.push(((v / 0x10000000000) % 0x100) as u8);
    out.push(((v / 0x100000000) % 0x100) as u8);
    out.push(((v / 0x1000000) % 0x100) as u8);
    out.push(((v / 0x10000) % 0x100) as u8);
    out.push(((v / 0x100) % 0x100) as u8);
    out.push((v % 0x100) as u8);
    proof {
        assert(out@ =~= old(out)@ + u64_be(v));
    }
}

/// Reads a big-endian `u16` from `bytes` at `pos`.
pub fn read_u16_be(bytes: &Vec<u8>, pos: usize) -> (r: u16)
    requires
        pos + 2 <= bytes@.len(),
    ensures
        r == u16_of_be(bytes@.subrange(pos as int, pos + 2)),
{
    let n: usize = bytes.len();
    assert(pos + 2 <= n);
    let b0: u16 = bytes[pos] as u16;
    let b1: u16 = bytes[pos + 1] as u16;
    let r: u16 = b0 * 0x100 + b1;
    proof {
        let s = bytes@.subrange(pos as int, pos + 2);
        assert(s[0] == bytes@[pos as int] && s[1] == bytes@[pos + 1]);
    }
    r
}

/// Reads a big-endian `u32` from `bytes` at `pos`.
pub fn read_u32_be(bytes: &Vec<u8>, pos: usize) -> (r: u32)
    requires
        pos + 4 <= bytes@.len(),
    ensures
        r == u32_of_be(bytes@.subrange(pos as int, pos + 4)),
{
    let n: usize = bytes.len();
    assert(pos + 4 <= n);
    let b0: u32 = bytes[pos] as u32;
    let b1: u32 = bytes[pos + 1] as u32;
    let b2: u32 = bytes[pos + 2] as u32;
    let b3: u32 = bytes[pos + 3] as u32;
    let r: u32 = b0 * 0x1000000 + b1 * 0x10000 + b2 * 0x100 + b3;
    proof {
        let s = bytes@.subrange(pos as int, pos + 4);
        assert(s[0] == bytes@[pos as int] && s[1] == bytes@[pos + 1] && s[2] == bytes@[pos + 2]
            && s[3] == bytes@[pos + 3]);
    }
    r
}

/// Reads a big-endian `u64` from `bytes` at `pos`.
pub fn read_u64_be(bytes: &Vec<u8>, pos: usize) -> (r: u64)
    requires
        pos + 8 <= bytes@.len(),
    ensures
        r == u64_of_be(bytes@.subrange(pos as int, pos + 8)),
{
    let n: usize = bytes.len();
    assert(pos + 8 <= n);
    let b0: u64 = bytes[pos] as u64;
    let b1: u64 = bytes[pos + 1] as u64;
    let b2: u64 = bytes[pos + 2] as u64;
    let b3: u64 = bytes[pos + 3] as u64;
    let b4: u64 = bytes[pos + 4] as u64;
    let b5: u64 = bytes[pos + 5] as u64;
    let b6: u64 = bytes[pos + 6] as u64;
    let b7: u64 = bytes[pos + 7] as u64;
    let r: u64 = b0 * 0x100000000000000 + b1 * 0x1000000000000 + b2 * 0x10000000000 + b3
        * 0x100000000 + b4 * 0x1000000 + b5 * 0x10000 + b6 * 0x100 + b7;
    proof {
        let s = bytes@.subrange(pos as int, pos + 8);
        assert(s[0] == bytes@[pos as int] && s[1] == bytes@[pos + 1] && s[2] == bytes@[pos + 2]
            && s[3] == bytes@[pos + 3] && s[4] == bytes@[pos + 4] && s[5] == bytes@[pos + 5] && s[6]
            == bytes@[pos + 6] && s[7] == bytes@[pos + 7]);
    }
    r
}

/// Appends all of `data` to `out`.
pub fn write_all(out: &mut Vec<u8>, data: &Vec<u8>)
    ensures
        final(out)@ == old(out)@ + data@,
{
    let mut i: usize = 0;
    while i < data.len()
        invariant
            i <= data@.len(),
            out@ == old(out)@ + data@.subrange(0, i as int),
        decreases data@.len() - i,
    {
        out.push(data[i]);
        i = i + 1;
        proof {
            assert(out@ =~= old(out)@ + data@.subrange(0, i as int));
        }
    }
    proof {
        assert(data@.subrange(0, data@.len() as int) =~= data@);
    }
}

/// Copies `n` bytes of `bytes` starting at `pos` into a fresh vector.
pub fn read_exact(bytes: &Vec<u8>, pos: usize, n: usize) -> (r: Vec<u8>)
    requires
        pos + n <= bytes@.len(),
    ensures
        r@ == bytes@.subrange(pos as int, pos + n),
{
    let total: usize = bytes.len();
    assert(pos + n <= total);
    let mut r: Vec<u8> = Vec::new();
    let mut i: usize = 0;
    while i < n
        invariant
            i <= n,
            pos + n <= total,
            total == bytes@.len(),
            r@ == bytes@.subrange(pos as int, pos + i),
        decreases n - i,
    {
        r.push(bytes[pos + i]);
        i = i + 1;
        proof {
            assert(r@ =~= bytes@.subrange(pos as int, pos + i));
        }
    }
    r
}

/// A fresh vector with the same contents as `v`.
pub fn copy_bytes(v: &Vec<u8>) -> (r: Vec<u8>)
    ensures
        r@ == v@,
{
    let mut r: Vec<u8> = Vec::new();
    let mut i: usize = 0;
    while i < v.len()
        invariant
            i <= v@.len(),
            r@ == v@.subrange(0, i as int),
        decreases v@.len() - i,
    {
        r.push(v[i]);
        i = i + 1;
        proof {
            assert(r@ =~= v@.subrange(0, i as int));
        }
    }
    proof {
        assert(v@.subrange(0, v@.len() as int) =~= v@);
    }
    r
}

/// Whether two byte vectors hold the same bytes.
pub fn bytes_eq(a: &Vec<u8>, b: &Vec<u8>) -> (r: bool)
    ensures
        r == (a@ == b@),
{
    if a.len() != b.len() {
        return false;
    }
    let mut i: usize = 0;
    while i < a.len()
        invariant
            i <= a@.len(),
            a@.len() == b@.len(),
            forall|j: int| 0 <= j < i ==> a@[j] == b@[j],
        decreases a@.len() - i,
    {
        if a[i] != b[i] {
            return false;
        }
        i = i + 1;
    }
    proof {
        assert(a@ =~= b@);
    }
    true
}

} // verus!
