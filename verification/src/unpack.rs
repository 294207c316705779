//! Fixed-layout binary record decoding.
//!
//! A record is an ordered list of fixed-width unsigned-integer fields with
//! no padding; its size is the sum of the field widths. One loop,
//! [`read_uint`], decodes any such field under either byte order, and
//! [`push_uint`] is its encoding counterpart. Record types declare their
//! fields once, as a size constant plus one `read_uint` call per field.

use vstd::prelude::*;
use vstd::arithmetic::div_mod::{lemma_div_denominator, lemma_fundamental_div_mod};
use vstd::slice::{slice_index_get, slice_subrange};

verus! {

/// 256 raised to `n`: the number of values `n` bytes can hold.
pub open spec fn pow256(n: nat) -> int
    decreases n,
{
    if n == 0 {
        1
    } else {
        256 * pow256((n - 1) as nat)
    }
}

proof fn lemma_pow256_pos(n: nat)
    ensures
        0 < pow256(n),
    decreases n,
{
    if n > 0 {
        lemma_pow256_pos((n - 1) as nat);
    }
}

proof fn lemma_pow256_increases(a: nat, b: nat)
    requires
        a <= b,
    ensures
        0 < pow256(a) <= pow256(b),
    decreases b,
{
    lemma_pow256_pos(a);
    if a < b {
        lemma_pow256_increases(a, (b - 1) as nat);
    }
}

/// The value of `bytes` read as an unsigned little-endian integer: the byte
/// at index 0 is least significant.
pub open spec fn le_value(bytes: Seq<u8>) -> int
    decreases bytes.len(),
{
    if bytes.len() == 0 {
        0
    } else {
        bytes[0] + 256 * le_value(bytes.subrange(1, bytes.len() as int))
    }
}

/// The value of `bytes` read as an unsigned big-endian integer: the byte
/// at index 0 is most significant.
pub open spec fn be_value(bytes: Seq<u8>) -> int
    decreases bytes.len(),
{
    if bytes.len() == 0 {
        0
    } else {
        bytes.last() + 256 * be_value(bytes.drop_last())
    }
}

/// The value of one field's bytes under the chosen byte order.
pub open spec fn field_value(bytes: Seq<u8>, le: bool) -> int {
    if le {
        le_value(bytes)
    } else {
        be_value(bytes)
    }
}

/// How decoding a record can fail.
#[derive(Clone, Copy, PartialEq, Eq, Structural, Debug)]
pub enum DecodeError {
    /// The input holds fewer bytes than the record's size.
    TooShort,
}

/// Read the `width` bytes of `data` that start at `off` as one unsigned
/// integer with the given byte order. This single loop is the whole decode
/// mechanism: every field of every record goes through it.
pub fn read_uint(data: &[u8], off: usize, width: usize, le: bool) -> (r: u64)
    requires
        width <= 8,
        off + width <= data@.len(),
    ensures
        r == field_value(data@.subrange(off as int, off + width), le),
{
    let n = data.len();
    let mut r: u64 = 0;
    let mut i: usize = 0;
    while i < width
        invariant
            width <= 8,
            i <= width,
            n == data@.len(),
            off + width <= n,
            r < pow256(i as nat),
            le ==> r == le_value(data@.subrange(off + width - i, off + width)),
            !le ==> r == be_value(data@.subrange(off as int, off + i)),
        decreases width - i,
    {
        let b: u8 = if le {
            *slice_index_get(data, off + width - 1 - i)
        } else {
            *slice_index_get(data, off + i)
        };
        proof {
            lemma_pow256_increases(i as nat, 7);
            assert(pow256(7) == 0x100000000000000) by {
                reveal_with_fuel(pow256, 8);
            }
            assert(pow256((i + 1) as nat) == 256 * pow256(i as nat));
            if le {
                let w2 = data@.subrange(off + width - i - 1, off + width);
                assert(w2.subrange(1, w2.len() as int) =~= data@.subrange(
                    off + width - i,
                    off + width,
                ));
                assert(le_value(w2) == b + 256 * r);
            } else {
                let w2 = data@.subrange(off as int, off + i + 1);
                assert(w2.drop_last() =~= data@.subrange(off as int, off + i));
                assert(be_value(w2) == b + 256 * r);
            }
        }
        r = r * 256 + (b as u64);
        i = i + 1;
    }
    r
}

/// The little-endian encoding of `v` in `width` bytes: least significant
/// byte first.
pub open spec fn le_bytes_of(v: int, width: nat) -> Seq<u8>
    decreases width,
{
    if width == 0 {
        Seq::empty()
    } else {
        seq![(v % 256) as u8] + le_bytes_of(v / 256, (width - 1) as nat)
    }
}

/// The big-endian encoding of `v` in `width` bytes: least significant
/// byte last.
pub open spec fn be_bytes_of(v: int, width: nat) -> Seq<u8>
    decreases width,
{
    if width == 0 {
        Seq::empty()
    } else {
        be_bytes_of(v / 256, (width - 1) as nat).push((v % 256) as u8)
    }
}

/// The encoding of one field's value under the chosen byte order.
pub open spec fn field_bytes(v: int, width: nat, le: bool) -> Seq<u8> {
    if le {
        le_bytes_of(v, width)
    } else {
        be_bytes_of(v, width)
    }
}

pub proof fn lemma_field_bytes_len(v: int, width: nat, le: bool)
    ensures
        field_bytes(v, width, le).len() == width,
    decreases width,
{
    if width > 0 {
        lemma_field_bytes_len(v / 256, (width - 1) as nat, le);
    }
}

proof fn lemma_le_bytes_of_snoc(v: int, i: nat)
    requires
        0 <= v,
    ensures
        le_bytes_of(v, i + 1) =~= le_bytes_of(v, i).push((((v / pow256(i)) % 256) as u8)),
    decreases i,
{
    lemma_field_bytes_len(v, i, true);
    if i == 0 {
        vstd::arithmetic::div_mod::lemma_div_basics(v);
        assert(le_bytes_of(v / 256, 0) =~= Seq::<u8>::empty());
        assert(le_bytes_of(v, 0) =~= Seq::<u8>::empty());
        assert(le_bytes_of(v, 1) =~= le_bytes_of(v, 0).push(((v / pow256(0)) % 256) as u8));
    } else {
        lemma_le_bytes_of_snoc(v / 256, (i - 1) as nat);
        lemma_pow256_pos((i - 1) as nat);
        lemma_div_denominator(v, 256, pow256((i - 1) as nat));
        assert(pow256(i) == 256 * pow256((i - 1) as nat));
        assert((v / 256) / pow256((i - 1) as nat) == v / pow256(i));
        lemma_field_bytes_len(v / 256, (i - 1) as nat, true);
        assert(le_bytes_of(v, i + 1) =~= le_bytes_of(v, i).push(
            (((v / pow256(i)) % 256) as u8),
        ));
    }
}

proof fn lemma_be_bytes_of_index(v: int, width: nat, k: int)
    requires
        0 <= v,
        0 <= k < width,
    ensures
        be_bytes_of(v, width).len() == width,
        le_bytes_of(v, width).len() == width,
        be_bytes_of(v, width)[k] == le_bytes_of(v, width)[width - 1 - k],
    decreases width,
{
    lemma_field_bytes_len(v, width, true);
    lemma_field_bytes_len(v, width, false);
    lemma_field_bytes_len(v / 256, (width - 1) as nat, true);
    lemma_field_bytes_len(v / 256, (width - 1) as nat, false);
    if k == width - 1 {
    } else {
        lemma_be_bytes_of_index(v / 256, (width - 1) as nat, k);
    }
}

/// Append the `width`-byte encoding of `v` under the chosen byte order.
/// This single loop is the whole encode mechanism, the inverse of
/// [`read_uint`].
pub fn push_uint(out: &mut Vec<u8>, v: u64, width: usize, le: bool)
    requires
        width <= 8,
        old(out)@.len() + width <= usize::MAX,
    ensures
        final(out)@ == old(out)@ + field_bytes(v as int, width as nat, le),
        final(out)@.len() == old(out)@.len() + width,
{
    proof {
        lemma_field_bytes_len(v as int, width as nat, le);
    }
    let mut digits: Vec<u8> = Vec::new();
    let mut x: u64 = v;
    let mut i: usize = 0;
    while i < width
        invariant
            i <= width <= 8,
            digits@ == le_bytes_of(v as int, i as nat),
            x as int == v as int / pow256(i as nat),
        decreases width - i,
    {
        proof {
            lemma_le_bytes_of_snoc(v as int, i as nat);
            lemma_pow256_pos(i as nat);
            lemma_div_denominator(v as int, pow256(i as nat), 256);
            assert(pow256((i + 1) as nat) == 256 * pow256(i as nat));
        }
        digits.push((x % 256) as u8);
        x = x / 256;
        i = i + 1;
    }
    proof {
        lemma_field_bytes_len(v as int, width as nat, true);
        lemma_field_bytes_len(v as int, width as nat, false);
    }
    if le {
        out.append(&mut digits);
    } else {
        let mut j: usize = width;
        while j > 0
            invariant
                j <= width <= 8,
                digits@ == le_bytes_of(v as int, width as nat),
                digits@.len() == width,
                be_bytes_of(v as int, width as nat).len() == width,
                out@ =~= old(out)@ + be_bytes_of(v as int, width as nat).subrange(
                    0,
                    width - j,
                ),
                out@.len() == old(out)@.len() + width - j,
            decreases j,
        {
            proof {
                lemma_be_bytes_of_index(v as int, width as nat, width - j);
            }
            j = j - 1;
            out.push(digits[j]);
            proof {
                assert(out@ =~= old(out)@ + be_bytes_of(v as int, width as nat).subrange(
                    0,
                    width - j,
                ));
            }
        }
        proof {
            assert(be_bytes_of(v as int, width as nat).subrange(0, width as int) =~= be_bytes_of(
                v as int,
                width as nat,
            ));
        }
    }
}

/// Decoding inverts encoding: a value that fits in `width` bytes is
/// recovered exactly, under either byte order.
pub proof fn lemma_field_bytes_value(v: int, width: nat, le: bool)
    requires
        0 <= v < pow256(width),
    ensures
        field_value(field_bytes(v, width, le), le) == v,
    decreases width,
{
    if width == 0 {
    } else {
        lemma_fundamental_div_mod(v, 256);
        assert(pow256(width) == 256 * pow256((width - 1) as nat));
        assert(256 * (v / 256) <= v);
        assert(256 * (v / 256) < 256 * pow256((width - 1) as nat));
        assert(v / 256 < pow256((width - 1) as nat));
        lemma_field_bytes_value(v / 256, (width - 1) as nat, le);
        if le {
            let s = le_bytes_of(v, width);
            assert(s.subrange(1, s.len() as int) =~= le_bytes_of(v / 256, (width - 1) as nat));
            assert(s[0] == (v % 256) as u8);
        } else {
            let s = be_bytes_of(v, width);
            assert(s.drop_last() =~= be_bytes_of(v / 256, (width - 1) as nat));
            assert(s.last() == (v % 256) as u8);
        }
    }
}

/// A small sample record — three fields of different widths — showing how a
/// record type declares its layout once against the decoder: a size constant
/// and one [`read_uint`] call per field.
#[derive(PartialEq, Eq, Structural, Debug)]
pub struct Foo {
    pub foo: u8,
    pub bar: u16,
    pub baz: u32,
}

impl Foo {
    pub const SIZE: usize = 7;

    /// The record held in the first [`Foo::SIZE`] bytes of `data`.
    pub open spec fn spec_unpack(data: Seq<u8>, le: bool) -> Foo {
        Foo {
            foo: field_value(data.subrange(0, 1), le) as u8,
            bar: field_value(data.subrange(1, 3), le) as u16,
            baz: field_value(data.subrange(3, 7), le) as u32,
        }
    }

    /// Decode one record, returning it together with the unused remainder
    /// of `data`; fail exactly when `data` is too short.
    pub fn unpack<'a>(data: &'a [u8], le: bool) -> (r: Result<(Foo, &'a [u8]), DecodeError>)
        ensures
            data@.len() >= Foo::SIZE ==> (r matches Ok(p) && p.0 == Foo::spec_unpack(data@, le)
                && p.1@ == data@.subrange(Foo::SIZE as int, data@.len() as int)),
            data@.len() < Foo::SIZE ==> r is Err,
    {
        if data.len() < Foo::SIZE {
            return Err(DecodeError::TooShort);
        }
        let foo = read_uint(data, 0, 1, le) as u8;
        let bar = read_uint(data, 1, 2, le) as u16;
        let baz = read_uint(data, 3, 4, le) as u32;
        let rest = slice_subrange(data, Foo::SIZE, data.len());
        Ok((Foo { foo, bar, baz }, rest))
    }

    /// Decode one little-endian record.
    pub fn unpack_le<'a>(data: &'a [u8]) -> (r: Result<(Foo, &'a [u8]), DecodeError>)
        ensures
            data@.len() >= Foo::SIZE ==> (r matches Ok(p) && p.0 == Foo::spec_unpack(data@, true)
                && p.1@ == data@.subrange(Foo::SIZE as int, data@.len() as int)),
            data@.len() < Foo::SIZE ==> r is Err,
    {
        Foo::unpack(data, true)
    }

    /// Decode one big-endian record.
    pub fn unpack_be<'a>(data: &'a [u8]) -> (r: Result<(Foo, &'a [u8]), DecodeError>)
        ensures
            data@.len() >= Foo::SIZE ==> (r matches Ok(p) && p.0 == Foo::spec_unpack(data@, false)
                && p.1@ == data@.subrange(Foo::SIZE as int, data@.len() as int)),
            data@.len() < Foo::SIZE ==> r is Err,
    {
        Foo::unpack(data, false)
    }
}

} // verus!
