//! The encoder engine: canonical, minimal-length encoding of data items.
//! For every value the encoder picks the shortest of the legal wire forms:
//! integers and array headers use the smallest argument width that covers
//! the magnitude, and floats use the narrowest IEEE 754 width that holds
//! the value exactly.

use crate::cbor::CborError;
use crate::cbor::DataItem;
use crate::cbor::ItemView;
use crate::decoder::be_val;
use crate::float_bits::double_to_half;
use crate::float_bits::double_to_single;
use crate::float_bits::half_exact;
use crate::float_bits::single_exact;
use crate::float_bits::try_narrow_half;
use crate::float_bits::try_narrow_single;
use vstd::arithmetic::power2::lemma2_to64;
use vstd::arithmetic::power2::lemma2_to64_rest;
use vstd::arithmetic::power2::lemma_pow2_adds;
use vstd::arithmetic::power2::lemma_pow2_strictly_increases;
use vstd::arithmetic::power2::pow2;
use vstd::prelude::*;

verus! {

/// The two big-endian bytes of a value below `2^16`.
pub open spec fn be2(v: u64) -> Seq<u8> {
    seq![(v / 0x100) as u8, v as u8]
}

/// The four big-endian bytes of a value below `2^32`.
pub open spec fn be4(v: u64) -> Seq<u8> {
    seq![(v / 0x100_0000) as u8, (v / 0x1_0000) as u8, (v / 0x100) as u8, v as u8]
}

/// The eight big-endian bytes of any 64-bit value.
pub open spec fn be8(v: u64) -> Seq<u8> {
    seq![
        (v / 0x100_0000_0000_0000) as u8,
        (v / 0x1_0000_0000_0000) as u8,
        (v / 0x100_0000_0000) as u8,
        (v / 0x1_0000_0000) as u8,
        (v / 0x100_0000) as u8,
        (v / 0x1_0000) as u8,
        (v / 0x100) as u8,
        v as u8,
    ]
}

/// The canonical bytes of an unsigned argument under the major-type base
/// byte `base` (`0x00` for unsigned integers, `0x80` for array headers):
/// the shortest of the inline, one-, two-, four- and eight-byte forms that
/// covers the value.
pub open spec fn uint_bytes(base: u8, v: u64) -> Seq<u8> {
    if v < 24 {
        seq![(base as int + v as int) as u8]
    } else if v <= 0xFF {
        seq![(base as int + 24) as u8, v as u8]
    } else if v <= 0xFFFF {
        seq![(base as int + 25) as u8] + be2(v)
    } else if v <= 0xFFFF_FFFF {
        seq![(base as int + 26) as u8] + be4(v)
    } else {
        seq![(base as int + 27) as u8] + be8(v)
    }
}

/// The bytes of a negative integer `x`: the wire argument is `-1 - x`,
/// and the argument width is bucketed by the signed range boundaries, the
/// inline form covering `-24..=-1`, the one-byte form down to
/// `i8::MIN + 1`, and so on down to the eight-byte form.
pub open spec fn neg_bytes(x: i128) -> Seq<u8>
    recommends
        -0x1_0000_0000_0000_0000 <= x <= -1,
{
    let a = (-1 - x) as u64;
    if x >= -24 {
        seq![(0x20 + a as int) as u8]
    } else if x > -0x80 {
        seq![0x38u8, a as u8]
    } else if x > -0x8000 {
        seq![0x39u8] + be2(a)
    } else if x > -0x8000_0000 {
        seq![0x3Au8] + be4(a)
    } else {
        seq![0x3Bu8] + be8(a)
    }
}

/// The bytes of a float given as double bits: the half form when the value
/// is half-exact, else the single form when single-exact, else the full
/// double form.
pub open spec fn float_bytes(d: u64) -> Seq<u8> {
    if half_exact(d) {
        seq![0xF9u8] + be2(double_to_half(d) as u64)
    } else if single_exact(d) {
        seq![0xFAu8] + be4(double_to_single(d) as u64)
    } else {
        seq![0xFBu8] + be8(d)
    }
}

/// What encoding one data item yields: its canonical bytes, or the error
/// the item deserves. Byte and text strings, tags and the decoder's
/// pseudo-events are outside this encoder's coverage; a negative integer
/// beyond the wire range and a simple value outside the fixed table are
/// rejected.
pub open spec fn spec_encode(v: ItemView) -> Result<Seq<u8>, CborError> {
    match v {
        ItemView::UInt(x) => Ok(uint_bytes(0x00, x)),
        ItemView::NUint(x) => if -0x1_0000_0000_0000_0000 <= x <= -1 {
            Ok(neg_bytes(x))
        } else {
            Err(CborError::UnsupportedFeature)
        },
        ItemView::Array(n) => Ok(uint_bytes(0x80, n)),
        ItemView::Float(d) => Ok(float_bytes(d)),
        ItemView::Simple(c) => if 20 <= c <= 23 {
            Ok(seq![(0xE0 + c as int) as u8])
        } else if c == 31 {
            Ok(seq![0xFFu8])
        } else {
            Err(CborError::UnsupportedSimpleValue)
        },
        _ => Err(CborError::UnsupportedFeature),
    }
}

/// The views of a sequence of data items.
pub open spec fn item_views(items: Seq<DataItem>) -> Seq<ItemView> {
    items.map_values(|it: DataItem| it@)
}

/// What encoding an ordered sequence of items yields: the concatenation of
/// the items' independent encodings, or the first error.
pub open spec fn spec_encode_seq(items: Seq<ItemView>) -> Result<Seq<u8>, CborError>
    decreases items.len(),
{
    if items.len() == 0 {
        Ok(Seq::<u8>::empty())
    } else {
        match spec_encode(items[0]) {
            Err(e) => Err(e),
            Ok(b) => match spec_encode_seq(items.skip(1)) {
                Err(e) => Err(e),
                Ok(rest) => Ok(b + rest),
            },
        }
    }
}

/// Encodes an unsigned integer (major type 0) canonically.
pub fn encode_u64(x: u64) -> (r: Vec<u8>)
    ensures
        r@ == uint_bytes(0x00, x),
{
    let r: Vec<u8> = if x < 24 {
        vec![x as u8]
    } else if x <= 0xFF {
        vec![0x18u8, x as u8]
    } else if x <= 0xFFFF {
        vec![0x19u8, (x / 0x100) as u8, x as u8]
    } else if x <= 0xFFFF_FFFF {
        vec![0x1Au8, (x / 0x100_0000) as u8, (x / 0x1_0000) as u8, (x / 0x100) as u8, x as u8]
    } else {
        vec![
            0x1Bu8,
            (x / 0x100_0000_0000_0000) as u8,
            (x / 0x1_0000_0000_0000) as u8,
            (x / 0x100_0000_0000) as u8,
            (x / 0x1_0000_0000) as u8,
            (x / 0x100_0000) as u8,
            (x / 0x1_0000) as u8,
            (x / 0x100) as u8,
            x as u8,
        ]
    };
    proof {
        assert(r@ =~= uint_bytes(0x00, x));
    }
    r
}

/// Encodes an array header (major type 4) canonically.
pub fn encode_array(x: u64) -> (r: Vec<u8>)
    ensures
        r@ == uint_bytes(0x80, x),
{
    let r: Vec<u8> = if x < 24 {
        vec![0x80u8 + x as u8]
    } else if x <= 0xFF {
        vec![0x98u8, x as u8]
    } else if x <= 0xFFFF {
        vec![0x99u8, (x / 0x100) as u8, x as u8]
    } else if x <= 0xFFFF_FFFF {
        vec![0x9Au8, (x / 0x100_0000) as u8, (x / 0x1_0000) as u8, (x / 0x100) as u8, x as u8]
    } else {
        vec![
            0x9Bu8,
            (x / 0x100_0000_0000_0000) as u8,
            (x / 0x1_0000_0000_0000) as u8,
            (x / 0x100_0000_0000) as u8,
            (x / 0x1_0000_0000) as u8,
            (x / 0x100_0000) as u8,
            (x / 0x1_0000) as u8,
            (x / 0x100) as u8,
            x as u8,
        ]
    };
    proof {
        assert(r@ =~= uint_bytes(0x80, x));
    }
    r
}

/// Encodes a negative integer (major type 1) with the signed bucketing
/// that `neg_bytes` describes.
pub fn encode_nu64(x: i128) -> (r: Vec<u8>)
    requires
        -0x1_0000_0000_0000_0000 <= x <= -1,
    ensures
        r@ == neg_bytes(x),
{
    let a: u64 = (-1 - x) as u64;
    let r: Vec<u8> = if x >= -24 {
        vec![0x20u8 + a as u8]
    } else if x > -0x80 {
        vec![0x38u8, a as u8]
    } else if x > -0x8000 {
        vec![0x39u8, (a / 0x100) as u8, a as u8]
    } else if x > -0x8000_0000 {
        vec![0x3Au8, (a / 0x100_0000) as u8, (a / 0x1_0000) as u8, (a / 0x100) as u8, a as u8]
    } else {
        vec![
            0x3Bu8,
            (a / 0x100_0000_0000_0000) as u8,
            (a / 0x1_0000_0000_0000) as u8,
            (a / 0x100_0000_0000) as u8,
            (a / 0x1_0000_0000) as u8,
            (a / 0x100_0000) as u8,
            (a / 0x1_0000) as u8,
            (a / 0x100) as u8,
            a as u8,
        ]
    };
    proof {
        assert(r@ =~= neg_bytes(x));
    }
    r
}

/// Encodes a float given as double bits, choosing the narrowest exact
/// width.
pub fn encode_float(d: u64) -> (r: Vec<u8>)
    ensures
        r@ == float_bytes(d),
{
    let r: Vec<u8> = match try_narrow_half(d) {
        Some(h) => vec![0xF9u8, (h / 0x100) as u8, h as u8],
        None => match try_narrow_single(d) {
            Some(w) => vec![
                0xFAu8,
                (w / 0x100_0000) as u8,
                (w / 0x1_0000) as u8,
                (w / 0x100) as u8,
                w as u8,
            ],
            None => vec![
                0xFBu8,
                (d / 0x100_0000_0000_0000) as u8,
                (d / 0x1_0000_0000_0000) as u8,
                (d / 0x100_0000_0000) as u8,
                (d / 0x1_0000_0000) as u8,
                (d / 0x100_0000) as u8,
                (d / 0x1_0000) as u8,
                (d / 0x100) as u8,
                d as u8,
            ],
        },
    };
    proof {
        assert(r@ =~= float_bytes(d));
    }
    r
}

/// Encodes a simple value (major type 7) from the fixed table: false,
/// true, null, undefined and break; every other code is rejected.
pub fn encode_simple_val(x: u8) -> (r: Result<Vec<u8>, CborError>)
    ensures
        r matches Ok(v) ==> spec_encode(ItemView::Simple(x)) == Ok::<Seq<u8>, CborError>(v@),
        r matches Err(e) ==> spec_encode(ItemView::Simple(x)) == Err::<Seq<u8>, CborError>(e),
{
    if 20 <= x && x <= 23 {
        let v = vec![0xE0u8 + x];
        proof {
            assert(v@ =~= seq![(0xE0 + x as int) as u8]);
        }
        Ok(v)
    } else if x == 31 {
        let v = vec![0xFFu8];
        proof {
            assert(v@ =~= seq![0xFFu8]);
        }
        Ok(v)
    } else {
        Err(CborError::UnsupportedSimpleValue)
    }
}

/// Encodes one data item canonically, or reports why it cannot be
/// encoded, exactly as `spec_encode` describes.
pub fn encode_dataitem(x: DataItem<'_>) -> (r: Result<Vec<u8>, CborError>)
    ensures
        r matches Ok(v) ==> spec_encode(x@) == Ok::<Seq<u8>, CborError>(v@),
        r matches Err(e) ==> spec_encode(x@) == Err::<Seq<u8>, CborError>(e),
{
    match x {
        DataItem::UInt(y) => Ok(encode_u64(y)),
        DataItem::NUint(y) => {
            if -0x1_0000_0000_0000_0000 <= y && y <= -1 {
                Ok(encode_nu64(y))
            } else {
                Err(CborError::UnsupportedFeature)
            }
        },
        DataItem::Array(y) => Ok(encode_array(y)),
        DataItem::Float(d) => Ok(encode_float(d)),
        DataItem::Simple(c) => encode_simple_val(c),
        _ => Err(CborError::UnsupportedFeature),
    }
}

/// Encodes an ordered sequence of data items as the concatenation of each
/// item's independent encoding, or reports the first item's error.
pub fn encode_dataitem_vector(data: Vec<DataItem<'_>>) -> (r: Result<Vec<u8>, CborError>)
    ensures
        r matches Ok(v) ==> spec_encode_seq(item_views(data@)) == Ok::<Seq<u8>, CborError>(v@),
        r matches Err(e) ==> spec_encode_seq(item_views(data@)) == Err::<Seq<u8>, CborError>(e),
{
    let ghost all = item_views(data@);
    let mut tmp: Vec<u8> = Vec::new();
    let mut i: usize = 0;
    proof {
        assert(item_views(data@).skip(0) =~= item_views(data@));
    }
    while i < data.len()
        invariant
            i <= data@.len(),
            all == item_views(data@),
            spec_encode_seq(all) == (match spec_encode_seq(all.skip(i as int)) {
                Ok(rest) => Ok::<Seq<u8>, CborError>(tmp@ + rest),
                Err(e) => Err::<Seq<u8>, CborError>(e),
            }),
        decreases data@.len() - i,
    {
        proof {
            assert(all.skip(i as int).len() > 0);
            assert(all.skip(i as int)[0] == data@[i as int]@);
            assert(all.skip(i as int).skip(1) =~= all.skip(i as int + 1));
        }
        match encode_dataitem(data[i]) {
            Err(e) => {
                return Err(e);
            },
            Ok(mut piece) => {
                proof {
                    assert forall|rest: Seq<u8>| (tmp@ + piece@) + rest =~= tmp@ + (piece@
                        + rest) by {}
                }
                tmp.append(&mut piece);
            },
        }
        i = i + 1;
    }
    proof {
        assert(all.skip(data@.len() as int) =~= Seq::<ItemView>::empty());
        assert(tmp@ + Seq::<u8>::empty() =~= tmp@);
    }
    Ok(tmp)
}

/// Packs up to sixteen big-endian bytes into one unsigned value.
pub fn convert_vec_to_val(x: Vec<u8>) -> (res: u128)
    requires
        x@.len() <= 16,
    ensures
        res == be_val(x@),
{
    let mut res: u128 = 0;
    let mut i: usize = 0;
    proof {
        lemma2_to64();
        assert(x@.subrange(0, 0) =~= Seq::<u8>::empty());
    }
    while i < x.len()
        invariant
            i <= x@.len() <= 16,
            res == be_val(x@.subrange(0, i as int)),
            res < pow2((8 * i) as nat),
        decreases x@.len() - i,
    {
        proof {
            lemma2_to64();
            lemma2_to64_rest();
            lemma_pow2_adds(64, 56);
            lemma_pow2_adds(64, 64);
            if 8 * i < 120 {
                lemma_pow2_strictly_increases((8 * i) as nat, 120);
            }
            lemma_pow2_adds((8 * i) as nat, 8);
            assert(x@.subrange(0, i + 1).drop_last() =~= x@.subrange(0, i as int));
            assert(x@.subrange(0, i + 1).last() == x@[i as int]);
        }
        res = res * 256 + (x[i] as u128);
        i = i + 1;
    }
    proof {
        assert(x@.subrange(0, x@.len() as int) =~= x@);
    }
    res
}

} // verus!
