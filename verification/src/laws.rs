//! The laws that tie the encoder and the decoder together: encoding is
//! invertible, canonical encodings are minimal, truncation and deep
//! nesting are reported as such.

use crate::cbor::encodable;
use crate::cbor::CborError;
use crate::cbor::ItemView;
use crate::decoder::arg_size;
use crate::decoder::be_val;
use crate::decoder::ctx_wf;
use crate::decoder::lemma_be_val_bound;
use crate::decoder::spec_decode;
use crate::decoder::spec_next;
use crate::decoder::CtxView;
use crate::decoder::MAX_DEPTH;
use crate::encoder::be2;
use crate::encoder::be4;
use crate::encoder::be8;
use crate::encoder::float_bytes;
use crate::encoder::neg_bytes;
use crate::encoder::spec_encode;
use crate::encoder::uint_bytes;
use crate::float_bits::lemma_half_widen_narrow;
use crate::float_bits::lemma_single_widen_narrow;
use vstd::arithmetic::power2::lemma2_to64;
use vstd::prelude::*;

verus! {

proof fn lemma_be_val1(v: u64)
    requires
        v <= 0xFF,
    ensures
        be_val(seq![v as u8]) == v,
{
    reveal_with_fuel(be_val, 3);
    assert(seq![v as u8].drop_last() =~= Seq::<u8>::empty());
}

proof fn lemma_be_val2(v: u64)
    requires
        v <= 0xFFFF,
    ensures
        be_val(be2(v)) == v,
{
    reveal_with_fuel(be_val, 4);
    let s = be2(v);
    assert(s.drop_last() =~= seq![(v / 0x100) as u8]);
    assert(seq![(v / 0x100) as u8].drop_last() =~= Seq::<u8>::empty());
    assert(((v / 0x100) as u8) as u64 * 0x100 + (v as u8) as u64 == v) by (bit_vector)
        requires
            v <= 0xFFFF,
    ;
}

proof fn lemma_be_val4(v: u64)
    requires
        v <= 0xFFFF_FFFF,
    ensures
        be_val(be4(v)) == v,
{
    reveal_with_fuel(be_val, 6);
    let s = be4(v);
    let c3 = (v / 0x100_0000) as u8;
    let c2 = (v / 0x1_0000) as u8;
    let c1 = (v / 0x100) as u8;
    assert(s.drop_last() =~= seq![c3, c2, c1]);
    assert(seq![c3, c2, c1].drop_last() =~= seq![c3, c2]);
    assert(seq![c3, c2].drop_last() =~= seq![c3]);
    assert(seq![c3].drop_last() =~= Seq::<u8>::empty());
    assert((((v / 0x100_0000) as u8) as u64 * 0x100 + ((v / 0x1_0000) as u8) as u64) * 0x100 + ((v
        / 0x100) as u8) as u64 == v / 0x100) by (bit_vector)
        requires
            v <= 0xFFFF_FFFF,
    ;
    assert((v / 0x100) * 0x100 + (v as u8) as u64 == v) by (bit_vector)
        requires
            v <= 0xFFFF_FFFF,
    ;
}

proof fn lemma_be_val8(v: u64)
    ensures
        be_val(be8(v)) == v,
{
    reveal_with_fuel(be_val, 10);
    let b7 = (v / 0x100_0000_0000_0000) as u8;
    let b6 = (v / 0x1_0000_0000_0000) as u8;
    let b5 = (v / 0x100_0000_0000) as u8;
    let b4 = (v / 0x1_0000_0000) as u8;
    let b3 = (v / 0x100_0000) as u8;
    let b2 = (v / 0x1_0000) as u8;
    let b1 = (v / 0x100) as u8;
    assert(be8(v).drop_last() =~= seq![b7, b6, b5, b4, b3, b2, b1]);
    assert(seq![b7, b6, b5, b4, b3, b2, b1].drop_last() =~= seq![b7, b6, b5, b4, b3, b2]);
    assert(seq![b7, b6, b5, b4, b3, b2].drop_last() =~= seq![b7, b6, b5, b4, b3]);
    assert(seq![b7, b6, b5, b4, b3].drop_last() =~= seq![b7, b6, b5, b4]);
    assert(seq![b7, b6, b5, b4].drop_last() =~= seq![b7, b6, b5]);
    assert(seq![b7, b6, b5].drop_last() =~= seq![b7, b6]);
    assert(seq![b7, b6].drop_last() =~= seq![b7]);
    assert(seq![b7].drop_last() =~= Seq::<u8>::empty());
    assert(((v / 0x100_0000_0000_0000) as u8) as u64 * 0x100 + ((v / 0x1_0000_0000_0000) as u8)
        as u64 == v / 0x1_0000_0000_0000) by (bit_vector);
    assert((v / 0x1_0000_0000_0000) * 0x100 + ((v / 0x100_0000_0000) as u8) as u64 == v
        / 0x100_0000_0000) by (bit_vector);
    assert((v / 0x100_0000_0000) * 0x100 + ((v / 0x1_0000_0000) as u8) as u64 == v / 0x1_0000_0000)
        by (bit_vector);
    assert((v / 0x1_0000_0000) * 0x100 + ((v / 0x100_0000) as u8) as u64 == v / 0x100_0000)
        by (bit_vector);
    assert((v / 0x100_0000) * 0x100 + ((v / 0x1_0000) as u8) as u64 == v / 0x1_0000)
        by (bit_vector);
    assert((v / 0x1_0000) * 0x100 + ((v / 0x100) as u8) as u64 == v / 0x100) by (bit_vector);
    assert((v / 0x100) * 0x100 + (v as u8) as u64 == v) by (bit_vector);
}

/// The canonical unsigned-argument bytes decode back to the same value,
/// as an unsigned integer under base `0x00` and as an array header under
/// base `0x80`, consuming the whole encoding.
proof fn lemma_uint_bytes_decode(base: u8, v: u64)
    requires
        base == 0x00 || base == 0x80,
    ensures
        spec_decode(uint_bytes(base, v)) == Ok::<(ItemView, nat), CborError>(
            (
                if base == 0x00 {
                    ItemView::UInt(v)
                } else {
                    ItemView::Array(v)
                },
                uint_bytes(base, v).len(),
            ),
        ),
{
    let b = uint_bytes(base, v);
    if v < 24 {
    } else if v <= 0xFF {
        assert(b.subrange(1, 2) =~= seq![v as u8]);
        lemma_be_val1(v);
    } else if v <= 0xFFFF {
        assert(b.subrange(1, 3) =~= be2(v));
        lemma_be_val2(v);
    } else if v <= 0xFFFF_FFFF {
        assert(b.subrange(1, 5) =~= be4(v));
        lemma_be_val4(v);
    } else {
        assert(b.subrange(1, 9) =~= be8(v));
        lemma_be_val8(v);
    }
}

/// The bytes of an in-range negative integer decode back to the same
/// value, consuming the whole encoding.
proof fn lemma_neg_bytes_decode(x: i128)
    requires
        -0x1_0000_0000_0000_0000 <= x <= -1,
    ensures
        spec_decode(neg_bytes(x)) == Ok::<(ItemView, nat), CborError>(
            (ItemView::NUint(x), neg_bytes(x).len()),
        ),
{
    let b = neg_bytes(x);
    let a = (-1 - x) as u64;
    if x >= -24 {
    } else if x > -0x80 {
        assert(b.subrange(1, 2) =~= seq![a as u8]);
        lemma_be_val1(a);
    } else if x > -0x8000 {
        assert(b.subrange(1, 3) =~= be2(a));
        lemma_be_val2(a);
    } else if x > -0x8000_0000 {
        assert(b.subrange(1, 5) =~= be4(a));
        lemma_be_val4(a);
    } else {
        assert(b.subrange(1, 9) =~= be8(a));
        lemma_be_val8(a);
    }
}

/// The bytes of a float decode back to the very same double bits,
/// whichever of the three widths the encoder chose, consuming the whole
/// encoding.
proof fn lemma_float_bytes_decode(d: u64)
    ensures
        spec_decode(float_bytes(d)) == Ok::<(ItemView, nat), CborError>(
            (ItemView::Float(d), float_bytes(d).len()),
        ),
{
    let b = float_bytes(d);
    if crate::float_bits::half_exact(d) {
        let h = crate::float_bits::double_to_half(d);
        assert(b.subrange(1, 3) =~= be2(h as u64));
        lemma_be_val2(h as u64);
        lemma_half_widen_narrow(d);
    } else if crate::float_bits::single_exact(d) {
        let w = crate::float_bits::double_to_single(d);
        assert(b.subrange(1, 5) =~= be4(w as u64));
        lemma_be_val4(w as u64);
        lemma_single_widen_narrow(d);
    } else {
        assert(b.subrange(1, 9) =~= be8(d));
        lemma_be_val8(d);
    }
}

/// Round trip: every item the encoder supports — except the break simple
/// value, whose single byte decodes as `Break` — decodes from its own
/// encoding back to itself, and the decode consumes exactly the encoding's
/// length.
pub proof fn lemma_round_trip(v: ItemView)
    requires
        encodable(v),
        v != ItemView::Simple(31),
    ensures
        spec_encode(v) matches Ok(b) && spec_decode(b) == Ok::<(ItemView, nat), CborError>(
            (v, b.len()),
        ),
{
    match v {
        ItemView::UInt(x) => lemma_uint_bytes_decode(0x00, x),
        ItemView::NUint(x) => lemma_neg_bytes_decode(x),
        ItemView::Array(n) => lemma_uint_bytes_decode(0x80, n),
        ItemView::Float(d) => lemma_float_bytes_decode(d),
        ItemView::Simple(c) => {
        },
        _ => {
        },
    }
}

/// Every item the decoder produces is well-formed: in particular a
/// decoded negative integer always lies in the wire range
/// `-(2^64) ..= -1`, because the `+1` offset is applied with widened
/// arithmetic.
pub proof fn lemma_decoded_item_wf(s: Seq<u8>)
    ensures
        spec_decode(s) matches Ok(p) ==> crate::cbor::wf_item(p.0),
{
}

/// Canonical minimality for unsigned integers: no byte string that
/// decodes, in full, to the unsigned integer `v` is shorter than the
/// encoder's output for `v`.
pub proof fn lemma_uint_minimality(v: u64, s: Seq<u8>)
    requires
        spec_decode(s) == Ok::<(ItemView, nat), CborError>((ItemView::UInt(v), s.len() as nat)),
    ensures
        spec_encode(ItemView::UInt(v)) matches Ok(b) && b.len() <= s.len(),
{
    lemma2_to64();
    let ai = s[0] % 32;
    if 24 <= ai <= 27 {
        lemma_be_val_bound(s.subrange(1, 1 + arg_size(ai) as int));
    }
}

/// Truncation safety at the argument: a buffer whose initial byte
/// announces more argument bytes than remain decodes to `TruncatedInput`,
/// never to an item.
pub proof fn lemma_truncated_argument(s: Seq<u8>)
    requires
        s.len() >= 1,
        24 <= s[0] % 32 <= 27,
        s.len() < 1 + arg_size(s[0] % 32),
    ensures
        spec_decode(s) == Err::<(ItemView, nat), CborError>(CborError::TruncatedInput),
{
}

/// Truncation safety at the payload: a byte- or text-string header whose
/// declared length exceeds the remaining bytes decodes to
/// `TruncatedInput`, never to an out-of-bounds view.
pub proof fn lemma_truncated_payload(s: Seq<u8>)
    requires
        s.len() >= 1,
        s[0] / 32 == 2 || s[0] / 32 == 3,
        s[0] % 32 <= 23,
        s.len() < 1 + (s[0] % 32),
    ensures
        spec_decode(s) == Err::<(ItemView, nat), CborError>(CborError::TruncatedInput),
{
}

/// Truncation safety in a stream: while items are owed, an exhausted
/// cursor or a truncated item yields the `Underflow` pseudo-event, with
/// the cursor left where it was.
pub proof fn lemma_stream_underflow(c: CtxView)
    requires
        ctx_wf(c),
        c.state.last() > 0,
        c.index >= c.bytes.len() || spec_decode(
            c.bytes.subrange(c.index as int, c.bytes.len() as int),
        ) == Err::<(ItemView, nat), CborError>(CborError::TruncatedInput),
    ensures
        spec_next(c).item == Ok::<ItemView, CborError>(ItemView::Underflow),
        spec_next(c).ctx.index == c.index,
{
}

/// Depth bound: when every nesting level is already in use and the next
/// item opens one more array, the stream reports `DepthExceeded` rather
/// than growing its state.
pub proof fn lemma_depth_exceeded(c: CtxView, y: u64, n: nat)
    requires
        ctx_wf(c),
        c.state.last() > 0,
        c.state.len() == MAX_DEPTH,
        c.index < c.bytes.len(),
        spec_decode(c.bytes.subrange(c.index as int, c.bytes.len() as int)) == Ok::<
            (ItemView, nat),
            CborError,
        >((ItemView::Array(y), n)),
    ensures
        spec_next(c).item == Err::<ItemView, CborError>(CborError::DepthExceeded),
        spec_next(c).ctx.state.len() == MAX_DEPTH,
{
}

} // verus!
