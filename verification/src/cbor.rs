//! The data-item model: the tagged-union representation of a single CBOR
//! value, the pseudo-events the streaming decoder reports, the error
//! taxonomy, and the mathematical view of an item that the contracts of the
//! decoder and the encoder speak of.

use vstd::prelude::*;

verus! {

/// One CBOR data item, or one of the decoder's pseudo-events.
///
/// `Bytes` and `Text` hold borrowed, zero-copy views into the decoder's
/// input buffer and are valid only while that buffer is alive. `Text` is
/// not validated as UTF-8 at decode time. `Float` carries the bit pattern
/// of a 64-bit IEEE 754 value: the wire width (half, single or double
/// precision) is observable only on the wire, never in the decoded value,
/// and holding the bits rather than the number keeps the whole codec in
/// exact integer arithmetic. `Array` is a header declaring how many child
/// items follow as separate events; it is not a container. `Underflow`,
/// `EndArray` and `End` are produced only by the streaming decoder, never
/// by the encoder.
#[derive(Clone, Copy)]
pub enum DataItem<'a> {
    /// Major type 0: an unsigned integer.
    UInt(u64),
    /// Major type 1: a negative integer, the semantic value `-(argument + 1)`.
    /// Widened to 128 bits because the argument can reach `u64::MAX`.
    NUint(i128),
    /// Major type 2: a borrowed view of a byte string.
    Bytes(&'a [u8]),
    /// Major type 3: a borrowed view of a text string (unvalidated bytes).
    Text(&'a [u8]),
    /// Major type 4: an array header declaring the count of children.
    Array(u64),
    /// Major type 6: a tag number; the tagged item is the next event.
    Tag(u64),
    /// Major type 7, additional info 25/26/27: the bit pattern of the
    /// decoded 64-bit IEEE 754 value.
    Float(u64),
    /// Major type 7, additional info 0..=23: a simple value.
    Simple(u8),
    /// Major type 7, additional info 31: an indefinite-length terminator.
    Break,
    /// Pseudo-event: the input ran out while items were still owed.
    Underflow,
    /// Pseudo-event: the current array scope closed.
    EndArray,
    /// Pseudo-event: end of the top-level input; repeats on further calls.
    End,
}

/// The mathematical value of a [`DataItem`]: byte-string views become
/// sequences, everything else carries the same plain value.
pub enum ItemView {
    UInt(u64),
    NUint(i128),
    Bytes(Seq<u8>),
    Text(Seq<u8>),
    Array(u64),
    Tag(u64),
    Float(u64),
    Simple(u8),
    Break,
    Underflow,
    EndArray,
    End,
}

impl<'a> View for DataItem<'a> {
    type V = ItemView;

    open spec fn view(&self) -> ItemView {
        match self {
            DataItem::UInt(x) => ItemView::UInt(*x),
            DataItem::NUint(x) => ItemView::NUint(*x),
            DataItem::Bytes(b) => ItemView::Bytes(b@),
            DataItem::Text(b) => ItemView::Text(b@),
            DataItem::Array(n) => ItemView::Array(*n),
            DataItem::Tag(t) => ItemView::Tag(*t),
            DataItem::Float(d) => ItemView::Float(*d),
            DataItem::Simple(c) => ItemView::Simple(*c),
            DataItem::Break => ItemView::Break,
            DataItem::Underflow => ItemView::Underflow,
            DataItem::EndArray => ItemView::EndArray,
            DataItem::End => ItemView::End,
        }
    }
}

/// A well-formed item: a negative integer stays within the range the wire
/// format can carry, `-(2^64) ..= -1`; every other variant carries any value
/// of its field's type.
pub open spec fn wf_item(v: ItemView) -> bool {
    match v {
        ItemView::NUint(x) => -0x1_0000_0000_0000_0000 <= x <= -1,
        _ => true,
    }
}

/// The items the encoder supports: unsigned and (in-range) negative
/// integers, array headers, floats, and the simple values of the fixed
/// table (false, true, null, undefined, break).
pub open spec fn encodable(v: ItemView) -> bool {
    match v {
        ItemView::UInt(_) => true,
        ItemView::NUint(x) => -0x1_0000_0000_0000_0000 <= x <= -1,
        ItemView::Array(_) => true,
        ItemView::Float(_) => true,
        ItemView::Simple(c) => 20 <= c <= 23 || c == 31,
        _ => false,
    }
}

/// Why a decode or encode step could not produce a data item. These are
/// reported as values, never by terminating the process.
#[derive(Clone, Copy, PartialEq, Eq, Structural, Debug)]
pub enum CborError {
    /// A reserved additional-info value (28, 29 or 30) was encountered.
    MalformedInput,
    /// A major/additional-info combination this core does not cover:
    /// indefinite length, maps, long-form byte/text strings, or the
    /// extended simple-value form.
    UnsupportedFeature,
    /// Fewer bytes remain than a declared argument or payload requires.
    TruncatedInput,
    /// Nesting surpassed the configured maximum depth.
    DepthExceeded,
    /// An encoding request for a simple-value code outside the fixed table.
    UnsupportedSimpleValue,
}

} // verus!
