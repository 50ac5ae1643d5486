//! The decoder engine: a single-item decoder that reads one data item from
//! the front of a byte buffer, and a streaming, bounded-depth cursor that
//! expands nested arrays into a flat sequence of events without recursion.

use crate::cbor::CborError;
use crate::cbor::DataItem;
use crate::cbor::ItemView;
use crate::float_bits::half_to_double;
use crate::float_bits::half_to_double_bits;
use crate::float_bits::single_to_double;
use crate::float_bits::single_to_double_bits;
use vstd::arithmetic::power2::lemma2_to64;
use vstd::arithmetic::power2::lemma2_to64_rest;
use vstd::arithmetic::power2::lemma_pow2_adds;
use vstd::arithmetic::power2::lemma_pow2_strictly_increases;
use vstd::arithmetic::power2::pow2;
use vstd::prelude::*;
use vstd::slice::slice_subrange;

verus! {

/// The value of a big-endian byte string.
pub open spec fn be_val(s: Seq<u8>) -> nat
    decreases s.len(),
{
    if s.len() == 0 {
        0
    } else {
        (be_val(s.drop_last()) * 256 + s.last()) as nat
    }
}

pub proof fn lemma_be_val_bound(s: Seq<u8>)
    ensures
        be_val(s) < pow2((8 * s.len()) as nat),
    decreases s.len(),
{
    lemma2_to64();
    if s.len() > 0 {
        lemma_be_val_bound(s.drop_last());
        lemma_pow2_adds((8 * (s.len() - 1)) as nat, 8);
    }
}

/// How many argument bytes follow the initial byte for additional info
/// 24 to 27.
pub open spec fn arg_size(ai: u8) -> nat {
    if ai == 24 {
        1
    } else if ai == 25 {
        2
    } else if ai == 26 {
        4
    } else {
        8
    }
}

/// The second half of a single-item decode: what the major type makes of
/// the decoded argument. `ai` is the additional-info field, `arg` the
/// argument value, and `hdr` how many bytes the initial byte and the
/// argument took together.
pub open spec fn spec_dispatch(s: Seq<u8>, major: u8, ai: u8, arg: u64, hdr: nat) -> Result<
    (ItemView, nat),
    CborError,
> {
    if major == 0 {
        Ok((ItemView::UInt(arg), hdr))
    } else if major == 1 {
        Ok((ItemView::NUint((-1 - arg as int) as i128), hdr))
    } else if major == 2 || major == 3 {
        if ai > 23 {
            Err(CborError::UnsupportedFeature)
        } else if s.len() < hdr + arg {
            Err(CborError::TruncatedInput)
        } else {
            let payload = s.subrange(hdr as int, hdr as int + arg);
            if major == 2 {
                Ok((ItemView::Bytes(payload), (hdr + arg) as nat))
            } else {
                Ok((ItemView::Text(payload), (hdr + arg) as nat))
            }
        }
    } else if major == 4 {
        Ok((ItemView::Array(arg), hdr))
    } else if major == 5 {
        Err(CborError::UnsupportedFeature)
    } else if major == 6 {
        Ok((ItemView::Tag(arg), hdr))
    } else {
        if ai <= 23 {
            Ok((ItemView::Simple(arg as u8), hdr))
        } else if ai == 25 {
            Ok((ItemView::Float(half_to_double(arg as u16)), hdr))
        } else if ai == 26 {
            Ok((ItemView::Float(single_to_double(arg as u32)), hdr))
        } else if ai == 27 {
            Ok((ItemView::Float(arg), hdr))
        } else {
            Err(CborError::UnsupportedFeature)
        }
    }
}

/// What decoding one data item from the front of `s` yields: the item and
/// the number of bytes it occupied, or the error that the front of `s`
/// deserves. The initial byte splits into a 3-bit major type and a 5-bit
/// additional-info field; additional info 0..=23 is the literal argument,
/// 24..=27 announce 1/2/4/8 big-endian argument bytes, 28..=30 are
/// reserved and malformed, and 31 is a break for major type 7 and an
/// unsupported indefinite length for every other major type.
pub open spec fn spec_decode(s: Seq<u8>) -> Result<(ItemView, nat), CborError> {
    if s.len() == 0 {
        Err(CborError::TruncatedInput)
    } else {
        let major = s[0] / 32;
        let ai = s[0] % 32;
        if ai <= 23 {
            spec_dispatch(s, major, ai, ai as u64, 1)
        } else if ai <= 27 {
            let n = arg_size(ai);
            if s.len() < 1 + n {
                Err(CborError::TruncatedInput)
            } else {
                spec_dispatch(s, major, ai, be_val(s.subrange(1, 1 + n as int)) as u64, 1 + n)
            }
        } else if ai <= 30 {
            Err(CborError::MalformedInput)
        } else if major == 7 {
            Ok((ItemView::Break, 1))
        } else {
            Err(CborError::UnsupportedFeature)
        }
    }
}

/// Reads a big-endian unsigned integer from at most eight bytes.
pub fn bytes_to_u64(t: &[u8]) -> (result: u64)
    requires
        t@.len() <= 8,
    ensures
        result == be_val(t@),
{
    let mut result: u64 = 0;
    let mut i: usize = 0;
    proof {
        lemma2_to64();
        assert(t@.subrange(0, 0) =~= Seq::<u8>::empty());
    }
    while i < t.len()
        invariant
            i <= t@.len() <= 8,
            result == be_val(t@.subrange(0, i as int)),
            result < pow2((8 * i) as nat),
        decreases t@.len() - i,
    {
        proof {
            lemma2_to64();
            lemma2_to64_rest();
            if 8 * i < 56 {
                lemma_pow2_strictly_increases((8 * i) as nat, 56);
            }
            lemma_pow2_adds((8 * i) as nat, 8);
            assert(t@.subrange(0, i + 1).drop_last() =~= t@.subrange(0, i as int));
            assert(t@.subrange(0, i + 1).last() == t@[i as int]);
        }
        result = result * 256 + (t[i] as u64);
        i = i + 1;
    }
    proof {
        assert(t@.subrange(0, t@.len() as int) =~= t@);
    }
    result
}

/// Decodes the first data item of `raw`, returning it together with the
/// number of bytes it occupied, exactly as `spec_decode` describes.
pub fn decode<'a>(raw: &'a [u8]) -> (r: Result<(DataItem<'a>, usize), CborError>)
    ensures
        r matches Ok(p) ==> spec_decode(raw@) == Ok::<(ItemView, nat), CborError>(
            (p.0@, p.1 as nat),
        ) && p.1 <= raw@.len(),
        r matches Err(e) ==> spec_decode(raw@) == Err::<(ItemView, nat), CborError>(e),
{
    if raw.len() == 0 {
        return Err(CborError::TruncatedInput);
    }
    let first = raw[0];
    let major = first / 32;
    let ai = first % 32;
    let mut consumed: usize = 1;
    let arg: u64;
    if ai <= 23 {
        arg = ai as u64;
    } else if ai <= 27 {
        let n: usize = if ai == 24 {
            1
        } else if ai == 25 {
            2
        } else if ai == 26 {
            4
        } else {
            8
        };
        if raw.len() < 1 + n {
            return Err(CborError::TruncatedInput);
        }
        arg = bytes_to_u64(slice_subrange(raw, 1, 1 + n));
        consumed = 1 + n;
        proof {
            lemma_be_val_bound(raw@.subrange(1, 1 + n as int));
            lemma2_to64();
            lemma2_to64_rest();
            if 8 * n < 64 {
                lemma_pow2_strictly_increases((8 * n) as nat, 64);
            }
        }
    } else if ai <= 30 {
        return Err(CborError::MalformedInput);
    } else if major == 7 {
        return Ok((DataItem::Break, 1));
    } else {
        return Err(CborError::UnsupportedFeature);
    }
    if major == 0 {
        Ok((DataItem::UInt(arg), consumed))
    } else if major == 1 {
        Ok((DataItem::NUint(-1 - arg as i128), consumed))
    } else if major == 2 || major == 3 {
        if ai > 23 {
            Err(CborError::UnsupportedFeature)
        } else {
            let la = arg as usize;
            if raw.len() < consumed + la {
                Err(CborError::TruncatedInput)
            } else {
                let payload = slice_subrange(raw, consumed, consumed + la);
                if major == 2 {
                    Ok((DataItem::Bytes(payload), consumed + la))
                } else {
                    Ok((DataItem::Text(payload), consumed + la))
                }
            }
        }
    } else if major == 4 {
        Ok((DataItem::Array(arg), consumed))
    } else if major == 5 {
        Err(CborError::UnsupportedFeature)
    } else if major == 6 {
        Ok((DataItem::Tag(arg), consumed))
    } else {
        if ai <= 23 {
            Ok((DataItem::Simple(arg as u8), consumed))
        } else if ai == 25 {
            proof {
                lemma_be_val_bound(raw@.subrange(1, 3));
                lemma2_to64();
            }
            Ok((DataItem::Float(half_to_double_bits(arg as u16)), consumed))
        } else if ai == 26 {
            proof {
                lemma_be_val_bound(raw@.subrange(1, 5));
                lemma2_to64();
            }
            Ok((DataItem::Float(single_to_double_bits(arg as u32)), consumed))
        } else if ai == 27 {
            Ok((DataItem::Float(arg), consumed))
        } else {
            Err(CborError::UnsupportedFeature)
        }
    }
}

/// The maximum number of open nesting levels a decode session tracks: the
/// top level plus up to this many minus one open arrays. Nesting past this
/// bound yields `DepthExceeded` rather than unbounded state.
pub const MAX_DEPTH: usize = 4;

/// A streaming decode session over a borrowed buffer: a cursor into the
/// bytes and, per open nesting level, the number of items still owed at
/// that level.
pub struct CborContext<'a> {
    raw: &'a [u8],
    index: usize,
    state: Vec<u64>,
}

/// The mathematical state of a decode session.
pub struct CtxView {
    pub bytes: Seq<u8>,
    pub index: nat,
    pub state: Seq<u64>,
}

impl<'a> View for CborContext<'a> {
    type V = CtxView;

    closed spec fn view(&self) -> CtxView {
        CtxView { bytes: self.raw@, index: self.index as nat, state: self.state@ }
    }
}

/// A well-formed session: the cursor stays inside the buffer and there is
/// always at least one and at most `MAX_DEPTH` open levels.
pub open spec fn ctx_wf(c: CtxView) -> bool {
    &&& 1 <= c.state.len() <= MAX_DEPTH
    &&& c.index <= c.bytes.len()
}

/// What one step of the streaming decoder leaves behind and reports.
pub struct StepView {
    pub ctx: CtxView,
    pub item: Result<ItemView, CborError>,
}

/// One step of the streaming decoder. While the current level still owes
/// items, a step consumes one owed slot and decodes the next item from the
/// cursor: an exhausted or truncated buffer reports `Underflow` without
/// moving the cursor, and a decoded array header opens a new level owing
/// that many items, or fails with `DepthExceeded` when every level is in
/// use. A level that owes nothing closes with `EndArray`, and at the top
/// level the session reports `End` for ever after.
pub open spec fn spec_next(c: CtxView) -> StepView {
    let depth = c.state.len() - 1;
    let top = c.state[depth];
    if top > 0 {
        let st = c.state.update(depth, (top - 1) as u64);
        if c.index >= c.bytes.len() {
            StepView { ctx: (CtxView { state: st, ..c }), item: Ok(ItemView::Underflow) }
        } else {
            match spec_decode(c.bytes.subrange(c.index as int, c.bytes.len() as int)) {
                Err(CborError::TruncatedInput) => StepView {
                    ctx: (CtxView { state: st, ..c }),
                    item: Ok(ItemView::Underflow),
                },
                Err(e) => StepView { ctx: (CtxView { state: st, ..c }), item: Err(e) },
                Ok(p) => {
                    let moved = CtxView { index: c.index + p.1, state: st, ..c };
                    match p.0 {
                        ItemView::Array(y) => {
                            if c.state.len() >= MAX_DEPTH {
                                StepView { ctx: moved, item: Err(CborError::DepthExceeded) }
                            } else {
                                StepView {
                                    ctx: (CtxView { state: st.push(y), ..moved }),
                                    item: Ok(ItemView::Array(y)),
                                }
                            }
                        },
                        _ => StepView { ctx: moved, item: Ok(p.0) },
                    }
                },
            }
        }
    } else if c.state.len() > 1 {
        StepView {
            ctx: (CtxView { state: c.state.subrange(0, depth as int), ..c }),
            item: Ok(ItemView::EndArray),
        }
    } else {
        StepView { ctx: c, item: Ok(ItemView::End) }
    }
}

impl<'a> CborContext<'a> {
    /// Opens a decode session over `data`, owing one top-level item.
    pub fn new(data: &'a [u8]) -> (c: CborContext<'a>)
        ensures
            ctx_wf(c@),
            c@ == (CtxView { bytes: data@, index: 0nat, state: seq![1u64] }),
    {
        let mut state: Vec<u64> = Vec::new();
        state.push(1);
        proof {
            assert(state@ =~= seq![1u64]);
        }
        CborContext { raw: data, index: 0, state }
    }

    /// Whether the current nesting level still owes items.
    pub fn has_next(&self) -> (b: bool)
        requires
            ctx_wf(self@),
        ensures
            b == (self@.state.last() > 0),
    {
        self.state[self.state.len() - 1] > 0
    }

    /// Reports the next event of the stream, as `spec_next` describes.
    pub fn next(&mut self) -> (r: Result<DataItem<'a>, CborError>)
        requires
            ctx_wf(old(self)@),
        ensures
            ctx_wf(final(self)@),
            final(self)@ == spec_next(old(self)@).ctx,
            r matches Ok(item) ==> spec_next(old(self)@).item == Ok::<ItemView, CborError>(item@),
            r matches Err(e) ==> spec_next(old(self)@).item == Err::<ItemView, CborError>(e),
    {
        let d = self.state.len() - 1;
        let top = self.state[d];
        if top > 0 {
            self.state[d] = top - 1;
            if self.index >= self.raw.len() {
                return Ok(DataItem::Underflow);
            }
            let rest = slice_subrange(self.raw, self.index, self.raw.len());
            match decode(rest) {
                Err(CborError::TruncatedInput) => Ok(DataItem::Underflow),
                Err(e) => Err(e),
                Ok((item, n)) => {
                    self.index = self.index + n;
                    match item {
                        DataItem::Array(y) => {
                            if self.state.len() >= MAX_DEPTH {
                                Err(CborError::DepthExceeded)
                            } else {
                                self.state.push(y);
                                Ok(DataItem::Array(y))
                            }
                        },
                        other => Ok(other),
                    }
                },
            }
        } else if self.state.len() > 1 {
            let _ = self.state.pop();
            Ok(DataItem::EndArray)
        } else {
            Ok(DataItem::End)
        }
    }
}

/// Decodes the first data item of `raw`, dropping the byte count.
pub fn decode_single_item<'a>(raw: &'a [u8]) -> (r: Result<DataItem<'a>, CborError>)
    ensures
        r matches Ok(item) ==> spec_decode(raw@) matches Ok(p) && p.0 == item@,
        r matches Err(e) ==> spec_decode(raw@) == Err::<(ItemView, nat), CborError>(e),
{
    match decode(raw) {
        Ok((item, _)) => Ok(item),
        Err(e) => Err(e),
    }
}

} // verus!
