//! The wire format, stated as spec functions over byte sequences.
//!
//! `encode` gives the bytes of a tree, or the error that the encoder reports.
//! `parse` reads one value from the front of a buffer and says how many bytes it
//! took; `decode` is `parse` that must take the whole buffer.
//!
//! A list or an association always fills the whole buffer or frame it stands
//! in, so its end tag is the last byte there. Elsewhere a byte equal to the end
//! tag is the length byte of one more frame: an element of three bytes, or a key
//! of five, is framed by a byte that equals the end tag of its container.
use crate::value::Tree;
use vstd::bytes::{spec_u32_from_le_bytes, spec_u32_to_le_bytes, spec_u64_from_le_bytes, spec_u64_to_le_bytes};
use vstd::prelude::*;

verus! {

/// A 64-bit signed integer; eight little-endian bytes follow.
pub const TAG_I64: u8 = 0;

/// A byte string; a length byte and that many bytes follow.
pub const TAG_BYTES: u8 = 1;

/// The start of a list; element frames follow, then `TAG_SEQ_END`.
pub const TAG_SEQ_START: u8 = 2;

/// The end of a list.
pub const TAG_SEQ_END: u8 = 3;

/// The start of an association; key and value frames follow, then `TAG_MAP_END`.
pub const TAG_MAP_START: u8 = 4;

/// The end of an association.
pub const TAG_MAP_END: u8 = 5;

/// The boolean true.
pub const TAG_TRUE: u8 = 6;

/// The boolean false.
pub const TAG_FALSE: u8 = 7;

/// A 64-bit float; the eight little-endian bytes of its bit pattern follow.
pub const TAG_F64: u8 = 8;

/// A present optional value; the frame of the value follows.
pub const TAG_SOME: u8 = 9;

/// An absent optional value.
pub const TAG_NONE: u8 = 10;

/// A 32-bit signed integer; four little-endian bytes follow.
pub const TAG_I32: u8 = 11;

/// A 32-bit float; the four little-endian bytes of its bit pattern follow.
pub const TAG_F32: u8 = 12;

/// An unsigned byte; the byte follows.
pub const TAG_U8: u8 = 13;

/// Tags from here up carry a small unsigned byte: value = tag - `SMALL_BASE`.
pub const SMALL_BASE: u8 = 20;

/// The largest value a small unsigned byte can hold.
pub const SMALL_MAX: u8 = 235;

/// The largest payload a single length byte can frame.
pub const MAX_FRAME: usize = 255;

/// Why an encode or a decode failed.
#[derive(PartialEq, Eq, Structural, Clone, Copy, Debug)]
pub enum Error {
    /// A byte string, or the encoding of a nested element, is longer than 255 bytes.
    EncodeOverflow,
    /// A small unsigned byte is above 235.
    InvalidSmallValue,
    /// The decoder needed a byte past the end of its input.
    Truncated,
    /// The decoder met a tag that starts no value.
    UnknownTag,
    /// A buffer, or a frame within it, holds bytes after the value it encodes.
    TrailingBytes,
}

/// `tag` followed by `body`, or the error.
pub open spec fn tagged(tag: u8, body: Result<Seq<u8>, Error>) -> Result<Seq<u8>, Error> {
    match body {
        Ok(b) => Ok(seq![tag] + b),
        Err(e) => Err(e),
    }
}

/// A frame: one length byte, then the encoding it measures.
pub open spec fn frame(enc: Result<Seq<u8>, Error>) -> Result<Seq<u8>, Error> {
    match enc {
        Ok(e) => if e.len() <= MAX_FRAME {
            Ok(seq![e.len() as u8] + e)
        } else {
            Err(Error::EncodeOverflow)
        },
        Err(x) => Err(x),
    }
}

/// `first` followed by `rest`, reporting the first error from the left.
pub open spec fn concat(first: Result<Seq<u8>, Error>, rest: Result<Seq<u8>, Error>) -> Result<Seq<u8>, Error> {
    match first {
        Err(e) => Err(e),
        Ok(a) => match rest {
            Err(e) => Err(e),
            Ok(b) => Ok(a + b),
        },
    }
}

/// The encoding of a tree.
pub open spec fn encode(t: Tree) -> Result<Seq<u8>, Error>
    decreases t,
{
    match t {
        Tree::I64(x) => Ok(seq![TAG_I64] + spec_u64_to_le_bytes(x as u64)),
        Tree::I32(x) => Ok(seq![TAG_I32] + spec_u32_to_le_bytes(x as u32)),
        Tree::U8(x) => Ok(seq![TAG_U8, x]),
        Tree::SmallU8(x) => if x <= SMALL_MAX {
            Ok(seq![(x + SMALL_BASE) as u8])
        } else {
            Err(Error::InvalidSmallValue)
        },
        Tree::F64(bits) => Ok(seq![TAG_F64] + spec_u64_to_le_bytes(bits)),
        Tree::F32(bits) => Ok(seq![TAG_F32] + spec_u32_to_le_bytes(bits)),
        Tree::Bool(b) => Ok(seq![if b { TAG_TRUE } else { TAG_FALSE }]),
        Tree::Bytes(b) => if b.len() <= MAX_FRAME {
            Ok(seq![TAG_BYTES, b.len() as u8] + b)
        } else {
            Err(Error::EncodeOverflow)
        },
        Tree::List(items) => concat(tagged(TAG_SEQ_START, encode_items(items)), Ok(seq![TAG_SEQ_END])),
        Tree::Assoc(pairs) => concat(tagged(TAG_MAP_START, encode_pairs(pairs)), Ok(seq![TAG_MAP_END])),
        Tree::Opt(None) => Ok(seq![TAG_NONE]),
        Tree::Opt(Some(inner)) => tagged(TAG_SOME, frame(encode(*inner))),
    }
}

/// The frames of a list's elements, one after the other.
pub open spec fn encode_items(items: Seq<Tree>) -> Result<Seq<u8>, Error>
    decreases items,
{
    if items.len() == 0 {
        Ok(Seq::empty())
    } else {
        concat(frame(encode(items[0])), encode_items(items.subrange(1, items.len() as int)))
    }
}

/// The frames of an association's pairs: key frame, then value frame, for each pair.
pub open spec fn encode_pairs(pairs: Seq<(Tree, Tree)>) -> Result<Seq<u8>, Error>
    decreases pairs,
{
    if pairs.len() == 0 {
        Ok(Seq::empty())
    } else {
        concat(
            concat(frame(encode(pairs[0].0)), frame(encode(pairs[0].1))),
            encode_pairs(pairs.subrange(1, pairs.len() as int)),
        )
    }
}

/// A parse that must take exactly `len` bytes.
pub open spec fn finish(r: Result<(Tree, nat), Error>, len: nat) -> Result<Tree, Error> {
    match r {
        Ok((t, used)) => if used == len {
            Ok(t)
        } else {
            Err(Error::TrailingBytes)
        },
        Err(e) => Err(e),
    }
}

/// The value a whole buffer encodes, or why it encodes none.
pub open spec fn decode(b: Seq<u8>) -> Result<Tree, Error> {
    finish(parse(b), b.len())
}

/// The position just past the frame whose length byte is at `pos`.
pub open spec fn frame_end(b: Seq<u8>, pos: int) -> int {
    pos + 1 + b[pos] as int
}

/// The frame whose length byte is at `pos`, decoded, with the position just past it.
pub open spec fn frame_at(b: Seq<u8>, pos: int) -> Result<(Tree, nat), Error>
    decreases b.len(), 0int,
{
    if pos < 0 || pos >= b.len() || b.len() < frame_end(b, pos) {
        Err(Error::Truncated)
    } else {
        let end = frame_end(b, pos);
        let body = b.subrange(pos + 1, end);
        match finish(parse(body), body.len()) {
            Ok(t) => Ok((t, end as nat)),
            Err(e) => Err(e),
        }
    }
}

/// One value read from the front of `b`, with the number of bytes it took.
pub open spec fn parse(b: Seq<u8>) -> Result<(Tree, nat), Error>
    decreases b.len(), b.len() + 1,
{
    if b.len() == 0 {
        Err(Error::Truncated)
    } else {
        let tag = b[0];
        if tag == TAG_I64 || tag == TAG_F64 {
            if b.len() < 9 {
                Err(Error::Truncated)
            } else {
                let x = spec_u64_from_le_bytes(b.subrange(1, 9));
                Ok((if tag == TAG_I64 { Tree::I64(x as i64) } else { Tree::F64(x) }, 9))
            }
        } else if tag == TAG_I32 || tag == TAG_F32 {
            if b.len() < 5 {
                Err(Error::Truncated)
            } else {
                let x = spec_u32_from_le_bytes(b.subrange(1, 5));
                Ok((if tag == TAG_I32 { Tree::I32(x as i32) } else { Tree::F32(x) }, 5))
            }
        } else if tag == TAG_U8 {
            if b.len() < 2 {
                Err(Error::Truncated)
            } else {
                Ok((Tree::U8(b[1]), 2))
            }
        } else if tag == TAG_TRUE || tag == TAG_FALSE {
            Ok((Tree::Bool(tag == TAG_TRUE), 1))
        } else if tag == TAG_NONE {
            Ok((Tree::Opt(None), 1))
        } else if tag == TAG_BYTES {
            if b.len() < 2 || b.len() < frame_end(b, 1) {
                Err(Error::Truncated)
            } else {
                let end = frame_end(b, 1);
                Ok((Tree::Bytes(b.subrange(2, end)), end as nat))
            }
        } else if tag == TAG_SOME {
            match frame_at(b, 1) {
                Ok((t, end)) => Ok((Tree::Opt(Some(Box::new(t))), end)),
                Err(e) => Err(e),
            }
        } else if tag == TAG_SEQ_START {
            match parse_items(b, 1) {
                Ok((items, end)) => Ok((Tree::List(items), end)),
                Err(e) => Err(e),
            }
        } else if tag == TAG_MAP_START {
            match parse_pairs(b, 1) {
                Ok((pairs, end)) => Ok((Tree::Assoc(pairs), end)),
                Err(e) => Err(e),
            }
        } else if tag >= SMALL_BASE {
            Ok((Tree::SmallU8((tag - SMALL_BASE) as u8), 1))
        } else {
            Err(Error::UnknownTag)
        }
    }
}

/// The elements of a list whose next frame is at `pos`, or whose end tag is
/// there as the last byte of `b`; with the position just past the end tag.
pub open spec fn parse_items(b: Seq<u8>, pos: nat) -> Result<(Seq<Tree>, nat), Error>
    decreases b.len(), b.len() - pos,
{
    if pos >= b.len() {
        Err(Error::Truncated)
    } else if pos + 1 == b.len() && b[pos as int] == TAG_SEQ_END {
        Ok((Seq::empty(), pos + 1))
    } else if b.len() < frame_end(b, pos as int) {
        Err(Error::Truncated)
    } else {
        match frame_at(b, pos as int) {
            Err(e) => Err(e),
            Ok((t, end)) => match parse_items(b, frame_end(b, pos as int) as nat) {
                Ok((rest, stop)) => Ok((seq![t] + rest, stop)),
                Err(e) => Err(e),
            },
        }
    }
}

/// The pairs of an association whose next key frame is at `pos`, or whose end
/// tag is there as the last byte of `b`; with the position just past the end tag.
pub open spec fn parse_pairs(b: Seq<u8>, pos: nat) -> Result<(Seq<(Tree, Tree)>, nat), Error>
    decreases b.len(), b.len() - pos,
{
    if pos >= b.len() {
        Err(Error::Truncated)
    } else if pos + 1 == b.len() && b[pos as int] == TAG_MAP_END {
        Ok((Seq::empty(), pos + 1))
    } else if b.len() < frame_end(b, pos as int) {
        Err(Error::Truncated)
    } else {
        let mid = frame_end(b, pos as int);
        match frame_at(b, pos as int) {
            Err(e) => Err(e),
            Ok((k, _)) => if mid >= b.len() || b.len() < frame_end(b, mid) {
                Err(Error::Truncated)
            } else {
                match frame_at(b, mid) {
                    Err(e) => Err(e),
                    Ok((v, _)) => match parse_pairs(b, frame_end(b, mid) as nat) {
                        Ok((rest, stop)) => Ok((seq![(k, v)] + rest, stop)),
                        Err(e) => Err(e),
                    },
                }
            },
        }
    }
}

} // verus!
