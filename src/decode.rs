//! The decoder: bytes to a value tree whose byte strings borrow from the input.
//!
//! Each nested value sits in a frame of at most 255 bytes and each level of
//! nesting takes at least two of them, so values nest at most about 128
//! levels deep and the recursion stays bounded, whatever the input.
use crate::value::{Tree, Value, all_borrow, all_pairs_borrow, lemma_pair_trees_of, lemma_trees_of, pair_trees_of, trees_of};
use crate::wire::{
    decode, frame_at, frame_end, parse, parse_items, parse_pairs, Error, SMALL_BASE, TAG_BYTES, TAG_F32, TAG_F64,
    TAG_FALSE, TAG_I32, TAG_I64, TAG_MAP_END, TAG_MAP_START, TAG_NONE, TAG_SEQ_END, TAG_SEQ_START, TAG_SOME,
    TAG_TRUE, TAG_U8,
};
use vstd::bytes::{u32_from_le_bytes, u64_from_le_bytes};
use vstd::prelude::*;
use vstd::slice::slice_subrange;

verus! {

/// `r` is what the spec result `s` says, and its tree borrows all its bytes.
pub open spec fn agrees<'a>(r: Result<(Value<'a>, usize), Error>, s: Result<(Tree, nat), Error>) -> bool {
    match s {
        Ok((t, n)) => r is Ok && r->Ok_0.0@ == t && r->Ok_0.1 == n && r->Ok_0.0.borrows_only(),
        Err(e) => r == Err::<(Value<'a>, usize), Error>(e),
    }
}

/// `s` in front of the elements that `r` reads, or the error of `r`.
pub open spec fn prepend<A>(s: Seq<A>, r: Result<(Seq<A>, nat), Error>) -> Result<(Seq<A>, nat), Error> {
    match r {
        Ok((rest, n)) => Ok((s + rest, n)),
        Err(e) => Err(e),
    }
}

proof fn lemma_trees_of_push<'a>(s: Seq<Value<'a>>, v: Value<'a>)
    ensures
        trees_of(s.push(v)) == trees_of(s).push(v@),
{
    lemma_trees_of(s);
    lemma_trees_of(s.push(v));
    assert(trees_of(s.push(v)) =~= trees_of(s).push(v@));
}

proof fn lemma_pair_trees_of_push<'a>(s: Seq<(Value<'a>, Value<'a>)>, p: (Value<'a>, Value<'a>))
    ensures
        pair_trees_of(s.push(p)) == pair_trees_of(s).push((p.0@, p.1@)),
{
    lemma_pair_trees_of(s);
    lemma_pair_trees_of(s.push(p));
    assert(pair_trees_of(s.push(p)) =~= pair_trees_of(s).push((p.0@, p.1@)));
}

/// A frame that reads fully ends inside the buffer.
proof fn lemma_frame_at_bounds(b: Seq<u8>, pos: int)
    ensures
        frame_at(b, pos) is Ok ==> 0 <= pos < b.len() && frame_at(b, pos)->Ok_0.1 == frame_end(b, pos)
            && frame_end(b, pos) <= b.len(),
{
}

/// The frame whose length byte is at `pos`, with the position just past it.
fn read_frame<'a>(b: &'a [u8], pos: usize) -> (r: Result<(Value<'a>, usize), Error>)
    ensures
        agrees(r, frame_at(b@, pos as int)),
    decreases b@.len(), 0int,
{
    if pos >= b.len() {
        return Err(Error::Truncated);
    }
    let n = b[pos] as usize;
    if b.len() - pos - 1 < n {
        return Err(Error::Truncated);
    }
    let end = pos + 1 + n;
    let body = slice_subrange(b, pos + 1, end);
    match parse_value(body) {
        Ok((v, used)) => {
            if used == n {
                Ok((v, end))
            } else {
                Err(Error::TrailingBytes)
            }
        },
        Err(e) => Err(e),
    }
}

/// One value read from the front of `b`, with the number of bytes it took.
fn parse_value<'a>(b: &'a [u8]) -> (r: Result<(Value<'a>, usize), Error>)
    ensures
        agrees(r, parse(b@)),
    decreases b@.len(), b@.len() + 1,
{
    if b.len() == 0 {
        return Err(Error::Truncated);
    }
    let tag = b[0];
    if tag == TAG_I64 || tag == TAG_F64 {
        if b.len() < 9 {
            return Err(Error::Truncated);
        }
        let x = u64_from_le_bytes(slice_subrange(b, 1, 9));
        if tag == TAG_I64 {
            Ok((Value::I64(#[verifier::truncate] (x as i64)), 9))
        } else {
            Ok((Value::F64(x), 9))
        }
    } else if tag == TAG_I32 || tag == TAG_F32 {
        if b.len() < 5 {
            return Err(Error::Truncated);
        }
        let x = u32_from_le_bytes(slice_subrange(b, 1, 5));
        if tag == TAG_I32 {
            Ok((Value::I32(#[verifier::truncate] (x as i32)), 5))
        } else {
            Ok((Value::F32(x), 5))
        }
    } else if tag == TAG_U8 {
        if b.len() < 2 {
            return Err(Error::Truncated);
        }
        Ok((Value::U8(b[1]), 2))
    } else if tag == TAG_TRUE || tag == TAG_FALSE {
        Ok((Value::Bool(tag == TAG_TRUE), 1))
    } else if tag == TAG_NONE {
        Ok((Value::Optional(None), 1))
    } else if tag == TAG_BYTES {
        if b.len() < 2 {
            return Err(Error::Truncated);
        }
        let n = b[1] as usize;
        if b.len() - 2 < n {
            return Err(Error::Truncated);
        }
        Ok((Value::Slice(slice_subrange(b, 2, 2 + n)), 2 + n))
    } else if tag == TAG_SOME {
        match read_frame(b, 1) {
            Ok((v, end)) => Ok((Value::Optional(Some(Box::new(v))), end)),
            Err(e) => Err(e),
        }
    } else if tag == TAG_SEQ_START {
        match read_items(b) {
            Ok((items, end)) => Ok((Value::Vector(items), end)),
            Err(e) => Err(e),
        }
    } else if tag == TAG_MAP_START {
        match read_pairs(b) {
            Ok((pairs, end)) => Ok((Value::HashMap(pairs), end)),
            Err(e) => Err(e),
        }
    } else if tag >= SMALL_BASE {
        Ok((Value::SmallU8(tag - SMALL_BASE), 1))
    } else {
        Err(Error::UnknownTag)
    }
}

/// The elements of the list that starts at the front of `b` and ends with its
/// end tag as the last byte of `b`, with the position just past that tag.
fn read_items<'a>(b: &'a [u8]) -> (r: Result<(Vec<Value<'a>>, usize), Error>)
    requires
        b@.len() >= 1,
    ensures
        parse_items(b@, 1) is Ok ==> r is Ok && trees_of(r->Ok_0.0@) == parse_items(b@, 1)->Ok_0.0
            && r->Ok_0.1 == parse_items(b@, 1)->Ok_0.1
            && all_borrow(r->Ok_0.0@),
        parse_items(b@, 1) is Err ==> r == Err::<(Vec<Value<'a>>, usize), Error>(parse_items(b@, 1)->Err_0),
    decreases b@.len(), b@.len(),
{
    let mut items: Vec<Value<'a>> = Vec::new();
    let mut pos: usize = 1;
    proof {
        assert(Seq::<Tree>::empty() + parse_items(b@, 1)->Ok_0.0 =~= parse_items(b@, 1)->Ok_0.0);
    }
    loop
        invariant
            1 <= pos <= b@.len(),
            parse_items(b@, 1) == prepend(trees_of(items@), parse_items(b@, pos as nat)),
            all_borrow(items@),
        decreases b@.len() - pos,
    {
        if pos >= b.len() {
            return Err(Error::Truncated);
        }
        if pos + 1 == b.len() && b[pos] == TAG_SEQ_END {
            proof {
                assert(trees_of(items@) + Seq::<Tree>::empty() =~= trees_of(items@));
            }
            return Ok((items, pos + 1));
        }
        let ghost before = items@;
        match read_frame(b, pos) {
            Err(e) => {
                return Err(e);
            },
            Ok((v, end)) => {
                proof {
                    lemma_frame_at_bounds(b@, pos as int);
                    lemma_trees_of_push(before, v);
                    let rest = parse_items(b@, end as nat);
                    if rest is Ok {
                        assert(trees_of(before) + (seq![v@] + rest->Ok_0.0) =~= trees_of(before).push(v@) + rest->Ok_0.0);
                    }
                }
                items.push(v);
                proof {
                    assert(forall|i: int| 0 <= i < before.len() ==> #[trigger] items@[i] == before[i]);
                    assert(all_borrow(items@));
                }
                pos = end;
            },
        }
    }
}

/// The pairs of the association that starts at the front of `b` and ends with
/// its end tag as the last byte of `b`, with the position just past that tag.
fn read_pairs<'a>(b: &'a [u8]) -> (r: Result<(Vec<(Value<'a>, Value<'a>)>, usize), Error>)
    requires
        b@.len() >= 1,
    ensures
        parse_pairs(b@, 1) is Ok ==> r is Ok && pair_trees_of(r->Ok_0.0@) == parse_pairs(b@, 1)->Ok_0.0
            && r->Ok_0.1 == parse_pairs(b@, 1)->Ok_0.1
            && all_pairs_borrow(r->Ok_0.0@),
        parse_pairs(b@, 1) is Err ==> r == Err::<(Vec<(Value<'a>, Value<'a>)>, usize), Error>(parse_pairs(b@, 1)->Err_0),
    decreases b@.len(), b@.len(),
{
    let mut pairs: Vec<(Value<'a>, Value<'a>)> = Vec::new();
    let mut pos: usize = 1;
    proof {
        assert(Seq::<(Tree, Tree)>::empty() + parse_pairs(b@, 1)->Ok_0.0 =~= parse_pairs(b@, 1)->Ok_0.0);
    }
    loop
        invariant
            1 <= pos <= b@.len(),
            parse_pairs(b@, 1) == prepend(pair_trees_of(pairs@), parse_pairs(b@, pos as nat)),
            all_pairs_borrow(pairs@),
        decreases b@.len() - pos,
    {
        if pos >= b.len() {
            return Err(Error::Truncated);
        }
        if pos + 1 == b.len() && b[pos] == TAG_MAP_END {
            proof {
                assert(pair_trees_of(pairs@) + Seq::<(Tree, Tree)>::empty() =~= pair_trees_of(pairs@));
            }
            return Ok((pairs, pos + 1));
        }
        let ghost before = pairs@;
        let (k, mid) = match read_frame(b, pos) {
            Err(e) => {
                return Err(e);
            },
            Ok(x) => x,
        };
        proof {
            lemma_frame_at_bounds(b@, pos as int);
        }
        let (v, end) = match read_frame(b, mid) {
            Err(e) => {
                return Err(e);
            },
            Ok(x) => x,
        };
        proof {
            lemma_frame_at_bounds(b@, mid as int);
            lemma_pair_trees_of_push(before, (k, v));
            let rest = parse_pairs(b@, end as nat);
            if rest is Ok {
                assert(pair_trees_of(before) + (seq![(k@, v@)] + rest->Ok_0.0) =~= pair_trees_of(before).push((k@, v@)) + rest->Ok_0.0);
            }
        }
        pairs.push((k, v));
        proof {
            assert(forall|i: int| 0 <= i < before.len() ==> #[trigger] pairs@[i] == before[i]);
            assert(all_pairs_borrow(pairs@));
        }
        pos = end;
    }
}

impl<'a> Value<'a> {
    /// The value that `bytes` encodes, whole. Its byte strings borrow from
    /// `bytes`: decoding copies no payload.
    pub fn deserialize_from(bytes: &'a [u8]) -> (r: Result<Value<'a>, Error>)
        ensures
            decode(bytes@) is Ok ==> r is Ok && r->Ok_0@ == decode(bytes@)->Ok_0 && r->Ok_0.borrows_only(),
            decode(bytes@) is Err ==> r == Err::<Value<'a>, Error>(decode(bytes@)->Err_0),
    {
        match parse_value(bytes) {
            Ok((v, used)) => {
                if used == bytes.len() {
                    Ok(v)
                } else {
                    Err(Error::TrailingBytes)
                }
            },
            Err(e) => Err(e),
        }
    }
}

} // verus!
