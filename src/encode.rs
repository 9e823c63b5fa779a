//! The encoder: a value tree to bytes.
use crate::value::{Tree, Value, lemma_pair_trees_of, lemma_trees_of, pair_trees_of, trees_of};
use crate::wire::{
    concat, encode, encode_items, encode_pairs, frame, Error, MAX_FRAME, SMALL_BASE, SMALL_MAX, TAG_BYTES, TAG_F32,
    TAG_F64, TAG_I32, TAG_I64, TAG_MAP_END, TAG_MAP_START, TAG_NONE, TAG_SEQ_END, TAG_SEQ_START, TAG_SOME,
    TAG_TRUE, TAG_FALSE, TAG_U8,
};
use vstd::bytes::{u32_to_le_bytes, u64_to_le_bytes};
use vstd::prelude::*;

verus! {

/// Inline capacity a scratch buffer for one nested element starts with.
pub const SCRATCH_CAPACITY: usize = 128;

/// `concat` regroups to the left.
proof fn lemma_concat_assoc(a: Seq<u8>, f: Result<Seq<u8>, Error>, rest: Result<Seq<u8>, Error>)
    ensures
        concat(Ok(a), concat(f, rest)) == match f {
            Ok(x) => concat(Ok(a + x), rest),
            Err(e) => Err(e),
        },
{
    match (f, rest) {
        (Ok(x), Ok(y)) => {
            assert(a + (x + y) =~= (a + x) + y);
        },
        _ => {},
    }
}

/// `concat` regroups to the left, for the two frames of a pair.
proof fn lemma_concat_assoc_pair(
    a: Seq<u8>,
    fk: Result<Seq<u8>, Error>,
    fv: Result<Seq<u8>, Error>,
    rest: Result<Seq<u8>, Error>,
)
    ensures
        concat(Ok(a), concat(concat(fk, fv), rest)) == match fk {
            Ok(x) => match fv {
                Ok(y) => concat(Ok(a + x + y), rest),
                Err(e) => Err(e),
            },
            Err(e) => Err(e),
        },
{
    match (fk, fv, rest) {
        (Ok(x), Ok(y), Ok(z)) => {
            assert(a + ((x + y) + z) =~= (a + x + y) + z);
        },
        _ => {},
    }
}

/// `new_buf` begins with all of `old_buf`.
pub open spec fn keeps_prefix(old_buf: Seq<u8>, new_buf: Seq<u8>) -> bool {
    &&& old_buf.len() <= new_buf.len()
    &&& new_buf.subrange(0, old_buf.len() as int) == old_buf
}

/// Appends `body` (at most 255 bytes) as a frame: its length byte, then `body` itself.
fn push_frame(buf: &mut Vec<u8>, body: &mut Vec<u8>) -> (r: Result<(), Error>)
    ensures
        frame(Ok(old(body)@)) is Ok ==> r is Ok && final(buf)@ == old(buf)@ + frame(Ok(old(body)@))->Ok_0,
        frame(Ok(old(body)@)) is Err ==> r == Err::<(), Error>(Error::EncodeOverflow) && final(buf)@ == old(buf)@,
{
    if body.len() > MAX_FRAME {
        Err(Error::EncodeOverflow)
    } else {
        buf.push(body.len() as u8);
        buf.append(body);
        proof {
            assert(final(buf)@ =~= old(buf)@ + frame(Ok(old(body)@))->Ok_0);
        }
        Ok(())
    }
}

/// Appends the frame of `v`: the length of its encoding, then the encoding.
fn write_frame<'a>(v: &Value<'a>, buf: &mut Vec<u8>) -> (r: Result<(), Error>)
    ensures
        frame(encode(v@)) is Ok ==> r is Ok && final(buf)@ == old(buf)@ + frame(encode(v@))->Ok_0,
        frame(encode(v@)) is Err ==> r == Err::<(), Error>(frame(encode(v@))->Err_0) && keeps_prefix(old(buf)@, final(buf)@),
    decreases v, 2nat,
{
    let mut scratch: Vec<u8> = Vec::with_capacity(SCRATCH_CAPACITY);
    match v.serialize_into(&mut scratch) {
        Err(e) => {
            proof {
                assert(buf@.subrange(0, buf@.len() as int) =~= buf@);
            }
            Err(e)
        },
        Ok(()) => {
            assert(scratch@ =~= encode(v@)->Ok_0);
            let r = push_frame(buf, &mut scratch);
            proof {
                assert(buf@.subrange(0, old(buf)@.len() as int) =~= old(buf)@);
            }
            r
        },
    }
}

impl<'a> Value<'a> {
    /// Appends the encoding of `self` to `buf`. On an error `buf` keeps what it
    /// held, and what follows is no encoding.
    #[verifier::rlimit(40)]
    pub fn serialize_into(&self, buf: &mut Vec<u8>) -> (r: Result<(), Error>)
        ensures
            encode(self@) is Ok ==> r is Ok && final(buf)@ == old(buf)@ + encode(self@)->Ok_0,
            encode(self@) is Err ==> r == Err::<(), Error>(encode(self@)->Err_0) && keeps_prefix(old(buf)@, final(buf)@),
        decreases self, 1nat,
    {
        let ghost start = buf@;
        let r = match self {
            Value::I64(x) => {
                buf.push(TAG_I64);
                let mut b = u64_to_le_bytes(#[verifier::truncate] (*x as u64));
                buf.append(&mut b);
                Ok(())
            },
            Value::I32(x) => {
                buf.push(TAG_I32);
                let mut b = u32_to_le_bytes(#[verifier::truncate] (*x as u32));
                buf.append(&mut b);
                Ok(())
            },
            Value::F64(bits) => {
                buf.push(TAG_F64);
                let mut b = u64_to_le_bytes(*bits);
                buf.append(&mut b);
                Ok(())
            },
            Value::F32(bits) => {
                buf.push(TAG_F32);
                let mut b = u32_to_le_bytes(*bits);
                buf.append(&mut b);
                Ok(())
            },
            Value::U8(x) => {
                buf.push(TAG_U8);
                buf.push(*x);
                Ok(())
            },
            Value::SmallU8(x) => {
                if *x <= SMALL_MAX {
                    buf.push(*x + SMALL_BASE);
                    Ok(())
                } else {
                    Err(Error::InvalidSmallValue)
                }
            },
            Value::Bool(b) => {
                buf.push(if *b { TAG_TRUE } else { TAG_FALSE });
                Ok(())
            },
            Value::Slice(s) => write_bytes(s, buf),
            Value::SliceLike(v) => write_bytes(v.as_slice(), buf),
            Value::Optional(None) => {
                buf.push(TAG_NONE);
                Ok(())
            },
            Value::Optional(Some(inner)) => {
                buf.push(TAG_SOME);
                let ghost pushed = buf@;
                let r = write_frame(inner, buf);
                proof {
                    assert(self@ == Tree::Opt(Some(Box::new((**inner)@))));
                    if r is Ok {
                        assert(buf@ =~= start + encode(self@)->Ok_0);
                    } else {
                        assert(buf@.subrange(0, start.len() as int) =~= pushed.subrange(0, start.len() as int));
                    }
                }
                r
            },
            Value::Vector(items) => {
                buf.push(TAG_SEQ_START);
                let ghost pushed = buf@;
                let r = write_items(items, buf);
                proof {
                    assert(self@ == Tree::List(trees_of(items@)));
                }
                match r {
                    Ok(()) => {
                        buf.push(TAG_SEQ_END);
                        proof {
                            assert(buf@ =~= start + encode(self@)->Ok_0);
                        }
                        Ok(())
                    },
                    Err(e) => {
                        proof {
                            assert(buf@.subrange(0, start.len() as int) =~= pushed.subrange(0, start.len() as int));
                        }
                        Err(e)
                    },
                }
            },
            Value::HashMap(pairs) => {
                buf.push(TAG_MAP_START);
                let ghost pushed = buf@;
                let r = write_pairs(pairs, buf);
                proof {
                    assert(self@ == Tree::Assoc(pair_trees_of(pairs@)));
                }
                match r {
                    Ok(()) => {
                        buf.push(TAG_MAP_END);
                        proof {
                            assert(buf@ =~= start + encode(self@)->Ok_0);
                        }
                        Ok(())
                    },
                    Err(e) => {
                        proof {
                            assert(buf@.subrange(0, start.len() as int) =~= pushed.subrange(0, start.len() as int));
                        }
                        Err(e)
                    },
                }
            },
        };
        proof {
            if r is Err {
                assert(buf@.subrange(0, start.len() as int) =~= start);
                assert(keeps_prefix(old(buf)@, buf@));
                assert(encode(self@) is Err);
                assert(r == Err::<(), Error>(encode(self@)->Err_0));
            }
        }
        r
    }

    /// The encoding of `self`, in a buffer of its own.
    pub fn serialize(&self) -> (r: Result<Vec<u8>, Error>)
        ensures
            encode(self@) is Ok ==> r is Ok && r->Ok_0@ == encode(self@)->Ok_0,
            encode(self@) is Err ==> r == Err::<Vec<u8>, Error>(encode(self@)->Err_0),
    {
        let mut buf: Vec<u8> = Vec::with_capacity(SCRATCH_CAPACITY);
        match self.serialize_into(&mut buf) {
            Ok(()) => {
                assert(buf@ =~= encode(self@)->Ok_0);
                Ok(buf)
            },
            Err(e) => Err(e),
        }
    }
}

/// Appends the frames of `items`, one after the other.
fn write_items<'a>(items: &Vec<Value<'a>>, buf: &mut Vec<u8>) -> (r: Result<(), Error>)
    ensures
        encode_items(trees_of(items@)) is Ok ==> r is Ok && final(buf)@ == old(buf)@ + encode_items(trees_of(items@))->Ok_0,
        encode_items(trees_of(items@)) is Err ==> r == Err::<(), Error>(encode_items(trees_of(items@))->Err_0)
            && keeps_prefix(old(buf)@, final(buf)@),
    decreases items, 0nat,
{
    let ghost start = buf@;
    let ghost ts = trees_of(items@);
    proof {
        lemma_trees_of(items@);
        assert(ts.subrange(0, ts.len() as int) =~= ts);
        assert(buf@.subrange(start.len() as int, buf@.len() as int) =~= Seq::<u8>::empty());
        assert(Seq::<u8>::empty() + encode_items(ts)->Ok_0 =~= encode_items(ts)->Ok_0);
    }
    let mut i: usize = 0;
    while i < items.len()
        invariant
            0 <= i <= items.len(),
            ts == trees_of(items@),
            ts.len() == items@.len(),
            forall|j: int| 0 <= j < items@.len() ==> #[trigger] ts[j] == items@[j].tree(),
            start == old(buf)@,
            start.len() <= buf@.len(),
            buf@.subrange(0, start.len() as int) == start,
            concat(Ok(buf@.subrange(start.len() as int, buf@.len() as int)), encode_items(ts.subrange(i as int, ts.len() as int))) == encode_items(ts),
        decreases items.len() - i,
    {
        let ghost before = buf@;
        let ghost rest = ts.subrange(i as int, ts.len() as int);
        proof {
            assert(rest[0] == items@[i as int].tree());
            assert(rest.subrange(1, rest.len() as int) =~= ts.subrange(i + 1, ts.len() as int));
            assert(encode_items(rest) == concat(frame(encode(items@[i as int]@)), encode_items(ts.subrange(i + 1, ts.len() as int))));
            lemma_concat_assoc(
                before.subrange(start.len() as int, before.len() as int),
                frame(encode(items@[i as int]@)),
                encode_items(ts.subrange(i + 1, ts.len() as int)),
            );
            assert(decreases_to!(*items => items@));
            assert(decreases_to!(items@ => items@[i as int]));
        }
        match write_frame(&items[i], buf) {
            Ok(()) => {
                proof {
                    assert(buf@.subrange(0, start.len() as int) =~= before.subrange(0, start.len() as int));
                    assert(buf@.subrange(start.len() as int, buf@.len() as int) =~= before.subrange(start.len() as int, before.len() as int) + frame(encode(items@[i as int]@))->Ok_0);
                }
                i = i + 1;
            },
            Err(e) => {
                proof {
                    assert(buf@.subrange(0, start.len() as int) =~= before.subrange(0, start.len() as int));
                }
                return Err(e);
            },
        }
    }
    proof {
        assert(ts.subrange(i as int, ts.len() as int) =~= Seq::<Tree>::empty());
        assert(buf@ =~= start + buf@.subrange(start.len() as int, buf@.len() as int));
        assert(buf@.subrange(start.len() as int, buf@.len() as int) + Seq::<u8>::empty() =~= buf@.subrange(start.len() as int, buf@.len() as int));
    }
    Ok(())
}

/// Appends the frames of `pairs`: for each pair, the key frame, then the value frame.
fn write_pairs<'a>(pairs: &Vec<(Value<'a>, Value<'a>)>, buf: &mut Vec<u8>) -> (r: Result<(), Error>)
    ensures
        encode_pairs(pair_trees_of(pairs@)) is Ok ==> r is Ok && final(buf)@ == old(buf)@ + encode_pairs(pair_trees_of(pairs@))->Ok_0,
        encode_pairs(pair_trees_of(pairs@)) is Err ==> r == Err::<(), Error>(encode_pairs(pair_trees_of(pairs@))->Err_0)
            && keeps_prefix(old(buf)@, final(buf)@),
    decreases pairs, 0nat,
{
    let ghost start = buf@;
    let ghost ts = pair_trees_of(pairs@);
    proof {
        lemma_pair_trees_of(pairs@);
        assert(ts.subrange(0, ts.len() as int) =~= ts);
        assert(buf@.subrange(start.len() as int, buf@.len() as int) =~= Seq::<u8>::empty());
        assert(Seq::<u8>::empty() + encode_pairs(ts)->Ok_0 =~= encode_pairs(ts)->Ok_0);
    }
    let mut i: usize = 0;
    while i < pairs.len()
        invariant
            0 <= i <= pairs.len(),
            ts == pair_trees_of(pairs@),
            ts.len() == pairs@.len(),
            forall|j: int|
                0 <= j < pairs@.len() ==> #[trigger] ts[j] == (pairs@[j].0.tree(), pairs@[j].1.tree()),
            start == old(buf)@,
            start.len() <= buf@.len(),
            buf@.subrange(0, start.len() as int) == start,
            concat(Ok(buf@.subrange(start.len() as int, buf@.len() as int)), encode_pairs(ts.subrange(i as int, ts.len() as int))) == encode_pairs(ts),
        decreases pairs.len() - i,
    {
        let ghost before = buf@;
        let ghost rest = ts.subrange(i as int, ts.len() as int);
        proof {
            assert(rest[0] == (pairs@[i as int].0.tree(), pairs@[i as int].1.tree()));
            assert(rest.subrange(1, rest.len() as int) =~= ts.subrange(i + 1, ts.len() as int));
            assert(encode_pairs(rest) == concat(
                concat(frame(encode(pairs@[i as int].0@)), frame(encode(pairs@[i as int].1@))),
                encode_pairs(ts.subrange(i + 1, ts.len() as int)),
            ));
            lemma_concat_assoc_pair(
                before.subrange(start.len() as int, before.len() as int),
                frame(encode(pairs@[i as int].0@)),
                frame(encode(pairs@[i as int].1@)),
                encode_pairs(ts.subrange(i + 1, ts.len() as int)),
            );
            assert(decreases_to!(*pairs => pairs@));
            assert(decreases_to!(pairs@ => pairs@[i as int]));
            assert(decreases_to!(pairs@[i as int] => pairs@[i as int].0));
            assert(decreases_to!(pairs@[i as int] => pairs@[i as int].1));
        }
        match write_frame(&pairs[i].0, buf) {
            Ok(()) => {},
            Err(e) => {
                proof {
                    assert(buf@.subrange(0, start.len() as int) =~= before.subrange(0, start.len() as int));
                }
                return Err(e);
            },
        }
        let ghost mid = buf@;
        match write_frame(&pairs[i].1, buf) {
            Ok(()) => {
                proof {
                    assert(buf@.subrange(0, start.len() as int) =~= before.subrange(0, start.len() as int));
                    assert(buf@.subrange(start.len() as int, buf@.len() as int) =~= before.subrange(start.len() as int, before.len() as int) + frame(encode(pairs@[i as int].0@))->Ok_0 + frame(encode(pairs@[i as int].1@))->Ok_0);
                }
                i = i + 1;
            },
            Err(e) => {
                proof {
                    assert(mid.subrange(0, start.len() as int) =~= before.subrange(0, start.len() as int));
                    assert(buf@.subrange(0, start.len() as int) =~= mid.subrange(0, start.len() as int));
                }
                return Err(e);
            },
        }
    }
    proof {
        assert(ts.subrange(i as int, ts.len() as int) =~= Seq::<(Tree, Tree)>::empty());
        assert(buf@ =~= start + buf@.subrange(start.len() as int, buf@.len() as int));
        assert(buf@.subrange(start.len() as int, buf@.len() as int) + Seq::<u8>::empty() =~= buf@.subrange(start.len() as int, buf@.len() as int));
    }
    Ok(())
}

/// Appends a byte string: its tag, its length byte, then its bytes.
fn write_bytes(s: &[u8], buf: &mut Vec<u8>) -> (r: Result<(), Error>)
    ensures
        encode(Tree::Bytes(s@)) is Ok ==> r is Ok && final(buf)@ == old(buf)@ + encode(Tree::Bytes(s@))->Ok_0,
        encode(Tree::Bytes(s@)) is Err ==> r == Err::<(), Error>(Error::EncodeOverflow) && final(buf)@ == old(buf)@,
{
    if s.len() > MAX_FRAME {
        Err(Error::EncodeOverflow)
    } else {
        buf.push(TAG_BYTES);
        buf.push(s.len() as u8);
        let mut i: usize = 0;
        while i < s.len()
            invariant
                0 <= i <= s@.len(),
                buf@ == old(buf)@ + seq![TAG_BYTES, s@.len() as u8] + s@.subrange(0, i as int),
            decreases s@.len() - i,
        {
            buf.push(s[i]);
            proof {
                assert(s@.subrange(0, i + 1) =~= s@.subrange(0, i as int).push(s@[i as int]));
            }
            i = i + 1;
        }
        proof {
            assert(s@.subrange(0, i as int) =~= s@);
        }
        Ok(())
    }
}

} // verus!
