//! Laws of the format: what holds across encode and decode.
use crate::value::Tree;
use crate::wire::{
    decode, encode, encode_items, encode_pairs, frame, frame_at, frame_end, parse, parse_items, parse_pairs,
    Error, SMALL_BASE, TAG_BYTES, TAG_F32, TAG_F64, TAG_I32, TAG_I64, TAG_MAP_END, TAG_MAP_START, TAG_SEQ_END,
    TAG_SEQ_START, TAG_SOME,
};
use vstd::bytes::{
    lemma_auto_spec_u32_to_from_le_bytes, lemma_auto_spec_u64_to_from_le_bytes, spec_u32_from_le_bytes,
    spec_u64_from_le_bytes,
};
use vstd::prelude::*;

verus! {

/// A frame that lies inside the first `m` bytes reads the same from those bytes alone.
proof fn lemma_frame_at_prefix(b: Seq<u8>, m: int, pos: int)
    requires
        0 <= pos < m <= b.len(),
        frame_end(b, pos) <= m,
    ensures
        frame_at(b.subrange(0, m), pos) == frame_at(b, pos),
{
    let p = b.subrange(0, m);
    assert(p[pos] == b[pos]);
    assert(p.subrange(pos + 1, frame_end(b, pos)) =~= b.subrange(pos + 1, frame_end(b, pos)));
}

/// What reading a strict prefix of a well-formed extent gives: truncation, or a
/// value that takes the whole prefix.
spec fn cut_short<A>(r: Result<(A, nat), Error>, m: int) -> bool {
    r == Err::<(A, nat), Error>(Error::Truncated) || (r is Ok && r->Ok_0.1 == m)
}

/// Cutting a list's bytes before its end tag leaves it truncated, unless the
/// cut lands just after a byte that then reads as the end tag.
proof fn lemma_prefix_items(b: Seq<u8>, m: int, pos: nat)
    requires
        parse_items(b, pos) is Ok,
        0 <= m < b.len(),
    ensures
        cut_short(parse_items(b.subrange(0, m), pos), m),
    decreases b.len() - pos,
{
    let p = b.subrange(0, m);
    if pos < m {
        assert(p[pos as int] == b[pos as int]);
        if !(pos + 1 == m && b[pos as int] == TAG_SEQ_END) && m >= frame_end(b, pos as int) {
            lemma_frame_at_prefix(b, m, pos as int);
            lemma_prefix_items(b, m, frame_end(b, pos as int) as nat);
        }
    }
}

/// Cutting an association's bytes before its end tag leaves it truncated,
/// unless the cut lands just after a byte that then reads as the end tag.
proof fn lemma_prefix_pairs(b: Seq<u8>, m: int, pos: nat)
    requires
        parse_pairs(b, pos) is Ok,
        0 <= m < b.len(),
    ensures
        cut_short(parse_pairs(b.subrange(0, m), pos), m),
    decreases b.len() - pos,
{
    let p = b.subrange(0, m);
    if pos < m {
        assert(p[pos as int] == b[pos as int]);
        if !(pos + 1 == m && b[pos as int] == TAG_MAP_END) && m >= frame_end(b, pos as int) {
            lemma_frame_at_prefix(b, m, pos as int);
            let mid = frame_end(b, pos as int);
            if mid < m {
                assert(p[mid] == b[mid]);
                if m >= frame_end(b, mid) {
                    lemma_frame_at_prefix(b, m, mid);
                    lemma_prefix_pairs(b, m, frame_end(b, mid) as nat);
                }
            }
        }
    }
}

/// Cutting a value's bytes before its end leaves it truncated, unless what is
/// left reads, whole, as a value of its own.
proof fn lemma_prefix_parse(b: Seq<u8>, m: int)
    requires
        parse(b) is Ok,
        0 <= m < parse(b)->Ok_0.1,
        m < b.len(),
    ensures
        cut_short(parse(b.subrange(0, m)), m),
{
    let p = b.subrange(0, m);
    if m > 0 {
        assert(p[0] == b[0]);
    }
    if m > 1 {
        assert(p[1] == b[1]);
    }
    if m > 0 && b[0] == TAG_SEQ_START {
        lemma_prefix_items(b, m, 1);
    }
    if m > 0 && b[0] == TAG_MAP_START {
        lemma_prefix_pairs(b, m, 1);
    }
}

/// Truncation: a strict prefix of a buffer that decodes, and that is not
/// itself the encoding of any tree, fails to decode, as truncated.
pub proof fn lemma_strict_prefix_truncated(b: Seq<u8>, m: int)
    requires
        decode(b) is Ok,
        0 <= m < b.len(),
        forall|w: Tree| #[trigger] encode(w) != Ok::<Seq<u8>, Error>(b.subrange(0, m)),
    ensures
        decode(b.subrange(0, m)) == Err::<Tree, Error>(Error::Truncated),
{
    let p = b.subrange(0, m);
    lemma_prefix_parse(b, m);
    if decode(p) is Ok {
        lemma_reencode(p);
        assert(encode(decode(p)->Ok_0) == Ok::<Seq<u8>, Error>(p));
    }
}

/// A frame that reads is the frame of what it reads to.
proof fn lemma_reencode_frame(b: Seq<u8>, pos: int)
    requires
        frame_at(b, pos) is Ok,
    ensures
        frame_end(b, pos) <= b.len(),
        frame_at(b, pos)->Ok_0.1 == frame_end(b, pos),
        frame(encode(frame_at(b, pos)->Ok_0.0)) == Ok::<Seq<u8>, Error>(b.subrange(pos, frame_end(b, pos))),
    decreases b.len(), 0int,
{
    let end = frame_end(b, pos);
    let body = b.subrange(pos + 1, end);
    lemma_reencode_parse(body);
    assert(body.subrange(0, body.len() as int) =~= body);
    assert(b.subrange(pos, end) =~= seq![b[pos]] + body);
}

/// The elements a list reads to encode back to the frames they were read from.
proof fn lemma_reencode_items(b: Seq<u8>, pos: nat)
    requires
        parse_items(b, pos) is Ok,
    ensures
        pos < parse_items(b, pos)->Ok_0.1 <= b.len(),
        b[parse_items(b, pos)->Ok_0.1 - 1] == TAG_SEQ_END,
        encode_items(parse_items(b, pos)->Ok_0.0) == Ok::<Seq<u8>, Error>(
            b.subrange(pos as int, parse_items(b, pos)->Ok_0.1 - 1),
        ),
    decreases b.len(), b.len() - pos,
{
    if pos + 1 == b.len() && b[pos as int] == TAG_SEQ_END {
        assert(b.subrange(pos as int, pos as int) =~= Seq::<u8>::empty());
    } else {
        let end = frame_end(b, pos as int);
        lemma_reencode_frame(b, pos as int);
        lemma_reencode_items(b, end as nat);
        let t = frame_at(b, pos as int)->Ok_0.0;
        let rest = parse_items(b, end as nat)->Ok_0.0;
        let stop = parse_items(b, end as nat)->Ok_0.1;
        let ts = seq![t] + rest;
        assert(ts[0] == t);
        assert(ts.subrange(1, ts.len() as int) =~= rest);
        assert(b.subrange(pos as int, end) + b.subrange(end, stop - 1) =~= b.subrange(pos as int, stop - 1));
    }
}

/// The pairs an association reads to encode back to the frames they were read from.
proof fn lemma_reencode_pairs(b: Seq<u8>, pos: nat)
    requires
        parse_pairs(b, pos) is Ok,
    ensures
        pos < parse_pairs(b, pos)->Ok_0.1 <= b.len(),
        b[parse_pairs(b, pos)->Ok_0.1 - 1] == TAG_MAP_END,
        encode_pairs(parse_pairs(b, pos)->Ok_0.0) == Ok::<Seq<u8>, Error>(
            b.subrange(pos as int, parse_pairs(b, pos)->Ok_0.1 - 1),
        ),
    decreases b.len(), b.len() - pos,
{
    if pos + 1 == b.len() && b[pos as int] == TAG_MAP_END {
        assert(b.subrange(pos as int, pos as int) =~= Seq::<u8>::empty());
    } else {
        let mid = frame_end(b, pos as int);
        let end = frame_end(b, mid);
        lemma_reencode_frame(b, pos as int);
        lemma_reencode_frame(b, mid);
        lemma_reencode_pairs(b, end as nat);
        let k = frame_at(b, pos as int)->Ok_0.0;
        let v = frame_at(b, mid)->Ok_0.0;
        let rest = parse_pairs(b, end as nat)->Ok_0.0;
        let stop = parse_pairs(b, end as nat)->Ok_0.1;
        let ps = seq![(k, v)] + rest;
        assert(ps[0] == (k, v));
        assert(ps.subrange(1, ps.len() as int) =~= rest);
        assert(b.subrange(pos as int, mid) + b.subrange(mid, end) + b.subrange(end, stop - 1) =~= b.subrange(
            pos as int,
            stop - 1,
        ));
    }
}

/// A value that reads encodes back to the bytes it was read from.
proof fn lemma_reencode_parse(b: Seq<u8>)
    requires
        parse(b) is Ok,
    ensures
        parse(b)->Ok_0.1 <= b.len(),
        encode(parse(b)->Ok_0.0) == Ok::<Seq<u8>, Error>(b.subrange(0, parse(b)->Ok_0.1 as int)),
    decreases b.len(), b.len() + 1,
{
    let tag = b[0];
    if tag == TAG_I64 || tag == TAG_F64 {
        let s = b.subrange(1, 9);
        let x = spec_u64_from_le_bytes(s);
        lemma_auto_spec_u64_to_from_le_bytes();
        assert((x as i64) as u64 == x) by (bit_vector);
        assert(b.subrange(0, 9) =~= seq![tag] + s);
    } else if tag == TAG_I32 || tag == TAG_F32 {
        let s = b.subrange(1, 5);
        let x = spec_u32_from_le_bytes(s);
        lemma_auto_spec_u32_to_from_le_bytes();
        assert((x as i32) as u32 == x) by (bit_vector);
        assert(b.subrange(0, 5) =~= seq![tag] + s);
    } else if tag == TAG_BYTES {
        let end = frame_end(b, 1);
        assert(b.subrange(0, end) =~= seq![TAG_BYTES, b[1]] + b.subrange(2, end));
    } else if tag == TAG_SOME {
        lemma_reencode_frame(b, 1);
        assert(b.subrange(0, frame_end(b, 1)) =~= seq![TAG_SOME] + b.subrange(1, frame_end(b, 1)));
    } else if tag == TAG_SEQ_START {
        lemma_reencode_items(b, 1);
        let stop = parse_items(b, 1)->Ok_0.1;
        assert(b.subrange(0, stop as int) =~= seq![TAG_SEQ_START] + b.subrange(1, stop - 1) + seq![TAG_SEQ_END]);
    } else if tag == TAG_MAP_START {
        lemma_reencode_pairs(b, 1);
        let stop = parse_pairs(b, 1)->Ok_0.1;
        assert(b.subrange(0, stop as int) =~= seq![TAG_MAP_START] + b.subrange(1, stop - 1) + seq![TAG_MAP_END]);
    } else if tag == crate::wire::TAG_U8 {
        assert(b.subrange(0, 2) =~= seq![tag, b[1]]);
    } else if tag >= SMALL_BASE {
        let x = (tag - SMALL_BASE) as u8;
        assert(x <= crate::wire::SMALL_MAX);
        assert((x + SMALL_BASE) as u8 == tag);
        assert(b.subrange(0, 1) =~= seq![tag]);
    } else {
        assert(b.subrange(0, 1) =~= seq![tag]);
    }
}

/// Re-encoding: a buffer that decodes is, byte for byte, the encoding of the
/// value it decodes to.
pub proof fn lemma_reencode(b: Seq<u8>)
    requires
        decode(b) is Ok,
    ensures
        encode(decode(b)->Ok_0) == Ok::<Seq<u8>, Error>(b),
{
    lemma_reencode_parse(b);
    assert(b.subrange(0, b.len() as int) =~= b);
}

/// The frame of `t`, placed at `pos` in `b`, reads back to `t`.
proof fn lemma_round_trip_frame(t: Tree, b: Seq<u8>, pos: int)
    requires
        frame(encode(t)) is Ok,
        0 <= pos,
        pos + frame(encode(t))->Ok_0.len() <= b.len(),
        b.subrange(pos, pos + frame(encode(t))->Ok_0.len() as int) == frame(encode(t))->Ok_0,
    ensures
        b[pos] as nat == encode(t)->Ok_0.len(),
        frame_end(b, pos) == pos + frame(encode(t))->Ok_0.len(),
        frame_at(b, pos) == Ok::<(Tree, nat), Error>((t, frame_end(b, pos) as nat)),
    decreases t, 2nat,
{
    let e = encode(t)->Ok_0;
    let f = frame(encode(t))->Ok_0;
    assert(b[pos] == f[0]);
    lemma_round_trip_parse(t);
    assert(f.subrange(1, f.len() as int) =~= e);
    assert(b.subrange(pos + 1, pos + f.len() as int) =~= b.subrange(pos, pos + f.len() as int).subrange(1, f.len() as int));
    assert(b.subrange(pos + 1, pos + f.len() as int) =~= e);
}

/// The frames of `items`, followed by the end tag, read back to `items`.
proof fn lemma_round_trip_items(items: Seq<Tree>, b: Seq<u8>, pos: int)
    requires
        encode_items(items) is Ok,
        0 <= pos,
        pos + encode_items(items)->Ok_0.len() < b.len(),
        b.subrange(pos, pos + encode_items(items)->Ok_0.len() as int) == encode_items(items)->Ok_0,
        b[pos + encode_items(items)->Ok_0.len() as int] == TAG_SEQ_END,
        b.len() == pos + encode_items(items)->Ok_0.len() + 1,
    ensures
        parse_items(b, pos as nat) == Ok::<(Seq<Tree>, nat), Error>(
            (items, (pos + encode_items(items)->Ok_0.len() + 1) as nat),
        ),
    decreases items, 0nat,
{
    let body = encode_items(items)->Ok_0;
    if items.len() == 0 {
        assert(items =~= Seq::<Tree>::empty());
    } else {
        let t = items[0];
        let rest = items.subrange(1, items.len() as int);
        let f = frame(encode(t))->Ok_0;
        let rb = encode_items(rest)->Ok_0;
        let fl = f.len() as int;
        let rl = rb.len() as int;
        assert(body == f + rb);
        assert(b.subrange(pos, pos + fl) =~= f) by {
            assert(b.subrange(pos, pos + fl) =~= body.subrange(0, fl));
        }
        lemma_round_trip_frame(t, b, pos);
        assert(b[pos] == f[0]) by {
            assert(body[0] == f[0]);
        }
        assert(b.subrange(pos + fl, pos + fl + rl) =~= rb) by {
            assert(b.subrange(pos + fl, pos + fl + rl) =~= body.subrange(fl, body.len() as int));
        }
        lemma_round_trip_items(rest, b, pos + fl);
        assert(seq![t] + rest =~= items);
    }
}

/// The frames of `pairs`, followed by the end tag, read back to `pairs`.
proof fn lemma_round_trip_pairs(pairs: Seq<(Tree, Tree)>, b: Seq<u8>, pos: int)
    requires
        encode_pairs(pairs) is Ok,
        0 <= pos,
        pos + encode_pairs(pairs)->Ok_0.len() < b.len(),
        b.subrange(pos, pos + encode_pairs(pairs)->Ok_0.len() as int) == encode_pairs(pairs)->Ok_0,
        b[pos + encode_pairs(pairs)->Ok_0.len() as int] == TAG_MAP_END,
        b.len() == pos + encode_pairs(pairs)->Ok_0.len() + 1,
    ensures
        parse_pairs(b, pos as nat) == Ok::<(Seq<(Tree, Tree)>, nat), Error>(
            (pairs, (pos + encode_pairs(pairs)->Ok_0.len() + 1) as nat),
        ),
    decreases pairs, 0nat,
{
    let body = encode_pairs(pairs)->Ok_0;
    if pairs.len() == 0 {
        assert(pairs =~= Seq::<(Tree, Tree)>::empty());
    } else {
        let k = pairs[0].0;
        let v = pairs[0].1;
        let rest = pairs.subrange(1, pairs.len() as int);
        let fk = frame(encode(k))->Ok_0;
        let fv = frame(encode(v))->Ok_0;
        let rb = encode_pairs(rest)->Ok_0;
        let kl = fk.len() as int;
        let vl = fv.len() as int;
        let rl = rb.len() as int;
        assert(body == fk + fv + rb);
        assert(b.subrange(pos, pos + kl) =~= fk) by {
            assert(b.subrange(pos, pos + kl) =~= body.subrange(0, kl));
        }
        lemma_round_trip_frame(k, b, pos);
        assert(b[pos] == fk[0]) by {
            assert(body[0] == fk[0]);
        }
        let mid = pos + kl;
        assert(b.subrange(mid, mid + vl) =~= fv) by {
            assert(b.subrange(mid, mid + vl) =~= body.subrange(kl, kl + vl));
        }
        lemma_round_trip_frame(v, b, mid);
        let end = mid + vl;
        assert(b.subrange(end, end + rl) =~= rb) by {
            assert(b.subrange(end, end + rl) =~= body.subrange(kl + vl, body.len() as int));
        }
        lemma_round_trip_pairs(rest, b, end);
        assert(seq![(k, v)] + rest =~= pairs);
    }
}

/// An encoding reads back, whole, to the tree it encodes.
proof fn lemma_round_trip_parse(t: Tree)
    requires
        encode(t) is Ok,
    ensures
        parse(encode(t)->Ok_0) == Ok::<(Tree, nat), Error>((t, encode(t)->Ok_0.len())),
    decreases t, 1nat,
{
    let e = encode(t)->Ok_0;
    match t {
        Tree::I64(x) => {
            lemma_auto_spec_u64_to_from_le_bytes();
            assert(e.subrange(1, 9) =~= vstd::bytes::spec_u64_to_le_bytes(x as u64));
            assert((x as u64) as i64 == x) by (bit_vector);
        },
        Tree::F64(x) => {
            lemma_auto_spec_u64_to_from_le_bytes();
            assert(e.subrange(1, 9) =~= vstd::bytes::spec_u64_to_le_bytes(x));
        },
        Tree::I32(x) => {
            lemma_auto_spec_u32_to_from_le_bytes();
            assert(e.subrange(1, 5) =~= vstd::bytes::spec_u32_to_le_bytes(x as u32));
            assert((x as u32) as i32 == x) by (bit_vector);
        },
        Tree::F32(x) => {
            lemma_auto_spec_u32_to_from_le_bytes();
            assert(e.subrange(1, 5) =~= vstd::bytes::spec_u32_to_le_bytes(x));
        },
        Tree::SmallU8(x) => {
            assert(((x + SMALL_BASE) as u8 - SMALL_BASE) as u8 == x);
        },
        Tree::Bytes(s) => {
            assert(e.subrange(2, 2 + s.len() as int) =~= s);
        },
        Tree::List(items) => {
            let body = encode_items(items)->Ok_0;
            assert(e =~= seq![TAG_SEQ_START] + body + seq![crate::wire::TAG_SEQ_END]);
            assert(e.subrange(1, 1 + body.len() as int) =~= body);
            lemma_round_trip_items(items, e, 1);
        },
        Tree::Assoc(pairs) => {
            let body = encode_pairs(pairs)->Ok_0;
            assert(e =~= seq![TAG_MAP_START] + body + seq![TAG_MAP_END]);
            assert(e.subrange(1, 1 + body.len() as int) =~= body);
            lemma_round_trip_pairs(pairs, e, 1);
        },
        Tree::Opt(Some(inner)) => {
            let f = frame(encode(*inner))->Ok_0;
            assert(e.subrange(1, 1 + f.len() as int) =~= f);
            lemma_round_trip_frame(*inner, e, 1);
        },
        _ => {},
    }
}

/// Round trip: every tree that encodes decodes from its encoding to itself.
pub proof fn lemma_round_trip(t: Tree)
    requires
        encode(t) is Ok,
    ensures
        decode(encode(t)->Ok_0) == Ok::<Tree, Error>(t),
{
    lemma_round_trip_parse(t);
}

/// Truncation, for encodings: a strict prefix of the encoding of a tree, cut
/// where it is not itself the encoding of a tree, fails to decode, as truncated.
pub proof fn lemma_encoding_prefix_truncated(t: Tree, m: int)
    requires
        encode(t) is Ok,
        0 <= m < encode(t)->Ok_0.len(),
        forall|w: Tree| #[trigger] encode(w) != Ok::<Seq<u8>, Error>(encode(t)->Ok_0.subrange(0, m)),
    ensures
        decode(encode(t)->Ok_0.subrange(0, m)) == Err::<Tree, Error>(Error::Truncated),
{
    lemma_round_trip(t);
    lemma_strict_prefix_truncated(encode(t)->Ok_0, m);
}

/// The frame of each element of `items`, in order.
pub open spec fn frames_of(items: Seq<Tree>) -> Seq<Seq<u8>> {
    items.map_values(|t: Tree| frame(encode(t))->Ok_0)
}

/// The frames of a list's elements succeed when each frame does, and then lie
/// one after the other.
proof fn lemma_items_layout(items: Seq<Tree>)
    ensures
        encode_items(items) is Ok <==> forall|i: int|
            0 <= i < items.len() ==> #[trigger] frame(encode(items[i])) is Ok,
        encode_items(items) is Ok ==> encode_items(items)->Ok_0 == frames_of(items).flatten(),
    decreases items.len(),
{
    if items.len() > 0 {
        let rest = items.subrange(1, items.len() as int);
        lemma_items_layout(rest);
        assert(frames_of(items).drop_first() =~= frames_of(rest));
        assert(frames_of(items).first() == frame(encode(items[0]))->Ok_0);
        assert forall|i: int| 0 <= i < rest.len() implies rest[i] == items[i + 1] by {}
        if forall|i: int| 0 <= i < items.len() ==> #[trigger] frame(encode(items[i])) is Ok {
            assert forall|i: int| 0 <= i < rest.len() implies #[trigger] frame(encode(rest[i])) is Ok by {
                assert(frame(encode(items[i + 1])) is Ok);
            }
        }
        if encode_items(items) is Ok {
            assert forall|i: int| 0 <= i < items.len() implies #[trigger] frame(encode(items[i])) is Ok by {
                if i > 0 {
                    assert(frame(encode(rest[i - 1])) is Ok);
                }
            }
        }
    } else {
        assert(frames_of(items).flatten() =~= Seq::<u8>::empty());
    }
}

/// Sentinel layout: a list of k elements encodes exactly when each element's
/// frame does; then its encoding is the start tag, the k frames in order, and
/// the end tag, with nothing between the last frame and the end tag.
pub proof fn lemma_list_layout(items: Seq<Tree>)
    ensures
        encode(Tree::List(items)) is Ok <==> forall|i: int|
            0 <= i < items.len() ==> #[trigger] frame(encode(items[i])) is Ok,
        encode(Tree::List(items)) is Ok ==> encode(Tree::List(items))->Ok_0 == seq![TAG_SEQ_START]
            + frames_of(items).flatten() + seq![TAG_SEQ_END],
        frames_of(items).len() == items.len(),
{
    lemma_items_layout(items);
}

} // verus!
