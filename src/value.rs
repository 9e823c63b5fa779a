//! The value tree handed to the encoder and returned by the decoder, and its
//! mathematical model.
use crate::wire::SMALL_MAX;
use vstd::prelude::*;

verus! {

/// The mathematical model of a value: byte payloads are sequences, and the
/// borrowed and owned byte variants become one.
pub enum Tree {
    I64(i64),
    I32(i32),
    U8(u8),
    SmallU8(u8),
    F64(u64),
    F32(u32),
    Bool(bool),
    Bytes(Seq<u8>),
    List(Seq<Tree>),
    Assoc(Seq<(Tree, Tree)>),
    Opt(Option<Box<Tree>>),
}

/// A value tree. Floats are held as their IEEE-754 bit patterns. A byte
/// string is either borrowed (`Slice`, what the decoder gives) or owned
/// (`SliceLike`); both encode alike.
#[derive(Debug, PartialEq, Eq)]
pub enum Value<'a> {
    I64(i64),
    I32(i32),
    U8(u8),
    SmallU8(u8),
    F64(u64),
    F32(u32),
    Bool(bool),
    Slice(&'a [u8]),
    SliceLike(Vec<u8>),
    Vector(Vec<Value<'a>>),
    HashMap(Vec<(Value<'a>, Value<'a>)>),
    Optional(Option<Box<Value<'a>>>),
}

impl<'a> Value<'a> {
    /// The model of this value.
    pub open spec fn tree(self) -> Tree
        decreases self,
    {
        match self {
            Value::I64(x) => Tree::I64(x),
            Value::I32(x) => Tree::I32(x),
            Value::U8(x) => Tree::U8(x),
            Value::SmallU8(x) => Tree::SmallU8(x),
            Value::F64(x) => Tree::F64(x),
            Value::F32(x) => Tree::F32(x),
            Value::Bool(b) => Tree::Bool(b),
            Value::Slice(s) => Tree::Bytes(s@),
            Value::SliceLike(v) => Tree::Bytes(v@),
            Value::Vector(items) => Tree::List(trees_of(items@)),
            Value::HashMap(pairs) => Tree::Assoc(pair_trees_of(pairs@)),
            Value::Optional(None) => Tree::Opt(None),
            Value::Optional(Some(b)) => Tree::Opt(Some(Box::new((*b).tree()))),
        }
    }

    /// Every byte string in the tree is borrowed: none is an owned buffer.
    pub open spec fn borrows_only(self) -> bool
        decreases self,
    {
        match self {
            Value::SliceLike(_) => false,
            Value::Vector(items) => all_borrow(items@),
            Value::HashMap(pairs) => all_pairs_borrow(pairs@),
            Value::Optional(Some(b)) => (*b).borrows_only(),
            _ => true,
        }
    }
}

/// Every element of `s` borrows only.
pub open spec fn all_borrow<'a>(s: Seq<Value<'a>>) -> bool
    decreases s,
{
    forall|i: int| 0 <= i < s.len() ==> #[trigger] s[i].borrows_only()
}

/// Every key and every value of `s` borrows only.
pub open spec fn all_pairs_borrow<'a>(s: Seq<(Value<'a>, Value<'a>)>) -> bool
    decreases s,
{
    forall|i: int| 0 <= i < s.len() ==> #[trigger] s[i].0.borrows_only() && s[i].1.borrows_only()
}

/// The models of a list's elements, in order.
pub open spec fn trees_of<'a>(s: Seq<Value<'a>>) -> Seq<Tree>
    decreases s,
{
    if s.len() == 0 {
        Seq::empty()
    } else {
        seq![s[0].tree()] + trees_of(s.subrange(1, s.len() as int))
    }
}

/// The models of an association's pairs, in order.
pub open spec fn pair_trees_of<'a>(s: Seq<(Value<'a>, Value<'a>)>) -> Seq<(Tree, Tree)>
    decreases s,
{
    if s.len() == 0 {
        Seq::empty()
    } else {
        seq![(s[0].0.tree(), s[0].1.tree())] + pair_trees_of(s.subrange(1, s.len() as int))
    }
}

/// `trees_of` maps each element to its model, index by index.
pub proof fn lemma_trees_of<'a>(s: Seq<Value<'a>>)
    ensures
        trees_of(s).len() == s.len(),
        forall|i: int| 0 <= i < s.len() ==> #[trigger] trees_of(s)[i] == s[i].tree(),
    decreases s.len(),
{
    if s.len() > 0 {
        let rest = s.subrange(1, s.len() as int);
        lemma_trees_of(rest);
        assert forall|i: int| 0 <= i < s.len() implies #[trigger] trees_of(s)[i] == s[i].tree() by {
            if i > 0 {
                assert(rest[i - 1] == s[i]);
            }
        }
    }
}

/// `pair_trees_of` maps each pair to the pair of models, index by index.
pub proof fn lemma_pair_trees_of<'a>(s: Seq<(Value<'a>, Value<'a>)>)
    ensures
        pair_trees_of(s).len() == s.len(),
        forall|i: int|
            0 <= i < s.len() ==> #[trigger] pair_trees_of(s)[i] == (s[i].0.tree(), s[i].1.tree()),
    decreases s.len(),
{
    if s.len() > 0 {
        let rest = s.subrange(1, s.len() as int);
        lemma_pair_trees_of(rest);
        assert forall|i: int| 0 <= i < s.len() implies #[trigger] pair_trees_of(s)[i] == (
        s[i].0.tree(),
        s[i].1.tree(),
        ) by {
            if i > 0 {
                assert(rest[i - 1] == s[i]);
            }
        }
    }
}

impl<'a> Value<'a> {
    /// An unsigned byte in its shortest form: packed into the tag when it is
    /// at most 235, with a payload byte of its own above that.
    pub fn from_u8(u: u8) -> (r: Value<'a>)
        ensures
            u <= SMALL_MAX ==> r@ == Tree::SmallU8(u),
            u > SMALL_MAX ==> r@ == Tree::U8(u),
    {
        if u <= SMALL_MAX {
            Value::SmallU8(u)
        } else {
            Value::U8(u)
        }
    }

    /// The bytes of a byte string, borrowed or owned; `None` for any other value.
    pub fn as_slice(&self) -> (r: Option<&[u8]>)
        ensures
            self@ is Bytes ==> r is Some && r->Some_0@ == self@->Bytes_0,
            !(self@ is Bytes) ==> r is None,
    {
        match self {
            Value::Slice(s) => Some(*s),
            Value::SliceLike(v) => Some(v.as_slice()),
            _ => None,
        }
    }
}

impl<'a> View for Value<'a> {
    type V = Tree;

    open spec fn view(&self) -> Tree {
        self.tree()
    }
}

} // verus!
