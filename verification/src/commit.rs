//! What a commit does to a key.
use vstd::prelude::*;
use vstd::slice::slice_to_vec;

verus! {

/// A write to one key.
#[derive(Clone, Debug, PartialEq, Eq)]
pub enum Op {
    Put(Vec<u8>),
    Delete,
}

impl View for Op {
    type V = Option<Seq<u8>>;

    /// The value put, or nothing for a tombstone.
    open spec fn view(&self) -> Option<Seq<u8>> {
        match self {
            Op::Put(v) => Some(v@),
            Op::Delete => None,
        }
    }
}

impl Op {
    /// The same write again.
    pub fn copy(&self) -> (r: Op)
        ensures
            r@ == self@,
    {
        match self {
            Op::Put(v) => Op::Put(slice_to_vec(v.as_slice())),
            Op::Delete => Op::Delete,
        }
    }
}

/// A key with what was written to it.
pub type Entry = (Vec<u8>, Op);

/// An entry as a mathematical value: the key, and the value put or nothing.
pub type EntryView = (Seq<u8>, Option<Seq<u8>>);

pub open spec fn entries_view(es: Seq<Entry>) -> Seq<EntryView> {
    Seq::new(es.len(), |i: int| (es[i].0@, es[i].1@))
}

} // verus!
