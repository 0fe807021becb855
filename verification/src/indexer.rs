use vstd::prelude::*;

use crate::encoding::decode_of;
use crate::encoding::percent_decode;

verus! {

/// Spec-level form of one path segment.
pub enum Seg {
    Num(int),
    Key(Seq<char>),
    Append,
}

/// A segment as this library produces it: numeric indices fit in usize.
pub open spec fn seg_ok(s: Seg) -> bool {
    match s {
        Seg::Num(n) => 0 <= n <= usize::MAX,
        _ => true,
    }
}

/// Every numeric segment of the path fits in usize.
pub open spec fn path_ok(p: Seq<Seg>) -> bool {
    forall|i: int| 0 <= i < p.len() ==> seg_ok(#[trigger] p[i])
}

/// One unit of a bracket path: a numeric list index, a percent-decoded
/// map key, or the anonymous append marker written `[]`.
#[derive(Debug, PartialEq, Eq)]
pub enum Indexer {
    Number(usize),
    String(String),
    Empty,
}

impl View for Indexer {
    type V = Seg;

    open spec fn view(&self) -> Seg {
        match self {
            Indexer::Number(n) => Seg::Num(*n as int),
            Indexer::String(s) => Seg::Key(s@),
            Indexer::Empty => Seg::Append,
        }
    }
}

impl Clone for Indexer {
    /// A copy with the same model.
    fn clone(&self) -> (r: Self)
        ensures
            r@ == self@,
    {
        match self {
            Indexer::Number(n) => Indexer::Number(*n),
            Indexer::String(s) => Indexer::String(s.clone()),
            Indexer::Empty => Indexer::Empty,
        }
    }
}

impl Indexer {
    /// A key segment; the text is percent-decoded once, at construction.
    pub fn key(s: &str) -> (r: Indexer)
        ensures
            r@ == Seg::Key(decode_of(s@)),
    {
        Indexer::String(percent_decode(s))
    }

    /// A numeric list-index segment.
    pub fn number(n: usize) -> (r: Indexer)
        ensures
            r@ == Seg::Num(n as int),
    {
        Indexer::Number(n)
    }
}

} // verus!
