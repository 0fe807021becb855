use vstd::prelude::*;

use crate::index_path::IndexPathState;
use crate::indexer::Indexer;
use crate::indexer::Seg;
use crate::value::Val;
use crate::value::Value;

verus! {

/// Spec-level form of an Error.
pub enum ErrVal {
    CouldNotConvertToMap(Val),
    CouldNotAppend(Val, Option<Seg>, Val),
    CouldNotParseIndexer(Option<char>, IndexPathState, Seq<char>),
}

/// What can go wrong: a list whose elements are not all strings was
/// asked to become a map, an append that no merge rule accepts, or
/// malformed bracket syntax in a path string.
#[derive(Debug)]
pub enum Error {
    CouldNotConvertToMap(Value),
    CouldNotAppend(Value, Option<Indexer>, Value),
    CouldNotParseIndexer(Option<char>, IndexPathState, String),
}

impl View for Error {
    type V = ErrVal;

    open spec fn view(&self) -> ErrVal {
        match self {
            Error::CouldNotConvertToMap(v) => ErrVal::CouldNotConvertToMap(v@),
            Error::CouldNotAppend(n, ix, v) => ErrVal::CouldNotAppend(
                n@,
                match ix {
                    Some(x) => Some(x@),
                    None => None,
                },
                v@,
            ),
            Error::CouldNotParseIndexer(c, st, orig) => ErrVal::CouldNotParseIndexer(
                *c,
                *st,
                orig@,
            ),
        }
    }
}

} // verus!
