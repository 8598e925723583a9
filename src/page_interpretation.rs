use vstd::prelude::*;

verus! {

/// Column types that a page's records can hold.
#[derive(Clone, Copy, Debug, PartialEq, Eq, Structural)]
pub enum TupleFieldTypes {
    INT,
    SIGNEDINT,
    DOUBLE,
    CHAR,
    TEXT256,
    BOOL,
}

} // verus!
