//! Match spans as the ranking engine reports them.

use vstd::prelude::*;

verus! {

/// One match of the query inside a raw field: `char_length` characters from
/// character `char_index` of the field numbered `attribute`.
#[derive(Clone, Copy, Debug, PartialEq, Eq, Hash, Structural)]
pub struct Highlight {
    pub attribute: u16,
    pub char_index: u16,
    pub char_length: u16,
}

} // verus!
