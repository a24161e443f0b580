use vstd::prelude::*;

verus! {

/// Why a matching operation was refused.
#[derive(Clone, Copy, Debug, PartialEq, Eq, Structural)]
pub enum MatchError {
    /// A neighbour count of zero, a query against an empty reference set, a
    /// descriptor too wide to measure, or two descriptors of different widths.
    InvalidArgument,
}

} // verus!
