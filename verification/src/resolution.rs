//! The three-way outcome of a prefix resolution query.

use vstd::prelude::*;

use crate::ids::Id;

verus! {

/// The outcome of resolving a prefix query: no key matched, every matched
/// entry shared one key (carrying the aggregated values), or the matches
/// spanned two or more distinct keys.
#[derive(Debug, Clone, PartialEq, Eq)]
pub enum PrefixResolution<T> {
    NoMatch,
    SingleMatch(T),
    AmbiguousMatch,
}

/// Do all entries of `m` carry the same key?
pub open spec fn all_same_key<V>(m: Seq<(Id, V)>) -> bool {
    forall|i: int| 0 <= i < m.len() ==> #[trigger] m[i].0@ == m[0].0@
}

/// The values of the entries of `m`, in entry order, duplicates included.
pub open spec fn values_of<V>(m: Seq<(Id, V)>) -> Seq<V> {
    m.map_values(|e: (Id, V)| e.1)
}

/// The outcome determined by the sequence of matched entries: empty means
/// `NoMatch`; one key means `SingleMatch` of every matched value in entry
/// order, duplicates included; two or more distinct keys mean
/// `AmbiguousMatch`.
pub open spec fn resolution_of<V>(m: Seq<(Id, V)>) -> PrefixResolution<Seq<V>> {
    if m.len() == 0 {
        PrefixResolution::NoMatch
    } else if all_same_key(m) {
        PrefixResolution::SingleMatch(values_of(m))
    } else {
        PrefixResolution::AmbiguousMatch
    }
}

} // verus!
