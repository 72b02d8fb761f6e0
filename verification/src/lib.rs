//! Unambiguous-prefix resolution for fixed-format hexadecimal identifiers.
//!
//! A sorted index of `(key, value)` entries answers three questions about
//! a partial, possibly odd-length, hex string: does it match no key,
//! exactly one key (returning every value attached to that key, duplicates
//! included), or several distinct keys?  The inverse question — how many
//! leading hex digits of an identifier are needed to tell it apart from
//! every other key — is answered from the two sorted neighbours of the
//! identifier's insertion position alone.  A thin context routes commit-id
//! and change-id queries to the right index of a repository snapshot.

mod context;
mod digits;
mod ids;
mod index;
mod laws;
mod order;
mod prefix;
mod resolution;

pub use context::IdPrefixContext;
pub use digits::{common_dlen, digits_of_bytes, hex_digit_values, is_hex_char_byte, min_bytes_of};
pub use ids::{common_hex_len, ChangeId, CommitId, Id};
pub use index::{entry_matches, matched_of, shortest_unique_len_of, IdIndex};
pub use laws::{
    lemma_ambiguous_iff_two_keys, lemma_far_key_does_not_change_shortest,
    lemma_has_key_agrees_with_full_query, lemma_nearer_neighbor_shares_more,
    lemma_no_match_iff_empty_range, lemma_shortest_unique_prefix_resolves,
    lemma_single_match_collects_run,
};
pub use order::{eq_bytes, lex_le, lex_lt, lt_bytes};
pub use prefix::HexPrefix;
pub use resolution::{all_same_key, resolution_of, values_of, PrefixResolution};
