//! The laws the index obeys, stated over the spec functions its contracts
//! use and proved once for every index and query.

use vstd::prelude::*;

use crate::digits::{
    common_dlen, digits_of_bytes, lemma_common_between_bytes, lemma_common_dlen_at_least,
    lemma_common_dlen_props, lemma_digits_injective,
};
use crate::ids::Id;
use crate::index::{
    entry_matches, lemma_shortest_unique_characterization, matched_of, shortest_unique_len_of,
    IdIndex,
};
use crate::order::{lex_le, lex_lt};
use crate::resolution::{all_same_key, resolution_of, values_of, PrefixResolution};

verus! {

/// Every element of the matched run is an entry of the index and matches
/// the query's digits.
proof fn lemma_matched_entry_origin<V>(s: Seq<(Id, V)>, p: Seq<u8>, i: int)
    requires
        0 <= i < matched_of(s, p).len(),
    ensures
        exists|j: int| 0 <= j < s.len() && s[j] == matched_of(s, p)[i],
        entry_matches(p, matched_of(s, p)[i]),
    decreases s.len(),
{
    reveal(Seq::filter);
    broadcast use vstd::seq_lib::group_filter_ensures;

    let m = matched_of(s, p);
    if s.len() > 0 {
        let s0 = s.drop_last();
        let m0 = matched_of(s0, p);
        if entry_matches(p, s.last()) {
            assert(m == m0.push(s.last()));
            if i < m0.len() {
                lemma_matched_entry_origin(s0, p, i);
                let j = choose|j: int| 0 <= j < s0.len() && s0[j] == m0[i];
                assert(s[j] == m[i]);
            } else {
                assert(m[i] == s.last());
                assert(s[s.len() - 1] == m[i]);
            }
        } else {
            assert(m == m0);
            lemma_matched_entry_origin(s0, p, i);
            let j = choose|j: int| 0 <= j < s0.len() && s0[j] == m0[i];
            assert(s[j] == m[i]);
        }
    }
}

/// Resolution answers `NoMatch` exactly when the prefix-range lookup finds
/// nothing: for every index and query, `resolution_of` of the matched run
/// is `NoMatch` if and only if that run is empty.
pub proof fn lemma_no_match_iff_empty_range<V>(idx: IdIndex<V>, p: Seq<u8>)
    ensures
        (resolution_of(matched_of(idx@, p)) is NoMatch) <==> matched_of(idx@, p).len() == 0,
{
}

/// When resolution answers `SingleMatch`, every matched entry carries the
/// same key, and the payload holds exactly one value per matched entry, in
/// index order, duplicates included.
pub proof fn lemma_single_match_collects_run<V>(idx: IdIndex<V>, p: Seq<u8>)
    requires
        resolution_of(matched_of(idx@, p)) is SingleMatch,
    ensures
        ({
            let m = matched_of(idx@, p);
            &&& m.len() > 0
            &&& all_same_key(m)
            &&& resolution_of(m)->SingleMatch_0 == values_of(m)
            &&& values_of(m).len() == m.len()
            &&& forall|i: int| 0 <= i < m.len() ==> values_of(m)[i] == (#[trigger] m[i]).1
        }),
{
}

/// When two or more distinct keys appear in the matched run — and only
/// then — the outcome is `AmbiguousMatch`, however many distinct keys
/// there are.
pub proof fn lemma_ambiguous_iff_two_keys<V>(idx: IdIndex<V>, p: Seq<u8>)
    ensures
        (exists|i: int, j: int|
            0 <= i < matched_of(idx@, p).len() && 0 <= j < matched_of(idx@, p).len() && (
            #[trigger] matched_of(idx@, p)[i]).0@ != (#[trigger] matched_of(idx@, p)[j]).0@)
            <==> (resolution_of(matched_of(idx@, p)) is AmbiguousMatch),
{
    let m = matched_of(idx@, p);
    if exists|i: int, j: int|
        0 <= i < m.len() && 0 <= j < m.len() && (#[trigger] m[i]).0@ != (#[trigger] m[j]).0@ {
        let (i, j) = choose|i: int, j: int|
            0 <= i < m.len() && 0 <= j < m.len() && (#[trigger] m[i]).0@ != (#[trigger] m[j]).0@;
        assert(m[i].0@ != m[0].0@ || m[j].0@ != m[0].0@);
        assert(!all_same_key(m));
    }
    if resolution_of(m) is AmbiguousMatch {
        assert(!all_same_key(m));
        let i = choose|i: int| 0 <= i < m.len() && (#[trigger] m[i]).0@ != m[0].0@;
        assert(0 <= 0 < m.len() && m[i].0@ != m[0].0@);
    }
}

/// For a key present in the index, the query made of its first
/// `shortest_unique_len_of` digits matches only entries keyed exactly by
/// it, and at least one.  (When some longer key extends `key` digit for
/// digit, the length exceeds the key's digit count and no such query
/// exists; that case is excluded here.)
pub proof fn lemma_shortest_unique_prefix_resolves<V>(idx: IdIndex<V>, key: Id)
    requires
        idx.contains_key(key@),
        shortest_unique_len_of(idx@, key@) <= digits_of_bytes(key@).len(),
    ensures
        ({
            let q = digits_of_bytes(key@).take(shortest_unique_len_of(idx@, key@) as int);
            let m = matched_of(idx@, q);
            &&& m.len() > 0
            &&& forall|i: int| 0 <= i < m.len() ==> (#[trigger] m[i]).0@ == key@
        }),
{
    broadcast use vstd::seq_lib::group_filter_ensures;

    let s = idx@;
    let dk = digits_of_bytes(key@);
    let len = shortest_unique_len_of(s, key@) as int;
    let q = dk.take(len);
    let m = matched_of(s, q);
    lemma_shortest_unique_characterization(s, key@);
    assert(q.is_prefix_of(dk)) by {
        assert(q =~= dk.subrange(0, len));
    }
    let w = choose|i: int| 0 <= i < s.len() && (#[trigger] s[i]).0@ == key@;
    assert(entry_matches(q, s[w]));
    assert(m.contains(s[w]));
    assert(m.len() > 0);
    assert forall|i: int| 0 <= i < m.len() implies (#[trigger] m[i]).0@ == key@ by {
        lemma_matched_entry_origin(s, q, i);
        let j = choose|j: int| 0 <= j < s.len() && s[j] == m[i];
        if s[j].0@ != key@ {
            let dj = digits_of_bytes(s[j].0@);
            assert(common_dlen(dk, dj) + 1 <= len);
            assert(q.is_prefix_of(dj));
            assert forall|x: int| 0 <= x < len implies dk[x] == dj[x] by {
                assert(q[x] == dk.subrange(0, len)[x]);
                assert(q[x] == dj.subrange(0, q.len() as int)[x]);
            }
            lemma_common_dlen_at_least(dk, dj, len);
            assert(false);
        }
    }
}

/// Only the two sorted neighbours of a key's insertion position matter to
/// `shortest_unique_len_of`: between two entries on the same side of the
/// key, the nearer one shares at least as long a leading-digit run with
/// it, so inserting keys farther away than an existing neighbour cannot
/// change the answer.
pub proof fn lemma_nearer_neighbor_shares_more<V>(idx: IdIndex<V>, key: Id, i: int, j: int)
    requires
        idx.wf(),
        0 <= i <= j < idx@.len(),
    ensures
        lex_le(idx@[j].0@, key@) ==> common_dlen(
            digits_of_bytes(key@),
            digits_of_bytes(idx@[i].0@),
        ) <= common_dlen(digits_of_bytes(key@), digits_of_bytes(idx@[j].0@)),
        lex_le(key@, idx@[i].0@) ==> common_dlen(
            digits_of_bytes(key@),
            digits_of_bytes(idx@[j].0@),
        ) <= common_dlen(digits_of_bytes(key@), digits_of_bytes(idx@[i].0@)),
{
    let a = idx@[i].0@;
    let b = idx@[j].0@;
    assert(lex_le(a, b));
    if lex_le(b, key@) {
        lemma_common_between_bytes(a, b, key@);
        lemma_common_dlen_props(digits_of_bytes(a), digits_of_bytes(key@));
        lemma_common_dlen_props(digits_of_bytes(b), digits_of_bytes(key@));
    }
    if lex_le(key@, a) {
        lemma_common_between_bytes(key@, a, b);
    }
}

/// Inserting a key that lies farther from `key` than some existing
/// distinct-keyed entry on the same side leaves `shortest_unique_len_of`
/// unchanged, wherever in the entry order it lands: the answer depends on
/// the immediate sorted neighbours of `key`'s insertion point alone, not
/// on the size of the index.
pub proof fn lemma_far_key_does_not_change_shortest<V>(
    idx: IdIndex<V>,
    key: Id,
    e: (Id, V),
    pos: int,
)
    requires
        0 <= pos <= idx@.len(),
        exists|i: int|
            0 <= i < idx@.len() && (#[trigger] idx@[i]).0@ != key@ && ((lex_le(e.0@, idx@[i].0@)
                && lex_le(idx@[i].0@, key@)) || (lex_le(key@, idx@[i].0@) && lex_le(
                idx@[i].0@,
                e.0@,
            ))),
    ensures
        shortest_unique_len_of(idx@.insert(pos, e), key@) == shortest_unique_len_of(idx@, key@),
{
    let s = idx@;
    let s2 = s.insert(pos, e);
    let dk = digits_of_bytes(key@);
    lemma_shortest_unique_characterization(s, key@);
    lemma_shortest_unique_characterization(s2, key@);
    s.insert_ensures(pos, e);
    assert forall|j: int| 0 <= j < pos implies s2[j] == s[j] by {}
    assert forall|j: int| pos < j < s2.len() implies s2[j] == s[j - 1] by {}
    assert(s2[pos] == e);
    let m = shortest_unique_len_of(s, key@);
    let m2 = shortest_unique_len_of(s2, key@);
    let w = choose|i: int|
        0 <= i < s.len() && (#[trigger] s[i]).0@ != key@ && ((lex_le(e.0@, s[i].0@) && lex_le(
            s[i].0@,
            key@,
        )) || (lex_le(key@, s[i].0@) && lex_le(s[i].0@, e.0@)));
    // The far entry shares no longer a run with the key than the witness.
    let cand_e = common_dlen(dk, digits_of_bytes(e.0@)) + 1;
    let cand_w = common_dlen(dk, digits_of_bytes(s[w].0@)) + 1;
    assert(cand_e <= cand_w) by {
        if lex_le(e.0@, s[w].0@) && lex_le(s[w].0@, key@) {
            lemma_common_between_bytes(e.0@, s[w].0@, key@);
            lemma_common_dlen_props(digits_of_bytes(e.0@), dk);
            lemma_common_dlen_props(digits_of_bytes(s[w].0@), dk);
        } else {
            lemma_common_between_bytes(key@, s[w].0@, e.0@);
        }
    }
    // Every distinct-keyed entry of the larger index is the far entry or
    // stands in the smaller one, so the larger maximum is no larger.
    assert(m2 <= m) by {
        assert(exists|i: int| 0 <= i < s2.len() && (#[trigger] s2[i]).0@ != key@) by {
            let wi = if w < pos {
                w
            } else {
                w + 1
            };
            assert(s2[wi] == s[w]);
        }
        let j0 = choose|i: int|
            0 <= i < s2.len() && (#[trigger] s2[i]).0@ != key@ && shortest_unique_len_of(s2, key@)
                == common_dlen(digits_of_bytes(key@), digits_of_bytes(s2[i].0@)) + 1;
        if j0 == pos {
            assert(m2 == cand_e && cand_w <= m);
        } else {
            let i0 = if j0 < pos {
                j0
            } else {
                j0 - 1
            };
            assert(s2[j0] == s[i0]);
        }
    }
    // Conversely, every distinct-keyed entry of the smaller index stands
    // in the larger one.
    assert(m <= m2) by {
        if exists|i: int| 0 <= i < s.len() && (#[trigger] s[i]).0@ != key@ {
            let i0 = choose|i: int|
                0 <= i < s.len() && (#[trigger] s[i]).0@ != key@ && shortest_unique_len_of(s, key@)
                    == common_dlen(digits_of_bytes(key@), digits_of_bytes(s[i].0@)) + 1;
            let j0 = if i0 < pos {
                i0
            } else {
                i0 + 1
            };
            assert(s2[j0] == s[i0]);
        } else {
            assert(m == 0);
        }
    }
}

/// `has_key` agrees with prefix resolution on full-length queries: among
/// entries whose keys have the key's own byte length, some entry carries
/// exactly this key if and only if the query made of all its digits
/// matches a nonempty run.
pub proof fn lemma_has_key_agrees_with_full_query<V>(idx: IdIndex<V>, key: Id)
    requires
        forall|i: int| 0 <= i < idx@.len() ==> (#[trigger] idx@[i]).0@.len() == key@.len(),
    ensures
        idx.contains_key(key@) <==> matched_of(idx@, digits_of_bytes(key@)).len() > 0,
{
    broadcast use vstd::seq_lib::group_filter_ensures;

    let s = idx@;
    let dk = digits_of_bytes(key@);
    let m = matched_of(s, dk);
    if idx.contains_key(key@) {
        let w = choose|i: int| 0 <= i < s.len() && (#[trigger] s[i]).0@ == key@;
        assert(entry_matches(dk, s[w])) by {
            assert(dk =~= digits_of_bytes(s[w].0@).subrange(0, dk.len() as int));
        }
        assert(m.contains(s[w]));
        assert(m.len() > 0);
    }
    if m.len() > 0 {
        lemma_matched_entry_origin(s, dk, 0);
        let j = choose|j: int| 0 <= j < s.len() && s[j] == m[0];
        let dj = digits_of_bytes(s[j].0@);
        assert(dj.len() == dk.len());
        assert(dk.is_prefix_of(dj));
        assert(dk =~= dj);
        lemma_digits_injective(key@, s[j].0@);
        assert(s[j].0@ == key@);
    }
}

} // verus!
