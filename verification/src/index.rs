//! The ordered prefix index: sorted `(key, value)` entries with prefix-range
//! lookup, exact-key membership, and shortest-unique-prefix computation.

use vstd::prelude::*;
use vstd::multiset::Multiset;

use crate::digits::{
    common_dlen, digits_of_bytes, lemma_common_between_bytes, lemma_common_dlen_props,
    lemma_match_ge_min, lemma_match_interval, min_bytes_of,
};
use crate::ids::{common_hex_len, Id};
use crate::order::{lemma_lex_asym, lemma_lex_total, lemma_lex_trans, lex_le, lex_lt, lt_bytes,
    eq_bytes};
use crate::prefix::HexPrefix;
use crate::resolution::{all_same_key, values_of, PrefixResolution};

verus! {

/// An immutable index of `(key, value)` entries, sorted ascending by key.
/// Duplicate keys are legal and meaningful: they carry several values
/// legitimately attached to one key.
#[derive(Debug, Clone)]
pub struct IdIndex<V> {
    entries: Vec<(Id, V)>,
}

impl<V> View for IdIndex<V> {
    type V = Seq<(Id, V)>;

    closed spec fn view(&self) -> Seq<(Id, V)> {
        self.entries@
    }
}

/// Does the entry's key render with `p` as its leading hex digits?
pub open spec fn entry_matches<V>(p: Seq<u8>, e: (Id, V)) -> bool {
    p.is_prefix_of(digits_of_bytes(e.0@))
}

/// The entries of `s` whose keys the digits `p` match, in order.
pub open spec fn matched_of<V>(s: Seq<(Id, V)>, p: Seq<u8>) -> Seq<(Id, V)> {
    s.filter(|e: (Id, V)| entry_matches(p, e))
}

/// When the matching entries are exactly those at positions `lo..hi`, the
/// filtered sequence is that contiguous run.
proof fn lemma_matched_of_run<V>(s: Seq<(Id, V)>, p: Seq<u8>, lo: int, hi: int)
    requires
        0 <= lo <= hi <= s.len(),
        forall|j: int| 0 <= j < s.len() ==> (entry_matches(p, #[trigger] s[j]) <==> lo <= j < hi),
    ensures
        matched_of(s, p) == s.subrange(lo, hi),
    decreases s.len(),
{
    reveal(Seq::filter);
    if s.len() == 0 {
        assert(matched_of(s, p) =~= s.subrange(lo, hi));
    } else {
        let last = s.last();
        let s0 = s.drop_last();
        assert(last == s[s.len() - 1]);
        assert forall|j: int| 0 <= j < s0.len() implies s0[j] == s[j] by {}
        if entry_matches(p, last) {
            assert(lo <= s.len() - 1 < hi);
            assert(hi == s.len());
            lemma_matched_of_run(s0, p, lo, hi - 1);
            assert(matched_of(s, p) == matched_of(s0, p).push(last));
            assert(matched_of(s, p) =~= s.subrange(lo, hi));
        } else {
            assert(!(lo <= s.len() - 1 < hi));
            let lo2 = if lo < s.len() - 1 {
                lo
            } else {
                s.len() - 1
            };
            let hi2 = if hi < s.len() - 1 {
                hi
            } else {
                s.len() - 1
            };
            assert forall|j: int| 0 <= j < s0.len() implies (entry_matches(p, #[trigger] s0[j])
                <==> lo2 <= j < hi2) by {}
            lemma_matched_of_run(s0, p, lo2, hi2);
            assert(matched_of(s, p) == matched_of(s0, p));
            assert(s.subrange(lo, hi) =~= s0.subrange(lo2, hi2));
        }
    }
}

/// The least number of leading hex digits that tells `kb` apart from every
/// entry of `s` keyed otherwise than `kb`: one more than the longest
/// leading-digit run `kb` shares with any such entry, and 0 when every
/// entry (if any) is keyed exactly `kb`.
pub open spec fn shortest_unique_len_of<V>(s: Seq<(Id, V)>, kb: Seq<u8>) -> nat
    decreases s.len(),
{
    if s.len() == 0 {
        0
    } else {
        let rest = shortest_unique_len_of(s.drop_last(), kb);
        if s.last().0@ == kb {
            rest
        } else {
            let cand = common_dlen(digits_of_bytes(kb), digits_of_bytes(s.last().0@)) + 1;
            if cand > rest {
                cand as nat
            } else {
                rest
            }
        }
    }
}

/// `shortest_unique_len_of` is the maximum, over the entries keyed
/// otherwise than `kb`, of the shared leading-digit run plus one.
pub proof fn lemma_shortest_unique_characterization<V>(s: Seq<(Id, V)>, kb: Seq<u8>)
    ensures
        (forall|i: int| 0 <= i < s.len() ==> (#[trigger] s[i]).0@ == kb) ==> shortest_unique_len_of(
            s,
            kb,
        ) == 0,
        (exists|i: int| 0 <= i < s.len() && (#[trigger] s[i]).0@ != kb) ==> (exists|i: int|
            0 <= i < s.len() && (#[trigger] s[i]).0@ != kb && shortest_unique_len_of(s, kb)
                == common_dlen(digits_of_bytes(kb), digits_of_bytes(s[i].0@)) + 1),
        forall|i: int|
            0 <= i < s.len() && (#[trigger] s[i]).0@ != kb ==> common_dlen(
                digits_of_bytes(kb),
                digits_of_bytes(s[i].0@),
            ) + 1 <= shortest_unique_len_of(s, kb),
    decreases s.len(),
{
    if s.len() > 0 {
        lemma_shortest_unique_characterization(s.drop_last(), kb);
        assert forall|i: int| 0 <= i < s.len() - 1 implies s.drop_last()[i] == s[i] by {}
        let last = s.last();
        assert(last == s[s.len() - 1]);
    }
}

impl<V> IdIndex<V> {
    /// Entries stand in ascending key order.
    pub open spec fn wf(self) -> bool {
        forall|i: int, j: int|
            0 <= i <= j < self@.len() ==> lex_le(
                (#[trigger] self@[i]).0@,
                (#[trigger] self@[j]).0@,
            )
    }

    /// The entries whose keys the query's digits match, in index order.
    pub open spec fn matched_entries(self, p: Seq<u8>) -> Seq<(Id, V)> {
        matched_of(self@, p)
    }

    /// Does at least one entry carry exactly this key?
    pub open spec fn contains_key(self, kb: Seq<u8>) -> bool {
        exists|i: int| 0 <= i < self@.len() && (#[trigger] self@[i]).0@ == kb
    }

    /// Creates a new index from the given entries.  Multiple values can be
    /// associated with a single key; the batch is kept as a whole, sorted
    /// by key.
    pub fn from_vec(vec: Vec<(Id, V)>) -> (r: Self)
        ensures
            r.wf(),
            r@.to_multiset() == vec@.to_multiset(),
    {
        let ghost orig = vec@;
        let mut rest = vec;
        let mut entries: Vec<(Id, V)> = Vec::new();
        proof {
            broadcast use vstd::seq_lib::group_to_multiset_ensures;

            assert(entries@.to_multiset().add(rest@.to_multiset()) =~= orig.to_multiset()) by {
                vstd::multiset::lemma_multiset_empty_len(entries@.to_multiset());
                assert(entries@.to_multiset().len() == 0);
            }
        }
        while rest.len() > 0
            invariant
                forall|i: int, j: int|
                    0 <= i <= j < entries@.len() ==> lex_le(
                        (#[trigger] entries@[i]).0@,
                        (#[trigger] entries@[j]).0@,
                    ),
                entries@.to_multiset().add(rest@.to_multiset()) == orig.to_multiset(),
            decreases rest@.len(),
        {
            let ghost rest_before = rest@;
            let pair = match rest.pop() {
                Some(p) => p,
                None => {
                    proof {
                        assert(false);
                    }
                    unreached()
                },
            };
            proof {
                broadcast use vstd::seq_lib::group_to_multiset_ensures;

                assert(rest_before =~= rest@.push(pair));
                assert(rest_before.to_multiset() =~= rest@.to_multiset().insert(pair));
            }
            let mut pos: usize = 0;
            while pos < entries.len() && !lt_bytes(pair.0.as_bytes(), entries[pos].0.as_bytes())
                invariant
                    0 <= pos <= entries@.len(),
                    forall|i: int| 0 <= i < pos ==> !lex_lt(pair.0@, (#[trigger] entries@[i]).0@),
                decreases entries@.len() - pos,
            {
                pos = pos + 1;
            }
            let ghost entries_before = entries@;
            proof {
                assert(pos < entries@.len() ==> lex_lt(pair.0@, entries@[pos as int].0@));
            }
            entries.insert(pos, pair);
            proof {
                assert(entries@ == entries_before.insert(pos as int, pair));
                lemma_sorted_after_insert(entries_before, pos as int, pair);
                lemma_to_multiset_insert_mid(entries_before, pos as int, pair);
                broadcast use vstd::multiset::group_multiset_axioms;

                assert(entries@.to_multiset().add(rest@.to_multiset())
                    =~= entries_before.to_multiset().add(rest_before.to_multiset()));
            }
        }
        proof {
            broadcast use vstd::seq_lib::group_to_multiset_ensures;
            broadcast use vstd::multiset::group_multiset_axioms;

            assert(rest@.to_multiset().len() == 0);
            assert(entries@.to_multiset().add(rest@.to_multiset()) =~= entries@.to_multiset());
        }
        IdIndex { entries }
    }

    /// The first position whose key is not below `target`: entries split
    /// into those strictly below and those at or above.
    fn lower_bound(&self, target: &[u8]) -> (pos: usize)
        requires
            self.wf(),
        ensures
            0 <= pos <= self@.len(),
            forall|i: int| 0 <= i < pos ==> lex_lt((#[trigger] self@[i]).0@, target@),
            forall|i: int| pos <= i < self@.len() ==> !lex_lt((#[trigger] self@[i]).0@, target@),
    {
        let mut lo: usize = 0;
        let mut hi: usize = self.entries.len();
        while lo < hi
            invariant
                self.wf(),
                0 <= lo <= hi <= self@.len(),
                forall|i: int| 0 <= i < lo ==> lex_lt((#[trigger] self@[i]).0@, target@),
                forall|i: int| hi <= i < self@.len() ==> !lex_lt((#[trigger] self@[i]).0@, target@),
            decreases hi - lo,
        {
            let mid = lo + (hi - lo) / 2;
            if lt_bytes(self.entries[mid].0.as_bytes(), target) {
                proof {
                    assert forall|i: int| 0 <= i < mid + 1 implies lex_lt(
                        (#[trigger] self@[i]).0@,
                        target@,
                    ) by {
                        lemma_lex_trans(self@[i].0@, self@[mid as int].0@, target@);
                    }
                }
                lo = mid + 1;
            } else {
                proof {
                    assert forall|i: int| mid <= i < self@.len() implies !lex_lt(
                        (#[trigger] self@[i]).0@,
                        target@,
                    ) by {
                        lemma_lex_trans(self@[mid as int].0@, self@[i].0@, target@);
                        lemma_lex_trans(self@[i].0@, target@, self@[mid as int].0@);
                    }
                }
                hi = mid;
            }
        }
        lo
    }

    /// The contiguous run of positions whose keys the query matches:
    /// binary search for the query's byte-aligned lower bound, then a scan
    /// forward over exactly the matching entries.
    fn match_run(&self, prefix: &HexPrefix) -> (r: (usize, usize))
        requires
            self.wf(),
            prefix.wf(),
        ensures
            r.0 <= r.1 <= self@.len(),
            forall|j: int| r.0 <= j < r.1 ==> entry_matches(prefix@, #[trigger] self@[j]),
            forall|j: int| 0 <= j < r.0 ==> !entry_matches(prefix@, #[trigger] self@[j]),
            forall|j: int|
                r.1 <= j < self@.len() ==> !entry_matches(prefix@, #[trigger] self@[j]),
            self.matched_entries(prefix@) == self@.subrange(r.0 as int, r.1 as int),
    {
        let min_bytes = prefix.min_prefix_bytes();
        let lo = self.lower_bound(min_bytes.as_slice());
        let mut hi = lo;
        while hi < self.entries.len() && prefix.matches(&self.entries[hi].0)
            invariant
                self.wf(),
                prefix.wf(),
                lo <= hi <= self@.len(),
                min_bytes@ == min_bytes_of(prefix@),
                forall|i: int| 0 <= i < lo ==> lex_lt((#[trigger] self@[i]).0@, min_bytes@),
                forall|i: int|
                    lo <= i < self@.len() ==> !lex_lt((#[trigger] self@[i]).0@, min_bytes@),
                forall|j: int| lo <= j < hi ==> entry_matches(prefix@, #[trigger] self@[j]),
            decreases self@.len() - hi,
        {
            hi = hi + 1;
        }
        proof {
            assert forall|j: int| 0 <= j < lo implies !entry_matches(
                prefix@,
                #[trigger] self@[j],
            ) by {
                if entry_matches(prefix@, self@[j]) {
                    lemma_match_ge_min(prefix@, self@[j].0@);
                    lemma_lex_asym(self@[j].0@, min_bytes_of(prefix@));
                }
            }
            assert forall|j: int| hi <= j < self@.len() implies !entry_matches(
                prefix@,
                #[trigger] self@[j],
            ) by {
                if entry_matches(prefix@, self@[j]) {
                    assert(hi < self@.len());
                    assert(!entry_matches(prefix@, self@[hi as int]));
                    lemma_lex_total(min_bytes_of(prefix@), self@[hi as int].0@);
                    lemma_lex_asym(self@[hi as int].0@, min_bytes_of(prefix@));
                    lemma_match_interval(prefix@, self@[hi as int].0@, self@[j].0@);
                }
            }
            lemma_matched_of_run(self@, prefix@, lo as int, hi as int);
        }
        (lo, hi)
    }

    /// Looks up entries with the given prefix, and collects values mapped
    /// through `value_mapper` if the matched entries have unambiguous keys.
    pub fn resolve_prefix_with<U, F: Fn(&V) -> U>(
        &self,
        prefix: &HexPrefix,
        value_mapper: F,
    ) -> (r: PrefixResolution<Vec<U>>)
        requires
            self.wf(),
            prefix.wf(),
            forall|i: int|
                0 <= i < self.matched_entries(prefix@).len() ==> call_requires(
                    value_mapper,
                    (&(#[trigger] self.matched_entries(prefix@)[i]).1,),
                ),
        ensures
            ({
                let m = self.matched_entries(prefix@);
                match r {
                    PrefixResolution::NoMatch => m.len() == 0,
                    PrefixResolution::SingleMatch(vs) => {
                        &&& m.len() > 0
                        &&& all_same_key(m)
                        &&& vs@.len() == m.len()
                        &&& forall|i: int|
                            0 <= i < m.len() ==> call_ensures(
                                value_mapper,
                                (&m[i].1,),
                                #[trigger] vs@[i],
                            )
                    },
                    PrefixResolution::AmbiguousMatch => m.len() > 0 && !all_same_key(m),
                }
            }),
    {
        let ghost m = self.matched_entries(prefix@);
        let (lo, hi) = self.match_run(prefix);
        if lo == hi {
            proof {
                assert(m.len() == 0);
            }
            return PrefixResolution::NoMatch;
        }
        let mut vals: Vec<U> = Vec::new();
        let mut j = lo;
        while j < hi
            invariant
                self.wf(),
                prefix.wf(),
                lo <= j <= hi <= self@.len(),
                lo < hi,
                m == self.matched_entries(prefix@),
                m == self@.subrange(lo as int, hi as int),
                forall|i: int|
                    0 <= i < m.len() ==> call_requires(value_mapper, (&(#[trigger] m[i]).1,)),
                vals@.len() == j - lo,
                forall|i: int|
                    0 <= i < vals@.len() ==> call_ensures(
                        value_mapper,
                        (&m[i].1,),
                        #[trigger] vals@[i],
                    ),
                forall|i: int| lo <= i < j ==> (#[trigger] self@[i]).0@ == self@[lo as int].0@,
            decreases hi - j,
        {
            proof {
                assert(m[j - lo] == self@[j as int]);
                assert(m[0] == self@[lo as int]);
            }
            if !eq_bytes(self.entries[j].0.as_bytes(), self.entries[lo].0.as_bytes()) {
                proof {
                    assert(m[j - lo].0@ != m[0].0@);
                    assert(!all_same_key(m));
                }
                return PrefixResolution::AmbiguousMatch;
            }
            let u = value_mapper(&self.entries[j].1);
            vals.push(u);
            j = j + 1;
        }
        proof {
            assert forall|i: int| 0 <= i < m.len() implies (#[trigger] m[i]).0@ == m[0].0@ by {
                assert(m[i] == self@[lo + i]);
            }
        }
        PrefixResolution::SingleMatch(vals)
    }

    /// The least number of leading hex digits that tells `key` apart from
    /// every other key in the index.  Only the two neighbours of `key`'s
    /// insertion position can share its longest leading-digit run, so two
    /// binary-search neighbours decide the answer.  When some longer key
    /// extends `key` digit for digit, the result exceeds `key`'s own digit
    /// length: no prefix of `key`, not even all of it, is unambiguous.
    pub fn shortest_unique_prefix_len(&self, key: &Id) -> (r: usize)
        requires
            self.wf(),
            2 * key@.len() < usize::MAX,
        ensures
            r == shortest_unique_len_of(self@, key@),
    {
        let kb = key.as_bytes();
        let ghost s = self@;
        let ghost dk = digits_of_bytes(key@);
        let n = self.entries.len();
        let pos = self.lower_bound(kb);
        let mut best: usize = 0;
        let ghost mut witness: int = 0;
        if pos > 0 {
            let c = common_hex_len(kb, self.entries[pos - 1].0.as_bytes());
            proof {
                lemma_common_dlen_props(dk, digits_of_bytes(s[pos - 1].0@));
            }
            best = c + 1;
            proof {
                witness = pos - 1;
            }
        }
        let mut j = pos;
        while j < n && eq_bytes(self.entries[j].0.as_bytes(), kb)
            invariant
                self.wf(),
                s == self@,
                kb@ == key@,
                pos <= j <= n,
                n == s.len(),
                forall|i: int| pos <= i < j ==> (#[trigger] s[i]).0@ == key@,
            decreases n - j,
        {
            j = j + 1;
        }
        if j < n {
            let c2 = common_hex_len(kb, self.entries[j].0.as_bytes());
            proof {
                lemma_common_dlen_props(dk, digits_of_bytes(s[j as int].0@));
            }
            if c2 + 1 > best {
                best = c2 + 1;
                proof {
                    witness = j as int;
                }
            }
        }
        proof {
            lemma_shortest_unique_characterization(s, key@);
            assert forall|i: int| 0 <= i < pos implies (#[trigger] s[i]).0@ != key@ by {
                lemma_lex_asym(s[i].0@, key@);
            }
            if j < n {
                assert(s[j as int].0@ != key@);
                lemma_lex_total(s[j as int].0@, key@);
                assert(lex_lt(key@, s[j as int].0@));
            }
            assert forall|i: int| j <= i < n implies (#[trigger] s[i]).0@ != key@ && common_dlen(
                dk,
                digits_of_bytes(s[i].0@),
            ) + 1 <= best by {
                lemma_lex_trans(key@, s[j as int].0@, s[i].0@);
                lemma_lex_asym(key@, s[i].0@);
                if s[i].0@ == key@ {
                    assert(lex_lt(key@, s[i].0@));
                    assert(false);
                }
                lemma_common_between_bytes(key@, s[j as int].0@, s[i].0@);
                lemma_common_dlen_props(dk, digits_of_bytes(s[j as int].0@));
                lemma_common_dlen_props(dk, digits_of_bytes(s[i].0@));
                lemma_common_dlen_props(digits_of_bytes(s[i].0@), dk);
            }
            assert forall|i: int| 0 <= i < pos implies common_dlen(dk, digits_of_bytes(s[i].0@))
                + 1 <= best by {
                assert(pos > 0);
                assert(lex_le(s[i].0@, s[pos - 1].0@));
                lemma_common_between_bytes(s[i].0@, s[pos - 1].0@, key@);
                lemma_common_dlen_props(digits_of_bytes(s[i].0@), dk);
                lemma_common_dlen_props(digits_of_bytes(s[pos - 1].0@), dk);
            }
            if pos == 0 && j == n {
                assert(forall|i: int| 0 <= i < s.len() ==> (#[trigger] s[i]).0@ == key@);
                assert(shortest_unique_len_of(s, key@) == 0);
            } else {
                assert(0 <= witness < n && s[witness].0@ != key@ && best == common_dlen(
                    dk,
                    digits_of_bytes(s[witness].0@),
                ) + 1);
                assert forall|i: int|
                    0 <= i < s.len() && (#[trigger] s[i]).0@ != key@ implies common_dlen(
                    dk,
                    digits_of_bytes(s[i].0@),
                ) + 1 <= best by {}
                assert(exists|i: int| 0 <= i < s.len() && (#[trigger] s[i]).0@ != key@);
                assert(shortest_unique_len_of(s, key@) <= best);
                assert(best <= shortest_unique_len_of(s, key@));
            }
        }
        best
    }

    /// Does at least one entry carry exactly this key?  Binary search on
    /// the sorted key order.
    pub fn has_key(&self, key: &Id) -> (r: bool)
        requires
            self.wf(),
        ensures
            r == self.contains_key(key@),
    {
        let pos = self.lower_bound(key.as_bytes());
        if pos < self.entries.len() && eq_bytes(self.entries[pos].0.as_bytes(), key.as_bytes()) {
            proof {
                assert(self@[pos as int].0@ == key@);
            }
            true
        } else {
            proof {
                assert forall|i: int| 0 <= i < self@.len() implies (#[trigger] self@[i]).0@
                    != key@ by {
                    lemma_lex_asym(self@[i].0@, key@);
                    if i >= pos {
                        lemma_lex_total(self@[pos as int].0@, key@);
                        lemma_lex_trans(key@, self@[pos as int].0@, self@[i].0@);
                        lemma_lex_asym(key@, self@[i].0@);
                        if self@[i].0@ == key@ {
                            assert(lex_lt(key@, self@[i].0@));
                            assert(false);
                        }
                    }
                }
            }
            false
        }
    }
}

impl<V: Copy> IdIndex<V> {
    /// The entries with the given prefix: the matching run, with each key
    /// copied out alongside its value.
    pub fn resolve_prefix_range(&self, prefix: &HexPrefix) -> (r: Vec<(Id, V)>)
        requires
            self.wf(),
            prefix.wf(),
        ensures
            ({
                let m = self.matched_entries(prefix@);
                &&& r@.len() == m.len()
                &&& forall|i: int|
                    0 <= i < m.len() ==> (#[trigger] r@[i]).0@ == m[i].0@ && r@[i].1 == m[i].1
            }),
    {
        let (lo, hi) = self.match_run(prefix);
        let mut out: Vec<(Id, V)> = Vec::new();
        let mut j = lo;
        while j < hi
            invariant
                lo <= j <= hi <= self@.len(),
                self.matched_entries(prefix@) == self@.subrange(lo as int, hi as int),
                out@.len() == j - lo,
                forall|i: int|
                    0 <= i < out@.len() ==> (#[trigger] out@[i]).0@ == self@[lo + i].0@
                        && out@[i].1 == self@[lo + i].1,
            decreases hi - j,
        {
            let e = &self.entries[j];
            out.push((e.0.clone(), e.1));
            j = j + 1;
        }
        out
    }

    /// Looks up entries with the given prefix, and collects the values
    /// themselves if the matched entries have unambiguous keys.
    pub fn resolve_prefix(&self, prefix: &HexPrefix) -> (r: PrefixResolution<Vec<V>>)
        requires
            self.wf(),
            prefix.wf(),
        ensures
            ({
                let m = self.matched_entries(prefix@);
                match r {
                    PrefixResolution::NoMatch => m.len() == 0,
                    PrefixResolution::SingleMatch(vs) => m.len() > 0 && all_same_key(m) && vs@
                        == values_of(m),
                    PrefixResolution::AmbiguousMatch => m.len() > 0 && !all_same_key(m),
                }
            }),
    {
        let copy_value = |v: &V| -> (c: V)
            ensures
                c == *v,
            { *v };
        let res = self.resolve_prefix_with(prefix, copy_value);
        proof {
            let m = self.matched_entries(prefix@);
            match &res {
                PrefixResolution::SingleMatch(vs) => {
                    assert forall|i: int| 0 <= i < m.len() implies vs@[i] == values_of(m)[i] by {
                        assert(call_ensures(copy_value, (&m[i].1,), vs@[i]));
                    }
                    assert(vs@ =~= values_of(m));
                },
                _ => {},
            }
        }
        res
    }
}

/// Inserting at a position bounded by smaller keys on the left and larger
/// keys on the right keeps the entries sorted.
proof fn lemma_sorted_after_insert<V>(s: Seq<(Id, V)>, pos: int, pair: (Id, V))
    requires
        0 <= pos <= s.len(),
        forall|i: int, j: int|
            0 <= i <= j < s.len() ==> lex_le((#[trigger] s[i]).0@, (#[trigger] s[j]).0@),
        forall|i: int| 0 <= i < pos ==> !lex_lt(pair.0@, (#[trigger] s[i]).0@),
        pos < s.len() ==> lex_lt(pair.0@, s[pos].0@),
    ensures
        forall|i: int, j: int|
            0 <= i <= j < s.insert(pos, pair).len() ==> lex_le(
                (#[trigger] s.insert(pos, pair)[i]).0@,
                (#[trigger] s.insert(pos, pair)[j]).0@,
            ),
{
    let t = s.insert(pos, pair);
    assert forall|i: int| 0 <= i < pos implies lex_le((#[trigger] s[i]).0@, pair.0@) by {
        lemma_lex_total(pair.0@, s[i].0@);
    }
    assert forall|i: int| pos <= i < s.len() implies lex_lt(pair.0@, (#[trigger] s[i]).0@) by {
        if pos < s.len() {
            lemma_lex_trans(pair.0@, s[pos].0@, s[i].0@);
        }
    }
    assert forall|i: int, j: int| 0 <= i <= j < t.len() implies lex_le(
        (#[trigger] t[i]).0@,
        (#[trigger] t[j]).0@,
    ) by {
        let si = if i < pos {
            s[i]
        } else if i == pos {
            pair
        } else {
            s[i - 1]
        };
        let sj = if j < pos {
            s[j]
        } else if j == pos {
            pair
        } else {
            s[j - 1]
        };
        assert(t[i] == si && t[j] == sj);
        lemma_lex_total(si.0@, sj.0@);
        if i == pos && j > pos {
        }
        if i < pos && j == pos {
        }
        lemma_lex_asym(si.0@, sj.0@);
    }
}

/// Inserting an element anywhere adds exactly it to the multiset of the
/// sequence's elements.
proof fn lemma_to_multiset_insert_mid<T>(s: Seq<T>, pos: int, x: T)
    requires
        0 <= pos <= s.len(),
    ensures
        s.insert(pos, x).to_multiset() == s.to_multiset().insert(x),
{
    broadcast use vstd::seq_lib::group_to_multiset_ensures;
    broadcast use vstd::multiset::group_multiset_axioms;

    vstd::seq_lib::lemma_multiset_commutative(s.subrange(0, pos), s.subrange(pos, s.len() as int));
    vstd::seq_lib::lemma_multiset_commutative(
        s.subrange(0, pos),
        seq![x] + s.subrange(pos, s.len() as int),
    );
    vstd::seq_lib::lemma_multiset_commutative(seq![x], s.subrange(pos, s.len() as int));
    assert(s =~= s.subrange(0, pos) + s.subrange(pos, s.len() as int));
    assert(s.insert(pos, x) =~= s.subrange(0, pos) + (seq![x] + s.subrange(pos, s.len() as int)));
    assert(seq![x] =~= Seq::<T>::empty().push(x));
    assert(seq![x].to_multiset() =~= Multiset::<T>::empty().insert(x));
    let a = s.subrange(0, pos).to_multiset();
    let b = s.subrange(pos, s.len() as int).to_multiset();
    assert(s.insert(pos, x).to_multiset() =~= a.add(Multiset::<T>::empty().insert(x).add(b)));
    assert forall|y: T| s.insert(pos, x).to_multiset().count(y) == s.to_multiset().insert(
        x,
    ).count(y) by {
        vstd::multiset::lemma_insert_increases_count_by_1(s.to_multiset(), x);
        vstd::multiset::lemma_insert_increases_count_by_1(Multiset::<T>::empty(), x);
        if y != x {
            vstd::multiset::lemma_insert_other_elements_unchanged(s.to_multiset(), x, y);
            vstd::multiset::lemma_insert_other_elements_unchanged(Multiset::<T>::empty(), x, y);
        }
    }
    assert(s.insert(pos, x).to_multiset() =~= s.to_multiset().insert(x));
}

} // verus!
