//! Hex digits of byte strings.
//!
//! An identifier is a byte string; its hexadecimal rendering is the sequence
//! of its nibbles, two per byte, high nibble first.  Prefix queries and the
//! shortest-unique-prefix computation are stated over these digit sequences,
//! so this module relates the byte-level order to the digit-level order and
//! proves the facts about common leading-digit runs that both rest on.

use vstd::prelude::*;

use crate::order::{lemma_lex_lt_skip_common, lex_le, lex_lt};

verus! {

/// The hex digits (nibbles) of a byte string, high nibble first.
pub open spec fn digits_of_bytes(s: Seq<u8>) -> Seq<u8> {
    Seq::new(
        (2 * s.len()) as nat,
        |i: int|
            if i % 2 == 0 {
                s[i / 2] >> 4u8
            } else {
                s[i / 2] & 0x0fu8
            },
    )
}

/// A digit sequence is well formed when every entry is a nibble value.
pub open spec fn nibbles_ok(p: Seq<u8>) -> bool {
    forall|i: int| 0 <= i < p.len() ==> p[i] < 16
}

/// The number of leading positions on which two digit sequences agree,
/// capped at the shorter length.
pub open spec fn common_dlen(a: Seq<u8>, b: Seq<u8>) -> nat
    decreases a.len(),
{
    if a.len() == 0 || b.len() == 0 || a[0] != b[0] {
        0
    } else {
        (1 + common_dlen(a.drop_first(), b.drop_first())) as nat
    }
}

/// The minimal byte string whose digits begin with `p`: the digits of `p`
/// packed into bytes, an odd final digit padded with a zero low nibble.
pub open spec fn min_bytes_of(p: Seq<u8>) -> Seq<u8> {
    Seq::new(
        ((p.len() + 1) / 2) as nat,
        |i: int|
            if 2 * i + 1 < p.len() {
                (p[2 * i] << 4u8) | p[2 * i + 1]
            } else {
                p[2 * i] << 4u8
            },
    )
}

/// ASCII bytes that are hexadecimal digits.
pub open spec fn is_hex_char_byte(b: u8) -> bool {
    (48 <= b && b <= 57) || (97 <= b && b <= 102) || (65 <= b && b <= 70)
}

/// The nibble value of an ASCII hexadecimal digit.
pub open spec fn hex_char_val(b: u8) -> u8 {
    if 48 <= b && b <= 57 {
        (b - 48) as u8
    } else if 97 <= b && b <= 102 {
        (b - 87) as u8
    } else {
        (b - 55) as u8
    }
}

/// The nibble values of a string of ASCII hexadecimal digits.
pub open spec fn hex_digit_values(s: Seq<u8>) -> Seq<u8> {
    Seq::new(s.len(), |i: int| hex_char_val(s[i]))
}

/// Equal digit strings come from equal byte strings.
pub proof fn lemma_digits_injective(a: Seq<u8>, b: Seq<u8>)
    requires
        digits_of_bytes(a) == digits_of_bytes(b),
    ensures
        a == b,
{
    assert(digits_of_bytes(a).len() == 2 * a.len());
    assert(digits_of_bytes(b).len() == 2 * b.len());
    assert(a.len() == b.len());
    assert forall|i: int| 0 <= i < a.len() implies a[i] == b[i] by {
        let x = a[i];
        let y = b[i];
        assert((2 * i) % 2 == 0 && (2 * i + 1) % 2 == 1);
        assert(2 * i / 2 == i && (2 * i + 1) / 2 == i);
        assert(digits_of_bytes(a)[2 * i] == (x >> 4u8));
        assert(digits_of_bytes(b)[2 * i] == (y >> 4u8));
        assert(digits_of_bytes(a)[2 * i + 1] == (x & 0x0fu8));
        assert(digits_of_bytes(b)[2 * i + 1] == (y & 0x0fu8));
        assert(x == y) by (bit_vector)
            requires
                (x >> 4u8) == (y >> 4u8),
                (x & 0x0fu8) == (y & 0x0fu8),
        ;
    }
    assert(a =~= b);
}

/// Dropping a byte drops its two digits.
pub proof fn lemma_digits_drop_first(s: Seq<u8>)
    requires
        s.len() > 0,
    ensures
        digits_of_bytes(s.drop_first()) == digits_of_bytes(s).skip(2),
{
    let lhs = digits_of_bytes(s.drop_first());
    let rhs = digits_of_bytes(s).skip(2);
    assert(lhs.len() == rhs.len());
    assert forall|j: int| 0 <= j < lhs.len() implies lhs[j] == rhs[j] by {
        assert(rhs[j] == digits_of_bytes(s)[j + 2]);
        assert((j + 2) / 2 == j / 2 + 1 && (j + 2) % 2 == j % 2);
        assert(s.drop_first()[j / 2] == s[j / 2 + 1]);
    }
    assert(lhs =~= rhs);
}

/// The byte-level order and the digit-level order agree.
pub proof fn lemma_lex_bytes_iff_digits(a: Seq<u8>, b: Seq<u8>)
    ensures
        lex_lt(a, b) == lex_lt(digits_of_bytes(a), digits_of_bytes(b)),
    decreases a.len(),
{
    let da = digits_of_bytes(a);
    let db = digits_of_bytes(b);
    if b.len() == 0 {
        assert(db.len() == 0);
    } else if a.len() == 0 {
        assert(da.len() == 0 && db.len() > 0);
    } else {
        let x = a[0];
        let y = b[0];
        assert(da[0] == (x >> 4u8) && da[1] == (x & 0x0fu8));
        assert(db[0] == (y >> 4u8) && db[1] == (y & 0x0fu8));
        lemma_digits_drop_first(a);
        lemma_digits_drop_first(b);
        assert(da.drop_first().drop_first() =~= da.skip(2));
        assert(db.drop_first().drop_first() =~= db.skip(2));
        assert(da.drop_first()[0] == da[1] && db.drop_first()[0] == db[1]);
        assert(x < y ==> (x >> 4u8) < (y >> 4u8) || ((x >> 4u8) == (y >> 4u8) && (x & 0x0fu8) < (y
            & 0x0fu8))) by (bit_vector);
        assert(x > y ==> (x >> 4u8) > (y >> 4u8) || ((x >> 4u8) == (y >> 4u8) && (x & 0x0fu8) > (y
            & 0x0fu8))) by (bit_vector);
        assert(x == y ==> (x >> 4u8) == (y >> 4u8) && (x & 0x0fu8) == (y & 0x0fu8))
            by (bit_vector);
        if x == y {
            lemma_lex_bytes_iff_digits(a.drop_first(), b.drop_first());
            assert(lex_lt(da, db) == lex_lt(da.drop_first(), db.drop_first()));
            assert(lex_lt(da.drop_first(), db.drop_first()) == lex_lt(
                da.drop_first().drop_first(),
                db.drop_first().drop_first(),
            ));
        } else if x < y {
            if (x >> 4u8) < (y >> 4u8) {
                assert(lex_lt(da, db));
            } else {
                assert(lex_lt(da.drop_first(), db.drop_first()));
                assert(lex_lt(da, db));
            }
        } else {
            if (x >> 4u8) > (y >> 4u8) {
                assert(!lex_lt(da, db));
            } else {
                assert(!lex_lt(da.drop_first(), db.drop_first()));
                assert(!lex_lt(da, db));
            }
        }
    }
}

/// The common run is bounded by both lengths, agrees position by position,
/// is symmetric, and stops at a real difference.
pub proof fn lemma_common_dlen_props(a: Seq<u8>, b: Seq<u8>)
    ensures
        common_dlen(a, b) <= a.len(),
        common_dlen(a, b) <= b.len(),
        common_dlen(a, b) == common_dlen(b, a),
        forall|j: int| 0 <= j < common_dlen(a, b) ==> a[j] == b[j],
        common_dlen(a, b) < a.len() && common_dlen(a, b) < b.len() ==> a[common_dlen(a, b) as int]
            != b[common_dlen(a, b) as int],
    decreases a.len(),
{
    if a.len() == 0 || b.len() == 0 || a[0] != b[0] {
    } else {
        lemma_common_dlen_props(a.drop_first(), b.drop_first());
        let c = common_dlen(a, b) as int;
        assert(c == 1 + common_dlen(a.drop_first(), b.drop_first()));
        assert forall|j: int| 0 <= j < c implies a[j] == b[j] by {
            if j > 0 {
                assert(a.drop_first()[j - 1] == b.drop_first()[j - 1]);
            }
        }
        if c < a.len() && c < b.len() {
            assert(a.drop_first()[c - 1] != b.drop_first()[c - 1]);
        }
    }
}

/// Sequences that agree on their first `k` positions share a run of at
/// least `k`.
pub proof fn lemma_common_dlen_at_least(a: Seq<u8>, b: Seq<u8>, k: int)
    requires
        0 <= k <= a.len(),
        k <= b.len(),
        forall|j: int| 0 <= j < k ==> a[j] == b[j],
    ensures
        common_dlen(a, b) >= k,
    decreases k,
{
    if k > 0 {
        assert(a[0] == b[0]);
        assert forall|j: int| 0 <= j < k - 1 implies a.drop_first()[j] == b.drop_first()[j] by {
            assert(a[j + 1] == b[j + 1]);
        }
        lemma_common_dlen_at_least(a.drop_first(), b.drop_first(), k - 1);
    }
}

/// Between two sequences on the same side of a third, the nearer one shares
/// at least as long a leading run with it.
pub proof fn lemma_common_dlen_between(a: Seq<u8>, b: Seq<u8>, c: Seq<u8>)
    requires
        lex_le(a, b),
        lex_le(b, c),
    ensures
        common_dlen(a, c) <= common_dlen(b, c),
        common_dlen(a, c) <= common_dlen(a, b),
    decreases a.len(),
{
    if common_dlen(a, c) == 0 {
    } else {
        assert(a.len() > 0 && c.len() > 0 && a[0] == c[0]);
        if b.len() == 0 {
            assert(!lex_lt(a, b));
            assert(a == b);
            assert(false);
        }
        assert(a[0] <= b[0]);
        assert(b[0] <= c[0]);
        assert(a[0] == b[0] && b[0] == c[0]);
        let ta = a.drop_first();
        let tb = b.drop_first();
        let tc = c.drop_first();
        assert(lex_le(ta, tb)) by {
            if a == b {
                assert(ta == tb);
            } else {
                assert(lex_lt(a, b));
                assert(lex_lt(ta, tb));
            }
        }
        assert(lex_le(tb, tc)) by {
            if b == c {
                assert(tb == tc);
            } else {
                assert(lex_lt(b, c));
                assert(lex_lt(tb, tc));
            }
        }
        lemma_common_dlen_between(ta, tb, tc);
        assert(common_dlen(a, c) == 1 + common_dlen(ta, tc));
        assert(common_dlen(b, c) == 1 + common_dlen(tb, tc));
        assert(common_dlen(a, b) == 1 + common_dlen(ta, tb));
    }
}

/// `lemma_common_dlen_between`, carried from the byte-level order to the
/// digit renderings of the byte strings.
pub proof fn lemma_common_between_bytes(a: Seq<u8>, b: Seq<u8>, c: Seq<u8>)
    requires
        lex_le(a, b),
        lex_le(b, c),
    ensures
        common_dlen(digits_of_bytes(a), digits_of_bytes(c)) <= common_dlen(
            digits_of_bytes(b),
            digits_of_bytes(c),
        ),
        common_dlen(digits_of_bytes(a), digits_of_bytes(c)) <= common_dlen(
            digits_of_bytes(a),
            digits_of_bytes(b),
        ),
{
    lemma_lex_bytes_iff_digits(a, b);
    lemma_lex_bytes_iff_digits(b, c);
    lemma_common_dlen_between(digits_of_bytes(a), digits_of_bytes(b), digits_of_bytes(c));
}

/// A proper prefix sorts no later than any extension.
pub proof fn lemma_prefix_lex_le(p: Seq<u8>, d: Seq<u8>)
    requires
        p.is_prefix_of(d),
    ensures
        lex_le(p, d),
{
    if p.len() == d.len() {
        assert(p =~= d);
    } else {
        assert forall|j: int| 0 <= j < p.len() implies p[j] == d[j] by {
            assert(d.subrange(0, p.len() as int)[j] == d[j]);
        }
        lemma_lex_lt_skip_common(p, d, p.len() as int);
        assert(p.skip(p.len() as int).len() == 0);
        assert(d.skip(p.len() as int).len() > 0);
        assert(lex_lt(p, d));
    }
}

/// The digits of `min_bytes_of(p)` are `p`, padded with one zero digit when
/// `p` has odd length.
pub proof fn lemma_min_bytes_digits(p: Seq<u8>)
    requires
        nibbles_ok(p),
    ensures
        p.len() % 2 == 0 ==> digits_of_bytes(min_bytes_of(p)) == p,
        p.len() % 2 == 1 ==> digits_of_bytes(min_bytes_of(p)) == p.push(0),
{
    let mb = min_bytes_of(p);
    let dm = digits_of_bytes(mb);
    let n = p.len() as int;
    assert(mb.len() == (n + 1) / 2);
    assert(dm.len() == 2 * ((n + 1) / 2));
    assert forall|j: int| 0 <= j < dm.len() implies dm[j] == (if j < n {
        p[j]
    } else {
        0u8
    }) by {
        let i = j / 2;
        assert(0 <= i < mb.len());
        if 2 * i + 1 < n {
            let h = p[2 * i];
            let l = p[2 * i + 1];
            assert(mb[i] == (h << 4u8) | l);
            assert(h < 16 && l < 16);
            assert(h < 16 && l < 16 ==> (((h << 4u8) | l) >> 4u8) == h && (((h << 4u8) | l)
                & 0x0fu8) == l) by (bit_vector);
            if j % 2 == 0 {
                assert(j == 2 * i);
                assert(dm[j] == mb[i] >> 4u8);
            } else {
                assert(j == 2 * i + 1);
                assert(dm[j] == mb[i] & 0x0fu8);
            }
        } else {
            let h = p[2 * i];
            assert(mb[i] == h << 4u8);
            assert(h < 16);
            assert(h < 16 ==> ((h << 4u8) >> 4u8) == h && ((h << 4u8) & 0x0fu8) == 0)
                by (bit_vector);
            if j % 2 == 0 {
                assert(j == 2 * i && j < n);
            } else {
                assert(j == 2 * i + 1 && j >= n);
            }
        }
    }
    if n % 2 == 0 {
        assert(dm.len() == n);
        assert(dm =~= p);
    } else {
        assert(dm.len() == n + 1);
        assert(dm =~= p.push(0));
    }
}

/// A padded prefix sorts no later than any proper extension of the prefix.
proof fn lemma_push_zero_le(p: Seq<u8>, d: Seq<u8>)
    requires
        p.is_prefix_of(d),
        d.len() > p.len(),
    ensures
        lex_le(p.push(0), d),
{
    let q = p.push(0);
    let n = p.len() as int;
    assert forall|j: int| 0 <= j < n implies q[j] == d[j] by {
        assert(d.subrange(0, n)[j] == d[j]);
    }
    lemma_lex_lt_skip_common(q, d, n);
    let sq = q.skip(n);
    let sd = d.skip(n);
    assert(sq.len() == 1 && sq[0] == 0);
    assert(sd.len() >= 1 && sd[0] == d[n]);
    if d[n] > 0 {
        assert(lex_lt(sq, sd));
    } else if d.len() > n + 1 {
        assert(lex_lt(sq.drop_first(), sd.drop_first())) by {
            assert(sq.drop_first().len() == 0);
            assert(sd.drop_first().len() > 0);
        }
        assert(lex_lt(sq, sd));
    } else {
        assert(q =~= d);
    }
}

/// A byte string whose digits begin with `p` is at least `min_bytes_of(p)`.
pub proof fn lemma_match_ge_min(p: Seq<u8>, kb: Seq<u8>)
    requires
        nibbles_ok(p),
        p.is_prefix_of(digits_of_bytes(kb)),
    ensures
        lex_le(min_bytes_of(p), kb),
{
    let dk = digits_of_bytes(kb);
    let dm = digits_of_bytes(min_bytes_of(p));
    let n = p.len() as int;
    lemma_min_bytes_digits(p);
    lemma_lex_bytes_iff_digits(min_bytes_of(p), kb);
    if n % 2 == 0 {
        lemma_prefix_lex_le(dm, dk);
    } else {
        assert(dk.len() == 2 * kb.len());
        assert(dk.len() != n);
        assert(dk.len() > n);
        lemma_push_zero_le(p, dk);
    }
    assert(lex_le(dm, dk));
    if dm == dk {
        lemma_digits_injective(min_bytes_of(p), kb);
    }
}

/// Between `min_bytes_of(p)` and any byte string whose digits begin with
/// `p`, every byte string's digits begin with `p`: matches of a prefix form
/// one contiguous interval of the sorted order.
pub proof fn lemma_match_interval(p: Seq<u8>, k1: Seq<u8>, k2: Seq<u8>)
    requires
        nibbles_ok(p),
        lex_le(min_bytes_of(p), k1),
        lex_le(k1, k2),
        p.is_prefix_of(digits_of_bytes(k2)),
    ensures
        p.is_prefix_of(digits_of_bytes(k1)),
{
    let d1 = digits_of_bytes(k1);
    let d2 = digits_of_bytes(k2);
    let q = if p.len() % 2 == 0 {
        p
    } else {
        p.push(0)
    };
    lemma_min_bytes_digits(p);
    lemma_lex_bytes_iff_digits(min_bytes_of(p), k1);
    lemma_lex_bytes_iff_digits(k1, k2);
    if min_bytes_of(p) == k1 {
        assert(q == d1);
    }
    if k1 == k2 {
        assert(d1 == d2);
    }
    assert(lex_le(q, d1));
    assert(lex_le(d1, d2));
    lemma_match_interval_digits(p, q, d1, d2);
}

/// Digit-level core of `lemma_match_interval`.
proof fn lemma_match_interval_digits(p: Seq<u8>, q: Seq<u8>, d1: Seq<u8>, d2: Seq<u8>)
    requires
        p.is_prefix_of(q),
        q.len() <= p.len() + 1,
        lex_le(q, d1),
        lex_le(d1, d2),
        p.is_prefix_of(d2),
    ensures
        p.is_prefix_of(d1),
    decreases p.len(),
{
    if p.len() == 0 {
        assert(p =~= d1.subrange(0, 0));
    } else {
        assert(q[0] == p[0]) by {
            assert(q.subrange(0, p.len() as int)[0] == q[0]);
        }
        assert(d2[0] == p[0]) by {
            assert(d2.subrange(0, p.len() as int)[0] == d2[0]);
        }
        if d1.len() == 0 {
            assert(!lex_lt(q, d1));
            assert(q == d1);
            assert(false);
        }
        assert(q[0] <= d1[0]);
        assert(d1[0] <= d2[0]);
        assert(d1[0] == p[0]);
        let tp = p.drop_first();
        let tq = q.drop_first();
        let t1 = d1.drop_first();
        let t2 = d2.drop_first();
        assert(lex_le(tq, t1)) by {
            if q == d1 {
                assert(tq == t1);
            } else {
                assert(lex_lt(q, d1));
                assert(lex_lt(tq, t1));
            }
        }
        assert(lex_le(t1, t2)) by {
            if d1 == d2 {
                assert(t1 == t2);
            } else {
                assert(lex_lt(d1, d2));
                assert(lex_lt(t1, t2));
            }
        }
        assert(tp.is_prefix_of(tq)) by {
            assert forall|j: int| 0 <= j < tp.len() implies tp[j] == tq[j] by {
                assert(p[j + 1] == q.subrange(0, p.len() as int)[j + 1]);
            }
            assert(tp =~= tq.subrange(0, tp.len() as int));
        }
        assert(tp.is_prefix_of(t2)) by {
            assert forall|j: int| 0 <= j < tp.len() implies tp[j] == t2[j] by {
                assert(p[j + 1] == d2.subrange(0, p.len() as int)[j + 1]);
            }
            assert(tp =~= t2.subrange(0, tp.len() as int));
        }
        lemma_match_interval_digits(tp, tq, t1, t2);
        assert forall|j: int| 0 <= j < p.len() implies p[j] == d1[j] by {
            if j > 0 {
                assert(tp[j - 1] == t1.subrange(0, tp.len() as int)[j - 1]);
                assert(t1[j - 1] == d1[j]);
            }
        }
        assert(p =~= d1.subrange(0, p.len() as int));
    }
}

} // verus!
