//! Identifiers: fixed-format byte strings with a hexadecimal rendering.

use vstd::prelude::*;
use vstd::string::StringSliceAdditionalSpecFns;

use crate::digits::{
    common_dlen, digits_of_bytes, hex_char_val, hex_digit_values, is_hex_char_byte,
    lemma_common_dlen_at_least, lemma_common_dlen_props,
};

verus! {

/// An identifier: an owned byte string, rendered as hex digits and ordered
/// lexicographically by unsigned bytes.
#[derive(Debug, PartialEq, Eq)]
pub struct Id {
    bytes: Vec<u8>,
}

/// A content-hash identifier, one per object.
pub type CommitId = Id;

/// A change identifier; several commits may share one when a change has
/// diverged.
pub type ChangeId = Id;

impl View for Id {
    type V = Seq<u8>;

    closed spec fn view(&self) -> Seq<u8> {
        self.bytes@
    }
}

/// Copies a byte vector exactly.
fn clone_bytes(v: &Vec<u8>) -> (r: Vec<u8>)
    ensures
        r@ == v@,
{
    let mut r: Vec<u8> = Vec::new();
    let mut i: usize = 0;
    while i < v.len()
        invariant
            0 <= i <= v@.len(),
            r@ =~= v@.subrange(0, i as int),
        decreases v@.len() - i,
    {
        r.push(v[i]);
        i = i + 1;
    }
    proof {
        assert(r@ =~= v@);
    }
    r
}

impl Clone for Id {
    fn clone(&self) -> (r: Id)
        ensures
            r@ == self@,
    {
        Id { bytes: clone_bytes(&self.bytes) }
    }
}

impl Id {
    /// Builds an identifier from its bytes.
    pub fn new(bytes: Vec<u8>) -> (r: Id)
        ensures
            r@ == bytes@,
    {
        Id { bytes }
    }

    /// The identifier's bytes.
    pub fn as_bytes(&self) -> (r: &[u8])
        ensures
            r@ == self@,
    {
        self.bytes.as_slice()
    }

    /// Builds an identifier from an even-length string of hex digits.
    pub fn from_hex(s: &str) -> (r: Id)
        requires
            s.spec_bytes().len() % 2 == 0,
            forall|i: int|
                0 <= i < s.spec_bytes().len() ==> is_hex_char_byte(#[trigger] s.spec_bytes()[i]),
        ensures
            r@.len() * 2 == s.spec_bytes().len(),
            digits_of_bytes(r@) == hex_digit_values(s.spec_bytes()),
    {
        let bs = s.as_bytes();
        let ghost bv = s.spec_bytes();
        let mut bytes: Vec<u8> = Vec::new();
        let mut i: usize = 0;
        while i + 1 < bs.len() || i + 1 == bs.len()
            invariant
                bs@ == bv,
                bv.len() % 2 == 0,
                forall|j: int| 0 <= j < bv.len() ==> is_hex_char_byte(#[trigger] bv[j]),
                i % 2 == 0,
                0 <= i <= bv.len(),
                bytes@.len() == i / 2,
                forall|j: int|
                    0 <= j < bytes@.len() ==> #[trigger] bytes@[j] == ((hex_char_val(bv[2 * j])
                        << 4u8) | hex_char_val(bv[2 * j + 1])),
            decreases bv.len() - i,
        {
            let hi = hex_val_exec(bs[i]);
            let lo = hex_val_exec(bs[i + 1]);
            bytes.push((hi << 4u8) | lo);
            i = i + 2;
        }
        proof {
            lemma_packed_digits(bytes@, bv);
        }
        Id { bytes }
    }
}

/// Packed nibble pairs render back to the digit values they came from.
proof fn lemma_packed_digits(bytes: Seq<u8>, bv: Seq<u8>)
    requires
        bv.len() % 2 == 0,
        bytes.len() == bv.len() / 2,
        forall|j: int| 0 <= j < bv.len() ==> is_hex_char_byte(#[trigger] bv[j]),
        forall|j: int|
            0 <= j < bytes.len() ==> #[trigger] bytes[j] == ((hex_char_val(bv[2 * j]) << 4u8)
                | hex_char_val(bv[2 * j + 1])),
    ensures
        digits_of_bytes(bytes) == hex_digit_values(bv),
{
    let dg = digits_of_bytes(bytes);
    let hv = hex_digit_values(bv);
    assert(dg.len() == hv.len());
    assert forall|j: int| 0 <= j < dg.len() implies dg[j] == hv[j] by {
        let i = j / 2;
        let h = hex_char_val(bv[2 * i]);
        let l = hex_char_val(bv[2 * i + 1]);
        assert(h < 16 && l < 16);
        assert(bytes[i] == (h << 4u8) | l);
        assert((((h << 4u8) | l) >> 4u8) == h && (((h << 4u8) | l) & 0x0fu8) == l)
            by (bit_vector)
            requires
                h < 16,
                l < 16,
        ;
        if j % 2 == 0 {
            assert(j == 2 * i);
            assert(dg[j] == bytes[i] >> 4u8);
        } else {
            assert(j == 2 * i + 1);
            assert(dg[j] == bytes[i] & 0x0fu8);
        }
    }
    assert(dg =~= hv);
}

/// The nibble value of one ASCII hex digit.
fn hex_val_exec(b: u8) -> (r: u8)
    requires
        is_hex_char_byte(b),
    ensures
        r == hex_char_val(b),
        r < 16,
{
    if 48 <= b && b <= 57 {
        b - 48
    } else if 97 <= b && b <= 102 {
        b - 87
    } else {
        b - 55
    }
}

/// The number of leading hex digits two byte strings share, capped at the
/// shorter operand's digit length.
pub fn common_hex_len(bytes_a: &[u8], bytes_b: &[u8]) -> (r: usize)
    requires
        2 * bytes_a@.len() <= usize::MAX || 2 * bytes_b@.len() <= usize::MAX,
    ensures
        r == common_dlen(digits_of_bytes(bytes_a@), digits_of_bytes(bytes_b@)),
{
    let ghost da = digits_of_bytes(bytes_a@);
    let ghost db = digits_of_bytes(bytes_b@);
    let n: usize = if bytes_a.len() < bytes_b.len() {
        bytes_a.len()
    } else {
        bytes_b.len()
    };
    proof {
        lemma_common_dlen_props(da, db);
    }
    let mut i: usize = 0;
    while i < n
        invariant
            0 <= i <= n,
            n <= bytes_a@.len(),
            n <= bytes_b@.len(),
            n == bytes_a@.len() || n == bytes_b@.len(),
            2 * n <= usize::MAX,
            da == digits_of_bytes(bytes_a@),
            db == digits_of_bytes(bytes_b@),
            forall|j: int| 0 <= j < i ==> bytes_a@[j] == bytes_b@[j],
            forall|j: int| 0 <= j < 2 * i ==> da[j] == db[j],
        decreases n - i,
    {
        let x = bytes_a[i];
        let y = bytes_b[i];
        if x != y {
            if (x >> 4u8) != (y >> 4u8) {
                proof {
                    lemma_common_dlen_props(da, db);
                    assert(da[2 * i] != db[2 * i]);
                    lemma_common_dlen_at_least(da, db, 2 * i as int);
                    assert(common_dlen(da, db) <= 2 * i);
                }
                return 2 * i;
            } else {
                proof {
                    assert((x & 0x0fu8) != (y & 0x0fu8)) by (bit_vector)
                        requires
                            x != y,
                            (x >> 4u8) == (y >> 4u8),
                    ;
                    lemma_common_dlen_props(da, db);
                    assert(da[2 * i] == db[2 * i]);
                    assert(da[2 * i + 1] != db[2 * i + 1]);
                    lemma_common_dlen_at_least(da, db, 2 * i + 1);
                    assert(common_dlen(da, db) <= 2 * i + 1);
                }
                return 2 * i + 1;
            }
        }
        i = i + 1;
    }
    proof {
        lemma_common_dlen_props(da, db);
        lemma_common_dlen_at_least(da, db, 2 * n as int);
        assert(da.len() == 2 * bytes_a@.len() && db.len() == 2 * bytes_b@.len());
        assert(common_dlen(da, db) <= 2 * n);
    }
    2 * n
}

} // verus!
