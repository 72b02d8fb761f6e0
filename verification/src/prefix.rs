//! Prefix queries: partial, possibly odd-length, hex digit strings.

use vstd::prelude::*;
use vstd::string::StringSliceAdditionalSpecFns;

use crate::digits::{
    digits_of_bytes, hex_char_val, hex_digit_values, is_hex_char_byte, min_bytes_of, nibbles_ok,
};
use crate::ids::Id;

verus! {

/// A prefix query: a sequence of hex digit values, of any length from zero
/// (which matches every identifier) up to and beyond an identifier's digit
/// length, with an odd length matching only the high nibble of its last
/// byte.
#[derive(Debug, Clone, PartialEq, Eq)]
pub struct HexPrefix {
    digits: Vec<u8>,
}

impl View for HexPrefix {
    type V = Seq<u8>;

    closed spec fn view(&self) -> Seq<u8> {
        self.digits@
    }
}

impl HexPrefix {
    /// Every stored digit is a nibble value.
    pub open spec fn wf(self) -> bool {
        nibbles_ok(self@)
    }

    /// Parses a query from text; `None` exactly when some character is not
    /// a hex digit.
    pub fn new(input: &str) -> (r: Option<HexPrefix>)
        ensures
            (r is Some) == (forall|i: int|
                0 <= i < input.spec_bytes().len() ==> is_hex_char_byte(
                    #[trigger] input.spec_bytes()[i],
                )),
            r is Some ==> r->Some_0@ == hex_digit_values(input.spec_bytes()),
            r is Some ==> r->Some_0.wf(),
    {
        let bs = input.as_bytes();
        let ghost bv = input.spec_bytes();
        let mut digits: Vec<u8> = Vec::new();
        let mut i: usize = 0;
        while i < bs.len()
            invariant
                bs@ == bv,
                bv == input.spec_bytes(),
                0 <= i <= bv.len(),
                digits@.len() == i,
                forall|j: int| 0 <= j < i ==> is_hex_char_byte(#[trigger] bv[j]),
                forall|j: int| 0 <= j < i ==> #[trigger] digits@[j] == hex_char_val(bv[j]),
            decreases bv.len() - i,
        {
            let b = bs[i];
            let is_digit = 48 <= b && b <= 57;
            let is_lower = 97 <= b && b <= 102;
            let is_upper = 65 <= b && b <= 70;
            if !(is_digit || is_lower || is_upper) {
                proof {
                    assert(!is_hex_char_byte(input.spec_bytes()[i as int]));
                }
                return None;
            }
            if is_digit {
                digits.push(b - 48);
            } else if is_lower {
                digits.push(b - 87);
            } else {
                digits.push(b - 55);
            }
            i = i + 1;
        }
        proof {
            assert(digits@ =~= hex_digit_values(bv));
        }
        Some(HexPrefix { digits })
    }

    /// The minimal byte string that lower-bounds every identifier whose
    /// digits begin with this query.
    pub fn min_prefix_bytes(&self) -> (r: Vec<u8>)
        ensures
            r@ == min_bytes_of(self@),
    {
        let plen = self.digits.len();
        let n: usize = plen / 2 + plen % 2;
        proof {
            assert(n == (self@.len() + 1) / 2);
        }
        let mut r: Vec<u8> = Vec::new();
        let mut i: usize = 0;
        while i < n
            invariant
                0 <= i <= n,
                plen == self@.len(),
                n == (self@.len() + 1) / 2,
                r@.len() == i,
                forall|j: int| 0 <= j < i ==> #[trigger] r@[j] == min_bytes_of(self@)[j],
            decreases n - i,
        {
            let b: u8 = if 2 * i + 1 < plen {
                (self.digits[2 * i] << 4u8) | self.digits[2 * i + 1]
            } else {
                self.digits[2 * i] << 4u8
            };
            r.push(b);
            i = i + 1;
        }
        proof {
            assert(r@ =~= min_bytes_of(self@));
        }
        r
    }

    /// Does the identifier's digit rendering begin with this query?
    pub fn matches(&self, id: &Id) -> (r: bool)
        ensures
            r == self@.is_prefix_of(digits_of_bytes(id@)),
    {
        let bs = id.as_bytes();
        let ghost dk = digits_of_bytes(id@);
        let plen = self.digits.len();
        let mut i: usize = 0;
        while i < plen
            invariant
                bs@ == id@,
                dk == digits_of_bytes(id@),
                plen == self@.len(),
                0 <= i <= plen,
                2 * bs@.len() >= i,
                forall|j: int| 0 <= j < i ==> self@[j] == dk[j],
            decreases plen - i,
        {
            let bi = i / 2;
            if bi >= bs.len() {
                proof {
                    assert(i >= 2 * bs@.len());
                    assert(dk.len() < self@.len());
                }
                return false;
            }
            let b = bs[bi];
            let d: u8 = if i % 2 == 0 {
                b >> 4u8
            } else {
                b & 0x0fu8
            };
            proof {
                assert(dk[i as int] == d);
            }
            if d != self.digits[i] {
                proof {
                    assert(self@[i as int] != dk[i as int]);
                    if self@.is_prefix_of(dk) {
                        assert(self@[i as int] == dk.subrange(0, self@.len() as int)[i as int]);
                    }
                }
                return false;
            }
            i = i + 1;
        }
        proof {
            assert(self@.len() <= dk.len());
            assert(self@ =~= dk.subrange(0, self@.len() as int));
        }
        true
    }
}

} // verus!
