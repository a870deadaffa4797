use vstd::prelude::*;
use vstd::string::StringSliceAdditionalSpecFns;
use vstd::utf8::{encode_utf8, decode_utf8};
use crate::{Validated, ValidatedWrapper};

verus! {

broadcast use vstd::utf8::group_utf8_lib;

pub const PAD: u8 = 0x3D;

/// `A` to `Z` or `2` to `7`.
pub open spec fn is_base32_byte(b: u8) -> bool {
    (0x41 <= b <= 0x5A) || (0x32 <= b <= 0x37)
}

/// `t` ends in exactly `p` padding bytes, after alphabet bytes only.
pub open spec fn base32_padded(t: Seq<u8>, p: int) -> bool {
    &&& 0 <= p <= t.len()
    &&& forall|i: int| 0 <= i < t.len() - p ==> is_base32_byte(#[trigger] t[i])
    &&& forall|i: int| t.len() - p <= i < t.len() ==> #[trigger] t[i] == PAD
}

/// Blocks of eight; the last one may end in 1, 3, 4 or 6 padding bytes.
pub open spec fn is_base32_text(t: Seq<u8>) -> bool {
    &&& t.len() > 0
    &&& t.len() % 8 == 0
    &&& {
        ||| base32_padded(t, 0)
        ||| base32_padded(t, 1)
        ||| base32_padded(t, 3)
        ||| base32_padded(t, 4)
        ||| base32_padded(t, 6)
    }
}

#[derive(Debug, PartialEq, Eq, Clone, Copy, Structural)]
pub enum Base32Error {
    IncorrectFormat,
}

#[derive(Debug, PartialEq, Eq, Clone, Copy, Structural)]
pub struct Base32Validator {}

/// A validated Base32 string.
#[derive(Debug, Hash)]
pub struct Base32 {
    base32: String,
}

impl View for Base32 {
    type V = Seq<u8>;

    closed spec fn view(&self) -> Seq<u8> {
        encode_utf8(self.base32@)
    }
}

impl Clone for Base32 {
    fn clone(&self) -> (r: Base32)
        ensures
            r@ == self@,
    {
        proof {
            use_type_invariant(self);
        }
        Base32 {
            base32: self.base32.clone(),
        }
    }
}

/// Two values are equal when their strings are.
impl PartialEq for Base32 {
    fn eq(&self, other: &Base32) -> (r: bool) {
        proof {
            assert(decode_utf8(encode_utf8(self.base32@)) == self.base32@);
            assert(decode_utf8(encode_utf8(other.base32@)) == other.base32@);
        }
        self.base32 == other.base32
    }
}

impl vstd::std_specs::cmp::PartialEqSpecImpl for Base32 {
    open spec fn obeys_eq_spec() -> bool {
        true
    }

    open spec fn eq_spec(&self, other: &Base32) -> bool {
        self@ == other@
    }
}

impl Eq for Base32 {}

/// What a parse of `s` gives.
pub open spec fn base32_parsed_as(r: Result<Base32, Base32Error>, s: Seq<u8>) -> bool {
    match r {
        Ok(d) => is_base32_text(s) && d@ == s,
        Err(e) => !is_base32_text(s) && e == Base32Error::IncorrectFormat,
    }
}

/// Checks the Base32 grammar on `b`.
fn check_base32(b: &[u8]) -> (r: bool)
    ensures
        r == is_base32_text(b@),
{
    let n = b.len();
    if n == 0 || n % 8 != 0 {
        return false;
    }
    let mut i: usize = 0;
    while i < n && (0x41 <= b[i] && b[i] <= 0x5A || 0x32 <= b[i] && b[i] <= 0x37)
        invariant
            i <= n == b@.len(),
            forall|j: int| 0 <= j < i ==> is_base32_byte(#[trigger] b@[j]),
        decreases n - i,
    {
        i = i + 1;
    }
    let p = n - i;
    if p != 0 && p != 1 && p != 3 && p != 4 && p != 6 {
        proof {
            assert forall|q: int| 0 <= q <= n && q != p implies !base32_padded(b@, q) by {
                if base32_padded(b@, q) {
                    if q < p {
                        assert(is_base32_byte(b@[i as int]));
                    } else {
                        assert(b@[n - q] == PAD);
                        assert(is_base32_byte(b@[n - q]));
                    }
                }
            }
        }
        return false;
    }
    let mut j: usize = i;
    while j < n
        invariant
            i <= j <= n == b@.len(),
            p == n - i,
            i < n ==> !is_base32_byte(b@[i as int]),
            forall|k: int| 0 <= k < i ==> is_base32_byte(#[trigger] b@[k]),
            forall|k: int| i <= k < j ==> #[trigger] b@[k] == PAD,
        decreases n - j,
    {
        if b[j] != PAD {
            proof {
                assert forall|q: int| 0 <= q <= n implies !base32_padded(b@, q) by {
                    if base32_padded(b@, q) {
                        if q < p {
                            assert(is_base32_byte(b@[i as int]));
                        } else if q > p {
                            assert(b@[n - q] == PAD);
                            assert(is_base32_byte(b@[n - q]));
                        } else {
                            assert(b@[j as int] == PAD);
                        }
                    }
                }
            }
            return false;
        }
        j = j + 1;
    }
    assert(base32_padded(b@, p as int));
    true
}

impl Base32 {
    #[verifier::type_invariant]
    spec fn inv(&self) -> bool {
        is_base32_text(self@)
    }

    pub fn get_base32(&self) -> (r: &str)
        ensures
            r.spec_bytes() == self@,
    {
        self.base32.as_str()
    }

    pub fn into_string(self) -> (r: String)
        ensures
            encode_utf8(r@) == self@,
    {
        self.base32
    }

    fn create_validator() -> Base32Validator {
        Base32Validator {}
    }

    pub fn from_string(base32: String) -> (r: Result<Self, Base32Error>)
        ensures
            base32_parsed_as(r, encode_utf8(base32@)),
    {
        Base32::create_validator().parse_string(base32)
    }

    pub fn from_str(base32: &str) -> (r: Result<Self, Base32Error>)
        ensures
            base32_parsed_as(r, base32.spec_bytes()),
    {
        Base32::create_validator().parse_str(base32)
    }
}

impl Base32Validator {
    pub fn is_base32(&self, base32: &str) -> (r: bool)
        ensures
            r == is_base32_text(base32.spec_bytes()),
    {
        check_base32(base32.as_bytes())
    }

    pub fn parse_string(&self, base32: String) -> (r: Result<Base32, Base32Error>)
        ensures
            base32_parsed_as(r, encode_utf8(base32@)),
    {
        if check_base32(base32.as_str().as_bytes()) {
            Ok(Base32 { base32 })
        } else {
            Err(Base32Error::IncorrectFormat)
        }
    }

    pub fn parse_str(&self, base32: &str) -> (r: Result<Base32, Base32Error>)
        ensures
            base32_parsed_as(r, base32.spec_bytes()),
    {
        if check_base32(base32.as_bytes()) {
            Ok(Base32 { base32: base32.to_owned() })
        } else {
            Err(Base32Error::IncorrectFormat)
        }
    }
}

impl Validated for Base32 {}

impl ValidatedWrapper for Base32 {
    type Error = Base32Error;

    fn from_string(base32: String) -> Result<Self, Self::Error> {
        Base32::from_string(base32)
    }

    fn from_str(base32: &str) -> Result<Self, Self::Error> {
        Base32::from_str(base32)
    }
}

} // verus!
