use vstd::prelude::*;
use vstd::string::StringSliceAdditionalSpecFns;
use vstd::utf8::{encode_utf8, decode_utf8};
use crate::{Validated, ValidatedWrapper};

verus! {

broadcast use vstd::utf8::group_utf8_lib;

pub const PAD: u8 = 0x3D;

/// `A` to `Z`, `a` to `z`, `0` to `9`, `+` or `/`.
pub open spec fn is_base64_byte(b: u8) -> bool {
    (0x41 <= b <= 0x5A) || (0x61 <= b <= 0x7A) || (0x30 <= b <= 0x39) || b == 0x2B || b == 0x2F
}

/// `t` ends in exactly `p` padding bytes, after alphabet bytes only.
pub open spec fn base64_padded(t: Seq<u8>, p: int) -> bool {
    &&& 0 <= p <= t.len()
    &&& forall|i: int| 0 <= i < t.len() - p ==> is_base64_byte(#[trigger] t[i])
    &&& forall|i: int| t.len() - p <= i < t.len() ==> #[trigger] t[i] == PAD
}

/// Blocks of four; the last one may end in 1 or 2 padding bytes.
pub open spec fn is_base64_text(t: Seq<u8>) -> bool {
    &&& t.len() > 0
    &&& t.len() % 4 == 0
    &&& {
        ||| base64_padded(t, 0)
        ||| base64_padded(t, 1)
        ||| base64_padded(t, 2)
    }
}

#[derive(Debug, PartialEq, Eq, Clone, Copy, Structural)]
pub enum Base64Error {
    IncorrectFormat,
}

#[derive(Debug, PartialEq, Eq, Clone, Copy, Structural)]
pub struct Base64Validator {}

/// A validated Base64 string.
#[derive(Debug, Hash)]
pub struct Base64 {
    base64: String,
}

impl View for Base64 {
    type V = Seq<u8>;

    closed spec fn view(&self) -> Seq<u8> {
        encode_utf8(self.base64@)
    }
}

impl Clone for Base64 {
    fn clone(&self) -> (r: Base64)
        ensures
            r@ == self@,
    {
        proof {
            use_type_invariant(self);
        }
        Base64 {
            base64: self.base64.clone(),
        }
    }
}

/// Two values are equal when their strings are.
impl PartialEq for Base64 {
    fn eq(&self, other: &Base64) -> (r: bool) {
        proof {
            assert(decode_utf8(encode_utf8(self.base64@)) == self.base64@);
            assert(decode_utf8(encode_utf8(other.base64@)) == other.base64@);
        }
        self.base64 == other.base64
    }
}

impl vstd::std_specs::cmp::PartialEqSpecImpl for Base64 {
    open spec fn obeys_eq_spec() -> bool {
        true
    }

    open spec fn eq_spec(&self, other: &Base64) -> bool {
        self@ == other@
    }
}

impl Eq for Base64 {}

/// What a parse of `s` gives.
pub open spec fn base64_parsed_as(r: Result<Base64, Base64Error>, s: Seq<u8>) -> bool {
    match r {
        Ok(d) => is_base64_text(s) && d@ == s,
        Err(e) => !is_base64_text(s) && e == Base64Error::IncorrectFormat,
    }
}

/// Checks the Base64 grammar on `b`.
fn check_base64(b: &[u8]) -> (r: bool)
    ensures
        r == is_base64_text(b@),
{
    let n = b.len();
    if n == 0 || n % 4 != 0 {
        return false;
    }
    let mut i: usize = 0;
    while i < n && (0x41 <= b[i] && b[i] <= 0x5A || 0x61 <= b[i] && b[i] <= 0x7A || 0x30 <= b[i]
        && b[i] <= 0x39 || b[i] == 0x2B || b[i] == 0x2F)
        invariant
            i <= n == b@.len(),
            forall|j: int| 0 <= j < i ==> is_base64_byte(#[trigger] b@[j]),
        decreases n - i,
    {
        i = i + 1;
    }
    let p = n - i;
    if p > 2 {
        proof {
            assert forall|q: int| 0 <= q <= n && q != p implies !base64_padded(b@, q) by {
                if base64_padded(b@, q) {
                    if q < p {
                        assert(is_base64_byte(b@[i as int]));
                    } else {
                        assert(b@[n - q] == PAD);
                        assert(is_base64_byte(b@[n - q]));
                    }
                }
            }
        }
        return false;
    }
    let mut j: usize = i;
    while j < n
        invariant
            i <= j <= n == b@.len(),
            p == n - i,
            i < n ==> !is_base64_byte(b@[i as int]),
            forall|k: int| 0 <= k < i ==> is_base64_byte(#[trigger] b@[k]),
            forall|k: int| i <= k < j ==> #[trigger] b@[k] == PAD,
        decreases n - j,
    {
        if b[j] != PAD {
            proof {
                assert forall|q: int| 0 <= q <= n implies !base64_padded(b@, q) by {
                    if base64_padded(b@, q) {
                        if q < p {
                            assert(is_base64_byte(b@[i as int]));
                        } else if q > p {
                            assert(b@[n - q] == PAD);
                            assert(is_base64_byte(b@[n - q]));
                        } else {
                            assert(b@[j as int] == PAD);
                        }
                    }
                }
            }
            return false;
        }
        j = j + 1;
    }
    assert(base64_padded(b@, p as int));
    true
}

impl Base64 {
    #[verifier::type_invariant]
    spec fn inv(&self) -> bool {
        is_base64_text(self@)
    }

    pub fn get_base64(&self) -> (r: &str)
        ensures
            r.spec_bytes() == self@,
    {
        self.base64.as_str()
    }

    pub fn into_string(self) -> (r: String)
        ensures
            encode_utf8(r@) == self@,
    {
        self.base64
    }

    fn create_validator() -> Base64Validator {
        Base64Validator {}
    }

    pub fn from_string(base64: String) -> (r: Result<Self, Base64Error>)
        ensures
            base64_parsed_as(r, encode_utf8(base64@)),
    {
        Base64::create_validator().parse_string(base64)
    }

    pub fn from_str(base64: &str) -> (r: Result<Self, Base64Error>)
        ensures
            base64_parsed_as(r, base64.spec_bytes()),
    {
        Base64::create_validator().parse_str(base64)
    }
}

impl Base64Validator {
    pub fn is_base64(&self, base64: &str) -> (r: bool)
        ensures
            r == is_base64_text(base64.spec_bytes()),
    {
        check_base64(base64.as_bytes())
    }

    pub fn parse_string(&self, base64: String) -> (r: Result<Base64, Base64Error>)
        ensures
            base64_parsed_as(r, encode_utf8(base64@)),
    {
        if check_base64(base64.as_str().as_bytes()) {
            Ok(Base64 { base64 })
        } else {
            Err(Base64Error::IncorrectFormat)
        }
    }

    pub fn parse_str(&self, base64: &str) -> (r: Result<Base64, Base64Error>)
        ensures
            base64_parsed_as(r, base64.spec_bytes()),
    {
        if check_base64(base64.as_bytes()) {
            Ok(Base64 { base64: base64.to_owned() })
        } else {
            Err(Base64Error::IncorrectFormat)
        }
    }
}

impl Validated for Base64 {}

impl ValidatedWrapper for Base64 {
    type Error = Base64Error;

    fn from_string(base64: String) -> Result<Self, Self::Error> {
        Base64::from_string(base64)
    }

    fn from_str(base64: &str) -> Result<Self, Self::Error> {
        Base64::from_str(base64)
    }
}

} // verus!
