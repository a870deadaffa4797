use vstd::prelude::*;

pub mod text;
pub mod domain;
pub mod ipv6;
pub mod ipv4;
pub mod base32;
pub mod base64;

verus! {

/// Tri-state rule for an optional part of an input.
#[derive(Debug, PartialEq, Eq, Structural, Clone, Copy)]
pub enum ValidatorOption {
    Must,
    Allow,
    NotAllow,
}

/// Code of `ValidatorOption::Must` in a policy type parameter.
pub const MUST: u8 = 0;

/// Code of `ValidatorOption::Allow` in a policy type parameter.
pub const ALLOW: u8 = 1;

/// Code of `ValidatorOption::NotAllow` in a policy type parameter.
pub const NOT_ALLOW: u8 = 2;

/// The option that a policy code stands for; codes above 2 read as `NotAllow`.
pub open spec fn option_of_code(c: u8) -> ValidatorOption {
    if c == 0 {
        ValidatorOption::Must
    } else if c == 1 {
        ValidatorOption::Allow
    } else {
        ValidatorOption::NotAllow
    }
}

impl ValidatorOption {
    /// The option that a policy code stands for.
    pub fn from_code(c: u8) -> (r: ValidatorOption)
        ensures
            r == option_of_code(c),
    {
        if c == MUST {
            ValidatorOption::Must
        } else if c == ALLOW {
            ValidatorOption::Allow
        } else {
            ValidatorOption::NotAllow
        }
    }

    /// The part may be present.
    pub fn allow(&self) -> (r: bool)
        ensures
            r == (*self != ValidatorOption::NotAllow),
    {
        match self {
            ValidatorOption::Must => true,
            ValidatorOption::Allow => true,
            ValidatorOption::NotAllow => false,
        }
    }

    /// The part must be absent.
    pub fn not_allow(&self) -> (r: bool)
        ensures
            r == (*self == ValidatorOption::NotAllow),
    {
        match self {
            ValidatorOption::Must => false,
            ValidatorOption::Allow => false,
            ValidatorOption::NotAllow => true,
        }
    }

    /// The part must be present.
    pub fn must(&self) -> (r: bool)
        ensures
            r == (*self == ValidatorOption::Must),
    {
        match self {
            ValidatorOption::Must => true,
            ValidatorOption::Allow => false,
            ValidatorOption::NotAllow => false,
        }
    }
}

/// A value that passed validation.
pub trait Validated: PartialEq + Clone + core::fmt::Debug {}

/// A validated type that can be built from a string.
pub trait ValidatedWrapper: Validated + Sized {
    type Error: PartialEq + Clone + core::fmt::Debug;

    fn from_string(from_string_input: String) -> Result<Self, Self::Error>;

    fn from_str(from_str_input: &str) -> Result<Self, Self::Error>;
}

} // verus!
