use vstd::prelude::*;
use vstd::string::StringSliceAdditionalSpecFns;
use vstd::utf8::{encode_utf8, decode_utf8};
use crate::{ValidatorOption, Validated, ValidatedWrapper, option_of_code, MUST, ALLOW, NOT_ALLOW};
use crate::text::{
    DOT, COLON, all_digits, digits_value, last_before, lemma_last_before_range, ascii_cut_point,
    ascii_cut, read_port_digits, colon_index, has_port, host_end, port_text, port_start, port_value,
    port_of, without_port_text, decimal, lemma_decimal_of_digits, lemma_last_before_at_least,
};

verus! {

broadcast use vstd::utf8::group_utf8_lib;

/// A byte that may stand in a label: no control byte, `.`, `/`, `:`, `@` or DEL.
pub open spec fn is_label_byte(b: u8) -> bool {
    0x20 <= b && b != 0x2E && b != 0x2F && b != 0x3A && b != 0x40 && b != 0x7F
}

/// How many bytes of the label that runs up to position `i` of `s` stand before `i`.
pub open spec fn label_run(s: Seq<u8>, i: int) -> nat
    decreases i,
{
    if i <= 0 || s[i - 1] == DOT {
        0
    } else {
        label_run(s, i - 1) + 1
    }
}

/// The first `end` bytes of `s` are labels of 1 to 63 label bytes, joined by dots.
pub open spec fn is_host(s: Seq<u8>, end: int) -> bool {
    &&& forall|i: int|
        0 <= i < end ==> is_label_byte(#[trigger] s[i]) || (s[i] == DOT && label_run(s, i) > 0)
    &&& forall|i: int| 0 <= i <= end ==> #[trigger] label_run(s, i) <= 63
    &&& label_run(s, end) > 0
}

/// The whole-string grammar: a host, then at most one `:` with 1 to 5 digits.
pub open spec fn domain_syntax(s: Seq<u8>) -> bool {
    &&& is_host(s, host_end(s))
    &&& has_port(s) ==> 1 <= port_text(s).len() <= 5 && all_digits(port_text(s))
}

/// Index of the dot before the top-level label, or -1 for a single label.
pub open spec fn tld_dot(s: Seq<u8>) -> int {
    last_before(s, DOT, host_end(s))
}

/// Index of the dot before the domain label, or -1 when there is no subdomain.
pub open spec fn domain_dot(s: Seq<u8>) -> int {
    if tld_dot(s) >= 0 {
        last_before(s, DOT, tld_dot(s))
    } else {
        -1
    }
}

pub open spec fn domain_start(s: Seq<u8>) -> int {
    domain_dot(s) + 1
}

/// Start of the top-level label, or the length when there is none.
pub open spec fn tld_start(s: Seq<u8>) -> int {
    if tld_dot(s) >= 0 {
        tld_dot(s) + 1
    } else {
        s.len() as int
    }
}

/// `localhost` in lower case.
pub open spec fn localhost_bytes() -> Seq<u8> {
    seq![0x6Cu8, 0x6F, 0x63, 0x61, 0x6C, 0x68, 0x6F, 0x73, 0x74]
}

pub open spec fn ascii_lower(b: u8) -> u8 {
    if 0x41 <= b <= 0x5A {
        (b + 0x20) as u8
    } else {
        b
    }
}

/// `t` is `localhost` in any mix of cases.
pub open spec fn is_localhost_text(t: Seq<u8>) -> bool {
    t.len() == 9 && forall|i: int| 0 <= i < 9 ==> ascii_lower(#[trigger] t[i]) == localhost_bytes()[i]
}

/// The host is the single label `localhost`.
pub open spec fn localhost_flag(s: Seq<u8>) -> bool {
    tld_dot(s) < 0 && is_localhost_text(s.subrange(0, host_end(s)))
}

/// The grammar holds, the host is at most 255 bytes, and a host of one label is
/// `localhost`.
pub open spec fn domain_shape_ok(s: Seq<u8>) -> bool {
    &&& domain_syntax(s)
    &&& host_end(s) <= 255
    &&& tld_dot(s) < 0 ==> localhost_flag(s)
}

/// What a `Domain` holds: a string with a valid shape whose port, if any, fits in `u16`.
pub open spec fn domain_accepted(s: Seq<u8>) -> bool {
    domain_shape_ok(s) && (has_port(s) ==> port_value(s) <= 65535)
}

/// The error, if any, that the port and localhost rules give for an accepted string.
pub open spec fn domain_policy_error(
    port: ValidatorOption,
    localhost: ValidatorOption,
    s: Seq<u8>,
) -> Option<DomainError> {
    if has_port(s) && port == ValidatorOption::NotAllow {
        Some(DomainError::PortNotAllow)
    } else if !has_port(s) && port == ValidatorOption::Must {
        Some(DomainError::PortNotFound)
    } else if localhost == ValidatorOption::Must && !localhost_flag(s) {
        Some(DomainError::LocalhostNotFound)
    } else if localhost == ValidatorOption::NotAllow && localhost_flag(s) {
        Some(DomainError::LocalhostNotAllow)
    } else {
        None
    }
}

/// The error that parsing `s` gives, in the order format, port, localhost; `None` on success.
pub open spec fn domain_error(
    port: ValidatorOption,
    localhost: ValidatorOption,
    s: Seq<u8>,
) -> Option<DomainError> {
    if !domain_shape_ok(s) {
        Some(DomainError::IncorrectFormat)
    } else if has_port(s) && port == ValidatorOption::NotAllow {
        Some(DomainError::PortNotAllow)
    } else if has_port(s) && port_value(s) > 65535 {
        Some(DomainError::IncorrectPort)
    } else {
        domain_policy_error(port, localhost, s)
    }
}

/// The top-level label, if the host has more than one label.
pub open spec fn tld_text(s: Seq<u8>) -> Option<Seq<u8>> {
    if tld_dot(s) >= 0 {
        Some(s.subrange(tld_dot(s) + 1, host_end(s)))
    } else {
        None
    }
}

/// The label before the top-level label, or the only label.
pub open spec fn domain_text(s: Seq<u8>) -> Seq<u8> {
    if tld_dot(s) >= 0 {
        s.subrange(domain_start(s), tld_dot(s))
    } else {
        s.subrange(0, host_end(s))
    }
}

/// The labels before the domain label, if any.
pub open spec fn sub_domain_text(s: Seq<u8>) -> Option<Seq<u8>> {
    if domain_dot(s) >= 0 {
        Some(s.subrange(0, domain_dot(s)))
    } else {
        None
    }
}

#[derive(Debug, PartialEq, Eq, Clone, Copy, Structural)]
pub enum DomainError {
    IncorrectFormat,
    IncorrectPort,
    PortNotAllow,
    PortNotFound,
    LocalhostNotAllow,
    LocalhostNotFound,
}

/// Rules for a domain: whether a port and the host `localhost` may or must appear.
#[derive(Debug, PartialEq, Eq, Structural, Clone, Copy)]
pub struct DomainValidator {
    pub port: ValidatorOption,
    pub localhost: ValidatorOption,
}

/// A validated domain: the string and the offsets of its parts.
#[derive(Debug, Hash)]
pub struct Domain {
    top_level_domain: usize,
    domain: usize,
    port: u16,
    port_index: usize,
    full_domain: String,
    full_domain_len: usize,
    is_localhost: bool,
}

/// Offsets and flags computed for an input before a string is attached to them.
struct DomainShape {
    top_level_domain: usize,
    domain: usize,
    port: u16,
    port_index: usize,
    full_domain_len: usize,
    is_localhost: bool,
}

impl DomainShape {
    /// The shape is the one of `s`.
    spec fn describes(&self, s: Seq<u8>) -> bool {
        &&& domain_accepted(s)
        &&& self.full_domain_len == s.len()
        &&& self.domain == domain_start(s)
        &&& self.top_level_domain == tld_start(s)
        &&& self.port_index == port_start(s)
        &&& self.port == (if has_port(s) { port_value(s) as u16 } else { 0u16 })
        &&& self.is_localhost == localhost_flag(s)
    }
}

impl View for Domain {
    type V = Seq<u8>;

    closed spec fn view(&self) -> Seq<u8> {
        encode_utf8(self.full_domain@)
    }
}

impl Clone for Domain {
    fn clone(&self) -> (r: Domain)
        ensures
            r@ == self@,
    {
        proof {
            use_type_invariant(self);
        }
        Domain {
            top_level_domain: self.top_level_domain,
            domain: self.domain,
            port: self.port,
            port_index: self.port_index,
            full_domain: self.full_domain.clone(),
            full_domain_len: self.full_domain_len,
            is_localhost: self.is_localhost,
        }
    }
}

/// Two domains are equal when their strings are.
impl PartialEq for Domain {
    fn eq(&self, other: &Domain) -> (r: bool) {
        proof {
            assert(decode_utf8(encode_utf8(self.full_domain@)) == self.full_domain@);
            assert(decode_utf8(encode_utf8(other.full_domain@)) == other.full_domain@);
        }
        self.full_domain == other.full_domain
    }
}

impl vstd::std_specs::cmp::PartialEqSpecImpl for Domain {
    open spec fn obeys_eq_spec() -> bool {
        true
    }

    open spec fn eq_spec(&self, other: &Domain) -> bool {
        self@ == other@
    }
}

impl Eq for Domain {}

impl Validated for Domain {}

/// Where the parts of an accepted string lie, as the accessors need it.
proof fn lemma_shape_facts(s: Seq<u8>)
    requires
        domain_accepted(s),
    ensures
        0 <= domain_start(s) <= host_end(s) <= s.len(),
        tld_dot(s) >= 0 ==> domain_start(s) < tld_dot(s) < host_end(s) && s[tld_dot(s)] == DOT,
        domain_dot(s) >= 0 ==> s[domain_dot(s)] == DOT,
        has_port(s) ==> s[host_end(s)] == COLON,
        ascii_cut_point(s, domain_start(s)),
        ascii_cut_point(s, host_end(s)),
        tld_dot(s) >= 0 ==> ascii_cut_point(s, tld_dot(s)) && ascii_cut_point(s, tld_dot(s) + 1),
        domain_dot(s) >= 0 ==> ascii_cut_point(s, domain_dot(s)),
{
    lemma_last_before_range(s, COLON, s.len() as int);
    let he = host_end(s);
    lemma_last_before_range(s, DOT, he);
    let t = tld_dot(s);
    if t >= 0 {
        lemma_last_before_range(s, DOT, t);
        assert(label_run(s, t) > 0);
        let d = domain_dot(s);
        if d >= 0 {
            assert(d < t - 1) by {
                if d == t - 1 {
                    assert(label_run(s, t) == 0);
                }
            }
        } else {
            assert(0 < t);
        }
        assert(label_run(s, he) > 0);
        assert(t + 1 < he) by {
            if t + 1 == he {
                assert(s[he - 1] == DOT);
            }
        }
    }
}

impl Domain {
    #[verifier::type_invariant]
    spec fn inv(&self) -> bool {
        DomainShape {
            top_level_domain: self.top_level_domain,
            domain: self.domain,
            port: self.port,
            port_index: self.port_index,
            full_domain_len: self.full_domain_len,
            is_localhost: self.is_localhost,
        }.describes(self@)
    }

    /// The top-level label, when the host has more than one label.
    pub fn get_top_level_domain(&self) -> (r: Option<&str>)
        ensures
            r is Some <==> tld_text(self@) is Some,
            r matches Some(t) ==> t.spec_bytes() == tld_text(self@)->Some_0,
    {
        proof {
            use_type_invariant(self);
            lemma_shape_facts(self@);
        }
        let s = self.full_domain.as_str();
        if self.top_level_domain != self.full_domain_len {
            if self.port_index != self.full_domain_len {
                Some(ascii_cut(s, self.top_level_domain, self.port_index - 1))
            } else {
                Some(ascii_cut(s, self.top_level_domain, self.full_domain_len))
            }
        } else {
            None
        }
    }

    /// The label before the top-level label, or the only label.
    pub fn get_domain(&self) -> (r: &str)
        ensures
            r.spec_bytes() == domain_text(self@),
    {
        proof {
            use_type_invariant(self);
            lemma_shape_facts(self@);
        }
        let s = self.full_domain.as_str();
        if self.top_level_domain != self.full_domain_len {
            ascii_cut(s, self.domain, self.top_level_domain - 1)
        } else {
            if self.port_index != self.full_domain_len {
                ascii_cut(s, self.domain, self.port_index - 1)
            } else {
                ascii_cut(s, self.domain, self.full_domain_len)
            }
        }
    }

    /// The labels before the domain label, if any.
    pub fn get_sub_domain(&self) -> (r: Option<&str>)
        ensures
            r is Some <==> sub_domain_text(self@) is Some,
            r matches Some(t) ==> t.spec_bytes() == sub_domain_text(self@)->Some_0,
    {
        proof {
            use_type_invariant(self);
            lemma_shape_facts(self@);
        }
        if self.domain > 0 {
            Some(ascii_cut(self.full_domain.as_str(), 0, self.domain - 1))
        } else {
            None
        }
    }

    /// The whole string.
    pub fn get_full_domain(&self) -> (r: &str)
        ensures
            r.spec_bytes() == self@,
    {
        self.full_domain.as_str()
    }

    /// The string without `:` and the port.
    pub fn get_full_domain_without_port(&self) -> (r: &str)
        ensures
            r.spec_bytes() == without_port_text(self@),
    {
        proof {
            use_type_invariant(self);
            lemma_shape_facts(self@);
        }
        let s = self.full_domain.as_str();
        if self.port_index != self.full_domain_len {
            ascii_cut(s, 0, self.port_index - 1)
        } else {
            proof {
                assert(s.spec_bytes() =~= without_port_text(self@));
            }
            s
        }
    }

    pub fn get_port(&self) -> (r: Option<u16>)
        ensures
            r == port_of(self@),
    {
        proof {
            use_type_invariant(self);
        }
        if self.port_index != self.full_domain_len {
            Some(self.port)
        } else {
            None
        }
    }

    /// The host is the single label `localhost`, in any case.
    pub fn is_localhost(&self) -> (r: bool)
        ensures
            r == localhost_flag(self@),
    {
        proof {
            use_type_invariant(self);
        }
        self.is_localhost
    }

    pub fn into_string(self) -> (r: String)
        ensures
            encode_utf8(r@) == self@,
    {
        self.full_domain
    }
}

/// What a parse of `s` under `v` gives: the domain of `s`, or the first error.
pub open spec fn domain_parsed_as(r: Result<Domain, DomainError>, v: DomainValidator, s: Seq<u8>) -> bool {
    match r {
        Ok(d) => domain_error(v.port, v.localhost, s) is None && d@ == s,
        Err(e) => domain_error(v.port, v.localhost, s) == Some(e),
    }
}

/// Position of the last byte `c` before `end`.
fn find_last(b: &[u8], c: u8, end: usize) -> (r: Option<usize>)
    requires
        end <= b@.len(),
    ensures
        r is None <==> last_before(b@, c, end as int) < 0,
        r matches Some(i) ==> i as int == last_before(b@, c, end as int),
{
    let mut i: usize = end;
    while i > 0
        invariant
            i <= end <= b@.len(),
            last_before(b@, c, end as int) == last_before(b@, c, i as int),
        decreases i,
    {
        if b[i - 1] == c {
            return Some(i - 1);
        }
        i = i - 1;
    }
    None
}

fn is_label_byte_exec(x: u8) -> (r: bool)
    ensures
        r == is_label_byte(x),
{
    0x20 <= x && x != 0x2E && x != 0x2F && x != 0x3A && x != 0x40 && x != 0x7F
}

/// Checks that the first `end` bytes of `b` are dot-separated labels.
fn scan_host(b: &[u8], end: usize) -> (r: bool)
    requires
        end <= b@.len(),
    ensures
        r == is_host(b@, end as int),
{
    let mut run: usize = 0;
    let mut i: usize = 0;
    while i < end
        invariant
            i <= end <= b@.len(),
            run as nat == label_run(b@, i as int),
            run <= 63,
            forall|j: int|
                0 <= j < i ==> is_label_byte(#[trigger] b@[j]) || (b@[j] == DOT && label_run(b@, j) > 0),
            forall|j: int| 0 <= j <= i ==> #[trigger] label_run(b@, j) <= 63,
        decreases end - i,
    {
        let x = b[i];
        if is_label_byte_exec(x) {
            if run == 63 {
                assert(label_run(b@, i + 1) > 63);
                return false;
            }
            run = run + 1;
        } else if x == DOT && run > 0 {
            run = 0;
        } else {
            assert(!(is_label_byte(b@[i as int]) || (b@[i as int] == DOT && label_run(b@, i as int) > 0)));
            return false;
        }
        i = i + 1;
    }
    run > 0
}

fn ascii_lower_exec(x: u8) -> (r: u8)
    ensures
        r == ascii_lower(x),
{
    if 0x41 <= x && x <= 0x5A {
        x + 0x20
    } else {
        x
    }
}

fn localhost_byte(i: usize) -> (r: u8)
    requires
        i < 9,
    ensures
        r == localhost_bytes()[i as int],
{
    match i {
        0 => 0x6C,
        1 => 0x6F,
        2 => 0x63,
        3 => 0x61,
        4 => 0x6C,
        5 => 0x68,
        6 => 0x6F,
        7 => 0x73,
        _ => 0x74,
    }
}

/// The first `end` bytes of `b` spell `localhost` in any case.
fn is_localhost_prefix(b: &[u8], end: usize) -> (r: bool)
    requires
        end <= b@.len(),
    ensures
        r == is_localhost_text(b@.subrange(0, end as int)),
{
    if end != 9 {
        return false;
    }
    let mut i: usize = 0;
    while i < 9
        invariant
            end == 9 <= b@.len(),
            i <= 9,
            forall|j: int| 0 <= j < i ==> ascii_lower(#[trigger] b@[j]) == localhost_bytes()[j],
        decreases 9 - i,
    {
        if ascii_lower_exec(b[i]) != localhost_byte(i) {
            assert(b@.subrange(0, end as int)[i as int] == b@[i as int]);
            return false;
        }
        i = i + 1;
    }
    assert forall|j: int| 0 <= j < 9 implies ascii_lower(#[trigger] b@.subrange(0, 9)[j])
        == localhost_bytes()[j] by {
        assert(b@.subrange(0, 9)[j] == b@[j]);
    }
    true
}

impl DomainValidator {
    /// Computes the shape of `full_domain` and checks it against the rules.
    fn parse_inner(&self, full_domain: &str) -> (r: Result<DomainShape, DomainError>)
        ensures
            match r {
                Ok(shape) => domain_error(self.port, self.localhost, full_domain.spec_bytes()) is None
                    && shape.describes(full_domain.spec_bytes()),
                Err(e) => domain_error(self.port, self.localhost, full_domain.spec_bytes()) == Some(e),
            },
    {
        let b = full_domain.as_bytes();
        let ghost s = b@;
        let n = b.len();
        let colon = find_last(b, COLON, n);
        let he = match colon {
            Some(c) => c,
            None => n,
        };
        proof {
            lemma_last_before_range(s, COLON, n as int);
        }
        if !scan_host(b, he) {
            return Err(DomainError::IncorrectFormat);
        }
        let mut port_number: u32 = 0;
        match colon {
            Some(c) => {
                match read_port_digits(b, c + 1, n) {
                    Some(v) => {
                        port_number = v;
                    },
                    None => {
                        return Err(DomainError::IncorrectFormat);
                    },
                }
            },
            None => {},
        }
        if he > 255 {
            return Err(DomainError::IncorrectFormat);
        }
        let tdot = find_last(b, DOT, he);
        proof {
            lemma_last_before_range(s, DOT, he as int);
        }
        let is_localhost = match tdot {
            None => {
                if !is_localhost_prefix(b, he) {
                    return Err(DomainError::IncorrectFormat);
                }
                true
            },
            Some(_) => false,
        };
        let port_index = match colon {
            Some(c) => {
                if self.port.not_allow() {
                    return Err(DomainError::PortNotAllow);
                }
                if port_number > 65535 {
                    return Err(DomainError::IncorrectPort);
                }
                c + 1
            },
            None => {
                if self.port.must() {
                    return Err(DomainError::PortNotFound);
                }
                n
            },
        };
        if self.localhost.must() && !is_localhost {
            return Err(DomainError::LocalhostNotFound);
        }
        if self.localhost.not_allow() && is_localhost {
            return Err(DomainError::LocalhostNotAllow);
        }
        let (domain, top_level_domain) = match tdot {
            Some(t) => {
                let d = find_last(b, DOT, t);
                proof {
                    lemma_last_before_range(s, DOT, t as int);
                }
                match d {
                    Some(d) => (d + 1, t + 1),
                    None => (0, t + 1),
                }
            },
            None => (0, n),
        };
        Ok(
            DomainShape {
                top_level_domain,
                domain,
                port: port_number as u16,
                port_index,
                full_domain_len: n,
                is_localhost,
            },
        )
    }

    /// `full_domain` passes the rules.
    pub fn is_domain(&self, full_domain: &str) -> (r: bool)
        ensures
            r == (domain_error(self.port, self.localhost, full_domain.spec_bytes()) is None),
    {
        self.parse_inner(full_domain).is_ok()
    }

    /// Parses `full_domain` and keeps it as the domain's string.
    pub fn parse_string(&self, full_domain: String) -> (r: Result<Domain, DomainError>)
        ensures
            domain_parsed_as(r, *self, encode_utf8(full_domain@)),
    {
        match self.parse_inner(full_domain.as_str()) {
            Ok(shape) => Ok(
                Domain {
                    top_level_domain: shape.top_level_domain,
                    domain: shape.domain,
                    port: shape.port,
                    port_index: shape.port_index,
                    full_domain,
                    full_domain_len: shape.full_domain_len,
                    is_localhost: shape.is_localhost,
                },
            ),
            Err(e) => Err(e),
        }
    }

    /// Parses `full_domain` and copies it into the domain's string.
    pub fn parse_str(&self, full_domain: &str) -> (r: Result<Domain, DomainError>)
        ensures
            domain_parsed_as(r, *self, full_domain.spec_bytes()),
    {
        match self.parse_inner(full_domain) {
            Ok(shape) => Ok(
                Domain {
                    top_level_domain: shape.top_level_domain,
                    domain: shape.domain,
                    port: shape.port,
                    port_index: shape.port_index,
                    full_domain: full_domain.to_owned(),
                    full_domain_len: shape.full_domain_len,
                    is_localhost: shape.is_localhost,
                },
            ),
            Err(e) => Err(e),
        }
    }
}

/// A domain that meets port and localhost rules fixed by its type, given as the codes
/// `MUST`, `ALLOW` and `NOT_ALLOW`.
#[derive(Debug, PartialEq, Eq, Hash)]
pub struct DomainWithRules<const PORT: u8, const LOCALHOST: u8> {
    domain: Domain,
}

/// A port is required; `localhost` is allowed.
pub type DomainLocalhostableWithPort = DomainWithRules<MUST, ALLOW>;

/// A port and `localhost` are allowed.
pub type DomainLocalhostableAllowPort = DomainWithRules<ALLOW, ALLOW>;

/// No port; `localhost` is allowed.
pub type DomainLocalhostableWithoutPort = DomainWithRules<NOT_ALLOW, ALLOW>;

/// A port is required; `localhost` is not allowed.
pub type DomainUnlocalhostableWithPort = DomainWithRules<MUST, NOT_ALLOW>;

/// A port is allowed; `localhost` is not.
pub type DomainUnlocalhostableAllowPort = DomainWithRules<ALLOW, NOT_ALLOW>;

/// Neither a port nor `localhost` is allowed.
pub type DomainUnlocalhostableWithoutPort = DomainWithRules<NOT_ALLOW, NOT_ALLOW>;

impl<const PORT: u8, const LOCALHOST: u8> Clone for DomainWithRules<PORT, LOCALHOST> {
    fn clone(&self) -> (r: Self)
        ensures
            r@ == self@,
    {
        proof {
            use_type_invariant(self);
        }
        DomainWithRules { domain: self.domain.clone() }
    }
}

impl<const PORT: u8, const LOCALHOST: u8> View for DomainWithRules<PORT, LOCALHOST> {
    type V = Seq<u8>;

    closed spec fn view(&self) -> Seq<u8> {
        self.domain@
    }
}

/// What building a rule-fixed domain from `s` gives.
pub open spec fn domain_rules_parsed_as<const PORT: u8, const LOCALHOST: u8>(
    r: Result<DomainWithRules<PORT, LOCALHOST>, DomainError>,
    s: Seq<u8>,
) -> bool {
    match r {
        Ok(d) => domain_error(option_of_code(PORT), option_of_code(LOCALHOST), s) is None && d@ == s,
        Err(e) => domain_error(option_of_code(PORT), option_of_code(LOCALHOST), s) == Some(e),
    }
}

impl<const PORT: u8, const LOCALHOST: u8> DomainWithRules<PORT, LOCALHOST> {
    #[verifier::type_invariant]
    spec fn inv(&self) -> bool {
        domain_policy_error(option_of_code(PORT), option_of_code(LOCALHOST), self.domain@) is None
    }

    fn create_validator() -> (r: DomainValidator)
        ensures
            r.port == option_of_code(PORT),
            r.localhost == option_of_code(LOCALHOST),
    {
        DomainValidator { port: ValidatorOption::from_code(PORT), localhost: ValidatorOption::from_code(LOCALHOST) }
    }

    pub fn from_string(full_domain: String) -> (r: Result<Self, DomainError>)
        ensures
            domain_rules_parsed_as(r, encode_utf8(full_domain@)),
    {
        match Self::create_validator().parse_string(full_domain) {
            Ok(domain) => Ok(DomainWithRules { domain }),
            Err(e) => Err(e),
        }
    }

    pub fn from_str(full_domain: &str) -> (r: Result<Self, DomainError>)
        ensures
            domain_rules_parsed_as(r, full_domain.spec_bytes()),
    {
        match Self::create_validator().parse_str(full_domain) {
            Ok(domain) => Ok(DomainWithRules { domain }),
            Err(e) => Err(e),
        }
    }

    /// Checks an already parsed domain against the fixed rules, without parsing again.
    pub fn from_domain(domain: Domain) -> (r: Result<Self, DomainError>)
        ensures
            match r {
                Ok(d) => domain_policy_error(option_of_code(PORT), option_of_code(LOCALHOST), domain@) is None
                    && d@ == domain@,
                Err(e) => domain_policy_error(option_of_code(PORT), option_of_code(LOCALHOST), domain@)
                    == Some(e),
            },
    {
        proof {
            use_type_invariant(&domain);
        }
        let v = Self::create_validator();
        let has_port = domain.port_index != domain.full_domain_len;
        if has_port && v.port.not_allow() {
            return Err(DomainError::PortNotAllow);
        }
        if !has_port && v.port.must() {
            return Err(DomainError::PortNotFound);
        }
        if v.localhost.must() && !domain.is_localhost {
            return Err(DomainError::LocalhostNotFound);
        }
        if v.localhost.not_allow() && domain.is_localhost {
            return Err(DomainError::LocalhostNotAllow);
        }
        Ok(DomainWithRules { domain })
    }

    pub fn into_domain(self) -> (r: Domain)
        ensures
            r@ == self@,
    {
        self.domain
    }

    pub fn as_domain(&self) -> (r: &Domain)
        ensures
            r@ == self@,
    {
        &self.domain
    }

    pub fn get_top_level_domain(&self) -> (r: Option<&str>)
        ensures
            r is Some <==> tld_text(self@) is Some,
            r matches Some(t) ==> t.spec_bytes() == tld_text(self@)->Some_0,
    {
        self.domain.get_top_level_domain()
    }

    pub fn get_domain(&self) -> (r: &str)
        ensures
            r.spec_bytes() == domain_text(self@),
    {
        self.domain.get_domain()
    }

    pub fn get_sub_domain(&self) -> (r: Option<&str>)
        ensures
            r is Some <==> sub_domain_text(self@) is Some,
            r matches Some(t) ==> t.spec_bytes() == sub_domain_text(self@)->Some_0,
    {
        self.domain.get_sub_domain()
    }

    pub fn get_full_domain(&self) -> (r: &str)
        ensures
            r.spec_bytes() == self@,
    {
        self.domain.get_full_domain()
    }

    /// The port, known to be present because the type requires one.
    fn required_port(&self) -> (r: u16)
        requires
            option_of_code(PORT) == ValidatorOption::Must,
        ensures
            port_of(self@) == Some(r),
    {
        proof {
            use_type_invariant(self);
        }
        self.domain.get_port().unwrap()
    }
}

impl<const PORT: u8, const LOCALHOST: u8> Validated for DomainWithRules<PORT, LOCALHOST> {}

impl<const PORT: u8, const LOCALHOST: u8> ValidatedWrapper for DomainWithRules<PORT, LOCALHOST> {
    type Error = DomainError;

    fn from_string(full_domain: String) -> Result<Self, Self::Error> {
        DomainWithRules::from_string(full_domain)
    }

    fn from_str(full_domain: &str) -> Result<Self, Self::Error> {
        DomainWithRules::from_str(full_domain)
    }
}

impl DomainLocalhostableWithPort {
    pub fn get_full_domain_without_port(&self) -> (r: &str)
        ensures
            r.spec_bytes() == without_port_text(self@),
    {
        self.domain.get_full_domain_without_port()
    }

    pub fn get_port(&self) -> (r: u16)
        ensures
            port_of(self@) == Some(r),
    {
        self.required_port()
    }

    pub fn is_localhost(&self) -> (r: bool)
        ensures
            r == localhost_flag(self@),
    {
        self.domain.is_localhost()
    }
}

impl DomainLocalhostableAllowPort {
    pub fn get_full_domain_without_port(&self) -> (r: &str)
        ensures
            r.spec_bytes() == without_port_text(self@),
    {
        self.domain.get_full_domain_without_port()
    }

    pub fn get_port(&self) -> (r: Option<u16>)
        ensures
            r == port_of(self@),
    {
        self.domain.get_port()
    }

    pub fn is_localhost(&self) -> (r: bool)
        ensures
            r == localhost_flag(self@),
    {
        self.domain.is_localhost()
    }
}

impl DomainLocalhostableWithoutPort {
    pub fn is_localhost(&self) -> (r: bool)
        ensures
            r == localhost_flag(self@),
    {
        self.domain.is_localhost()
    }
}

impl DomainUnlocalhostableWithPort {
    pub fn get_full_domain_without_port(&self) -> (r: &str)
        ensures
            r.spec_bytes() == without_port_text(self@),
    {
        self.domain.get_full_domain_without_port()
    }

    pub fn get_port(&self) -> (r: u16)
        ensures
            port_of(self@) == Some(r),
    {
        self.required_port()
    }
}

impl DomainUnlocalhostableAllowPort {
    pub fn get_full_domain_without_port(&self) -> (r: &str)
        ensures
            r.spec_bytes() == without_port_text(self@),
    {
        self.domain.get_full_domain_without_port()
    }

    pub fn get_port(&self) -> (r: Option<u16>)
        ensures
            r == port_of(self@),
    {
        self.domain.get_port()
    }
}

/// A string that a domain validator accepts is its parts put back together: the
/// sub-domain and a dot if there is one, the domain label, a dot and the top-level label if
/// there is one, then `:` and the port digits if there is a port.
pub proof fn law_domain_round_trip(v: DomainValidator, s: Seq<u8>)
    requires
        domain_error(v.port, v.localhost, s) is None,
    ensures
        without_port_text(s) == match sub_domain_text(s) {
            Some(sub) => sub + seq![DOT],
            None => Seq::<u8>::empty(),
        } + domain_text(s) + match tld_text(s) {
            Some(tld) => seq![DOT] + tld,
            None => Seq::<u8>::empty(),
        },
        s == without_port_text(s) + if has_port(s) {
            seq![COLON] + port_text(s)
        } else {
            Seq::<u8>::empty()
        },
{
    lemma_shape_facts(s);
    let he = host_end(s);
    let t = tld_dot(s);
    let d = domain_dot(s);
    if t >= 0 {
        if d >= 0 {
            assert(s.subrange(0, he) =~= s.subrange(0, d) + seq![DOT] + s.subrange(d + 1, t) + (seq![DOT] + s.subrange(t + 1, he)));
        } else {
            assert(s.subrange(0, he) =~= Seq::<u8>::empty() + s.subrange(0, t) + (seq![DOT] + s.subrange(t + 1, he)));
        }
    } else {
        assert(s.subrange(0, he) =~= Seq::<u8>::empty() + s.subrange(0, he) + Seq::<u8>::empty());
    }
    lemma_last_before_range(s, COLON, s.len() as int);
    if has_port(s) {
        assert(s =~= s.subrange(0, he) + (seq![COLON] + port_text(s)));
    } else {
        assert(s =~= s.subrange(0, he) + Seq::<u8>::empty());
    }
}

/// Parsing a string into a new domain and parsing a borrowed copy of it give the same
/// value: the string itself, from which every part is read.
pub proof fn law_domain_owned_borrowed_agree(v: DomainValidator, s: Seq<u8>, owned: Domain, borrowed: Domain)
    requires
        domain_parsed_as(Ok(owned), v, s),
        domain_parsed_as(Ok(borrowed), v, s),
    ensures
        owned@ == s,
        borrowed@ == s,
{
}

/// When a domain has a port written without leading zeros, the string without the port,
/// `:`, and the port in decimal give back the whole string.
pub proof fn law_domain_port_reconstruction(s: Seq<u8>)
    requires
        domain_accepted(s),
        has_port(s),
        port_text(s).len() > 1 ==> port_text(s)[0] != 0x30,
    ensures
        without_port_text(s) + seq![COLON] + decimal(port_of(s)->Some_0 as nat) == s,
{
    lemma_shape_facts(s);
    lemma_decimal_of_digits(port_text(s));
    lemma_last_before_range(s, COLON, s.len() as int);
    assert(s =~= s.subrange(0, host_end(s)) + seq![COLON] + port_text(s));
}

/// With ports not allowed, every string that ends in `:` and digits is refused; when it is
/// otherwise a valid domain, with the port error.
pub proof fn law_domain_port_not_allowed(localhost: ValidatorOption, s: Seq<u8>, k: int)
    requires
        0 <= k < s.len() - 1,
        s[k] == COLON,
        all_digits(s.subrange(k + 1, s.len() as int)),
    ensures
        domain_error(ValidatorOption::NotAllow, localhost, s) is Some,
        domain_shape_ok(s) ==> domain_error(ValidatorOption::NotAllow, localhost, s) == Some(
            DomainError::PortNotAllow,
        ),
{
    lemma_last_before_at_least(s, COLON, k, s.len() as int);
}

/// With `localhost` required, only the single label `localhost`, in any case, is accepted,
/// with or without a port: a host of several labels is refused.
pub proof fn law_domain_localhost_required(port: ValidatorOption, s: Seq<u8>)
    requires
        domain_error(port, ValidatorOption::Must, s) is None,
    ensures
        is_localhost_text(without_port_text(s)),
        localhost_flag(s),
        forall|i: int| 0 <= i < host_end(s) ==> s[i] != DOT,
{
    lemma_shape_facts(s);
    lemma_last_before_range(s, DOT, host_end(s));
}

} // verus!
