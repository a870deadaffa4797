use vstd::prelude::*;
use vstd::string::{StringSliceAdditionalSpecFns, StringExecFns};
use vstd::utf8::{encode_utf8, decode_utf8, is_ascii_chars};
use crate::{ValidatorOption, Validated, ValidatedWrapper, option_of_code, MUST, ALLOW, NOT_ALLOW};
use crate::text::{
    DOT, COLON, all_digits, digits_value, last_before, lemma_last_before_range, octets_of,
    is_octet_text, read_octets, lemma_octets_len, read_port_digits, find_last_in, ascii_cut,
    colon_index, has_port, host_end, port_text, port_start, port_value, port_of, without_port_text,
    decimal, lemma_decimal, lemma_decimal_of_digits,
};
use crate::ipv6::{ipv6_segments, embedded_ipv4, read_ipv6, to_ipv4};

verus! {

broadcast use vstd::utf8::group_utf8_lib;

/// The four octets of the host part, if it is a dotted IPv4 address.
pub open spec fn ipv4_host_octets(s: Seq<u8>) -> Option<Seq<u8>> {
    octets_of(s.subrange(0, host_end(s)), 4)
}

/// The whole-string grammar: four dotted octets, then at most one `:` with 1 to 5 digits.
pub open spec fn ipv4_syntax(s: Seq<u8>) -> bool {
    &&& ipv4_host_octets(s) is Some
    &&& has_port(s) ==> 1 <= port_text(s).len() <= 5 && all_digits(port_text(s))
}

/// What an `IPv4` holds: a dotted address whose port, if any, fits in `u16`.
pub open spec fn ipv4_accepted(s: Seq<u8>) -> bool {
    ipv4_syntax(s) && (has_port(s) ==> port_value(s) <= 65535)
}

/// The address of an accepted string.
pub open spec fn ipv4_address(s: Seq<u8>) -> Seq<u8> {
    ipv4_host_octets(s)->Some_0
}

/// Private, loopback, link-local, broadcast, documentation or unspecified.
pub open spec fn is_local_address(o: Seq<u8>) -> bool {
    ||| o[0] == 10
    ||| (o[0] == 172 && 16 <= o[1] <= 31)
    ||| (o[0] == 192 && o[1] == 168)
    ||| o[0] == 127
    ||| (o[0] == 169 && o[1] == 254)
    ||| (o[0] == 255 && o[1] == 255 && o[2] == 255 && o[3] == 255)
    ||| (o[0] == 192 && o[1] == 0 && o[2] == 2)
    ||| (o[0] == 198 && o[1] == 51 && o[2] == 100)
    ||| (o[0] == 203 && o[1] == 0 && o[2] == 113)
    ||| (o[0] == 0 && o[1] == 0 && o[2] == 0 && o[3] == 0)
}

/// The dotted text of four octets.
pub open spec fn quad_text(o: Seq<u8>) -> Seq<u8> {
    decimal(o[0] as nat) + seq![DOT] + decimal(o[1] as nat) + seq![DOT] + decimal(o[2] as nat) + seq![DOT]
        + decimal(o[3] as nat)
}

/// The text that an address found inside an IPv6 literal is given.
pub open spec fn ipv4_text(o: Seq<u8>, port: Option<u16>) -> Seq<u8> {
    match port {
        Some(p) => quad_text(o) + seq![COLON] + decimal(p as nat),
        None => quad_text(o),
    }
}

proof fn lemma_decimal_octet(n: nat)
    requires
        n <= 255,
    ensures
        is_octet_text(decimal(n)),
        digits_value(decimal(n)) == n,
{
    lemma_decimal(n);
    if decimal(n).len() > 1 {
        assert(n >= 10);
    }
}

/// No byte of `y` is `c`, so the last `c` of `x + y` is the last of `x`.
proof fn lemma_last_before_append(x: Seq<u8>, y: Seq<u8>, c: u8)
    requires
        all_digits(y),
        c == DOT || c == COLON,
    ensures
        last_before(x + y, c, (x + y).len() as int) == last_before(x, c, x.len() as int),
    decreases y.len(),
{
    if y.len() > 0 {
        let z = x + y;
        assert(z[z.len() - 1] == y.last());
        assert(z.drop_last() =~= x + y.drop_last());
        lemma_last_before_prefix(z, z.drop_last(), c, z.len() - 1);
        lemma_last_before_append(x, y.drop_last(), c);
    } else {
        assert(x + y =~= x);
    }
}

/// `last_before` reads only the bytes before `i`.
proof fn lemma_last_before_prefix(a: Seq<u8>, b: Seq<u8>, c: u8, i: int)
    requires
        0 <= i <= a.len(),
        i <= b.len(),
        forall|j: int| 0 <= j < i ==> a[j] == b[j],
    ensures
        last_before(a, c, i) == last_before(b, c, i),
    decreases i,
{
    if i > 0 {
        lemma_last_before_prefix(a, b, c, i - 1);
    }
}

proof fn lemma_octets_of_decimal(n: nat)
    requires
        n <= 255,
    ensures
        octets_of(decimal(n), 1) == Some(seq![n as u8]),
{
    let t = decimal(n);
    lemma_decimal_octet(n);
    lemma_last_before_append(Seq::empty(), t, DOT);
    assert(Seq::<u8>::empty() + t =~= t);
    assert(t.subrange(0, t.len() as int) =~= t);
}

proof fn lemma_octets_of_step(a: Seq<u8>, n: nat, k: nat)
    requires
        n <= 255,
        k >= 1,
    ensures
        octets_of(a + seq![DOT] + decimal(n), k + 1) == match octets_of(a, k) {
            Some(os) => Some(os.push(n as u8)),
            None => None,
        },
{
    let d = decimal(n);
    let x = a + seq![DOT];
    let t = x + d;
    lemma_decimal_octet(n);
    lemma_last_before_append(x, d, DOT);
    assert(x[x.len() - 1] == DOT);
    let p = a.len() as int;
    assert(last_before(t, DOT, t.len() as int) == p);
    assert(t.subrange(p + 1, t.len() as int) =~= d);
    assert(t.subrange(0, p) =~= a);
}

proof fn lemma_quad_text(o: Seq<u8>)
    requires
        o.len() == 4,
    ensures
        octets_of(quad_text(o), 4) == Some(o),
        has_no_colon(quad_text(o)),
{
    let a0 = decimal(o[0] as nat);
    let a1 = a0 + seq![DOT] + decimal(o[1] as nat);
    let a2 = a1 + seq![DOT] + decimal(o[2] as nat);
    let a3 = a2 + seq![DOT] + decimal(o[3] as nat);
    lemma_octets_of_decimal(o[0] as nat);
    lemma_octets_of_step(a0, o[1] as nat, 1);
    lemma_octets_of_step(a1, o[2] as nat, 2);
    lemma_octets_of_step(a2, o[3] as nat, 3);
    assert(seq![o[0]].push(o[1]).push(o[2]).push(o[3]) =~= o);
    assert(a3 =~= quad_text(o));
    lemma_decimal(o[0] as nat);
    lemma_decimal(o[1] as nat);
    lemma_decimal(o[2] as nat);
    lemma_decimal(o[3] as nat);
    assert forall|i: int| 0 <= i < a3.len() implies #[trigger] a3[i] != COLON by {
        if i < a2.len() {
            if i < a1.len() {
                if i >= a0.len() + 1 {
                    assert(a1[i] == decimal(o[1] as nat)[i - a0.len() - 1]);
                }
            } else if i >= a1.len() + 1 {
                assert(a2[i] == decimal(o[2] as nat)[i - a1.len() - 1]);
            }
        } else if i >= a2.len() + 1 {
            assert(a3[i] == decimal(o[3] as nat)[i - a2.len() - 1]);
        }
    }
}

/// No byte of `t` is a colon.
pub open spec fn has_no_colon(t: Seq<u8>) -> bool {
    forall|i: int| 0 <= i < t.len() ==> #[trigger] t[i] != COLON
}

proof fn lemma_no_colon(t: Seq<u8>)
    requires
        has_no_colon(t),
    ensures
        last_before(t, COLON, t.len() as int) == -1,
{
    lemma_last_before_range(t, COLON, t.len() as int);
}

/// The text given to an address found in an IPv6 literal is an accepted IPv4 string
/// with that address and port.
pub proof fn lemma_ipv4_text_accepted(o: Seq<u8>, port: Option<u16>)
    requires
        o.len() == 4,
    ensures
        ipv4_accepted(ipv4_text(o, port)),
        ipv4_address(ipv4_text(o, port)) == o,
        port_of(ipv4_text(o, port)) == port,
{
    let q = quad_text(o);
    lemma_quad_text(o);
    lemma_no_colon(q);
    match port {
        Some(p) => {
            let d = decimal(p as nat);
            let s = q + seq![COLON] + d;
            lemma_decimal(p as nat);
            lemma_last_before_append(q + seq![COLON], d, COLON);
            let x = q + seq![COLON];
            assert(x[x.len() - 1] == COLON);
            assert(colon_index(s) == q.len());
            assert(s.subrange(0, q.len() as int) =~= q);
            assert(port_text(s) =~= d);
        },
        None => {
            assert(q.subrange(0, q.len() as int) =~= q);
        },
    }
}

/// The characters `cs` are ASCII and spell the bytes `bs`.
pub open spec fn ascii_spells(cs: Seq<char>, bs: Seq<u8>) -> bool {
    &&& is_ascii_chars(cs)
    &&& cs.len() == bs.len()
    &&& forall|i: int| 0 <= i < cs.len() ==> #[trigger] cs[i] as u8 == bs[i]
}

proof fn lemma_ascii_spells_concat(a: Seq<char>, x: Seq<u8>, b: Seq<char>, y: Seq<u8>)
    requires
        ascii_spells(a, x),
        ascii_spells(b, y),
    ensures
        ascii_spells(a + b, x + y),
{
    assert forall|i: int| 0 <= i < (a + b).len() implies '\0' <= #[trigger] (a + b)[i] <= '\u{7f}' by {
        if i < a.len() {
            assert((a + b)[i] == a[i]);
        } else {
            assert((a + b)[i] == b[i - a.len()]);
        }
    }
    assert forall|i: int| 0 <= i < (a + b).len() implies #[trigger] (a + b)[i] as u8 == (x + y)[i] by {
        if i < a.len() {
            assert((a + b)[i] == a[i]);
        } else {
            assert((a + b)[i] == b[i - a.len()]);
        }
    }
}

proof fn lemma_ascii_spells_encode(cs: Seq<char>, bs: Seq<u8>)
    requires
        ascii_spells(cs, bs),
    ensures
        encode_utf8(cs) == bs,
{
    assert(encode_utf8(cs) =~= bs);
}

fn digit_str(d: u8) -> (r: &'static str)
    requires
        d < 10,
    ensures
        ascii_spells(r@, seq![(0x30 + d) as u8]),
{
    let r = match d {
        0 => "0",
        1 => "1",
        2 => "2",
        3 => "3",
        4 => "4",
        5 => "5",
        6 => "6",
        7 => "7",
        8 => "8",
        _ => "9",
    };
    proof {
        reveal_strlit("0");
        reveal_strlit("1");
        reveal_strlit("2");
        reveal_strlit("3");
        reveal_strlit("4");
        reveal_strlit("5");
        reveal_strlit("6");
        reveal_strlit("7");
        reveal_strlit("8");
        reveal_strlit("9");
    }
    r
}

/// `n` written in decimal.
fn decimal_string(n: u32) -> (r: String)
    ensures
        ascii_spells(r@, decimal(n as nat)),
    decreases n,
{
    if n < 10 {
        String::from_str(digit_str(n as u8))
    } else {
        let mut s = decimal_string(n / 10);
        let d = digit_str((n % 10) as u8);
        let ghost before = s@;
        s.append(d);
        proof {
            lemma_ascii_spells_concat(before, decimal((n / 10) as nat), d@, seq![(0x30 + n % 10) as u8]);
            assert(decimal((n / 10) as nat) + seq![(0x30 + n % 10) as u8] =~= decimal(n as nat));
        }
        s
    }
}

/// Appends `piece`, which spells `bytes`, to `out`, which spells `so_far`.
fn append_spelled(out: &mut String, piece: &str, Ghost(so_far): Ghost<Seq<u8>>, Ghost(bytes): Ghost<Seq<u8>>)
    requires
        ascii_spells(old(out)@, so_far),
        ascii_spells(piece@, bytes),
    ensures
        ascii_spells(final(out)@, so_far + bytes),
{
    let ghost before = out@;
    out.append(piece);
    proof {
        lemma_ascii_spells_concat(before, so_far, piece@, bytes);
    }
}

fn dot_str() -> (r: &'static str)
    ensures
        ascii_spells(r@, seq![DOT]),
{
    proof {
        reveal_strlit(".");
    }
    "."
}

fn colon_str() -> (r: &'static str)
    ensures
        ascii_spells(r@, seq![COLON]),
{
    proof {
        reveal_strlit(":");
    }
    ":"
}

/// The text of an address found inside an IPv6 literal, with its port if any.
fn render_ipv4(o: [u8; 4], port: Option<u16>) -> (r: String)
    ensures
        encode_utf8(r@) == ipv4_text(o@, port),
{
    let mut out = decimal_string(o[0] as u32);
    let ghost mut b = decimal(o[0] as nat);
    let mut k: usize = 1;
    while k < 4
        invariant
            1 <= k <= 4,
            ascii_spells(out@, b),
            b == if k == 1 {
                decimal(o@[0] as nat)
            } else if k == 2 {
                decimal(o@[0] as nat) + seq![DOT] + decimal(o@[1] as nat)
            } else if k == 3 {
                decimal(o@[0] as nat) + seq![DOT] + decimal(o@[1] as nat) + seq![DOT] + decimal(o@[2] as nat)
            } else {
                quad_text(o@)
            },
        decreases 4 - k,
    {
        let ghost dot = seq![DOT];
        let ghost with_dot = b + dot;
        let ghost digits = decimal(o@[k as int] as nat);
        append_spelled(&mut out, dot_str(), Ghost(b), Ghost(dot));
        let part = decimal_string(o[k] as u32);
        append_spelled(&mut out, part.as_str(), Ghost(with_dot), Ghost(digits));
        proof {
            b = b + seq![DOT] + decimal(o@[k as int] as nat);
        }
        k = k + 1;
    }
    match port {
        Some(p) => {
            let ghost colon = seq![COLON];
            let ghost with_colon = b + colon;
            let ghost digits = decimal(p as nat);
            append_spelled(&mut out, colon_str(), Ghost(b), Ghost(colon));
            let part = decimal_string(p as u32);
            append_spelled(&mut out, part.as_str(), Ghost(with_colon), Ghost(digits));
            proof {
                b = b + seq![COLON] + decimal(p as nat);
            }
        },
        None => {},
    }
    proof {
        lemma_ascii_spells_encode(out@, b);
    }
    out
}

#[derive(Debug, PartialEq, Eq, Clone, Copy, Structural)]
pub enum IPv4Error {
    IncorrectFormat,
    IncorrectPort,
    PortNotAllow,
    PortNotFound,
    LocalNotAllow,
    LocalNotFound,
    IPv6NotAllow,
    IPv6NotFound,
}

/// Rules for an IPv4 address: whether a port, a local address, and an address given in
/// IPv6 form may or must appear.
#[derive(Debug, PartialEq, Eq, Structural, Clone, Copy)]
pub struct IPv4Validator {
    pub port: ValidatorOption,
    pub local: ValidatorOption,
    pub ipv6: ValidatorOption,
}

pub const OPEN_BRACKET: u8 = 0x5B;

pub const CLOSE_BRACKET: u8 = 0x5D;

/// The error, if any, that the port rule gives.
pub open spec fn port_rule_error(rule: ValidatorOption, present: bool, value: nat) -> Option<IPv4Error> {
    if present && rule == ValidatorOption::NotAllow {
        Some(IPv4Error::PortNotAllow)
    } else if present && value > 65535 {
        Some(IPv4Error::IncorrectPort)
    } else if !present && rule == ValidatorOption::Must {
        Some(IPv4Error::PortNotFound)
    } else {
        None
    }
}

/// The error, if any, that the locality rule gives.
pub open spec fn local_rule_error(rule: ValidatorOption, local: bool) -> Option<IPv4Error> {
    if rule == ValidatorOption::Must && !local {
        Some(IPv4Error::LocalNotFound)
    } else if rule == ValidatorOption::NotAllow && local {
        Some(IPv4Error::LocalNotAllow)
    } else {
        None
    }
}

pub open spec fn close_bracket(s: Seq<u8>) -> int {
    last_before(s, CLOSE_BRACKET, s.len() as int)
}

/// `[`, an address, `]`, then at most one `:` with 1 to 5 digits.
pub open spec fn bracket_syntax(s: Seq<u8>) -> bool {
    let c = close_bracket(s);
    &&& s.len() > 0 && s[0] == OPEN_BRACKET
    &&& c >= 1
    &&& c == s.len() - 1 || (s[c + 1] == COLON && 1 <= s.len() - c - 2 <= 5 && all_digits(
        s.subrange(c + 2, s.len() as int),
    ))
}

/// An input that is not a dotted address, read as an IPv6 literal: the address text,
/// whether a port follows, and the port's value.
pub open spec fn ipv6_form(s: Seq<u8>) -> Option<(Seq<u8>, bool, nat)> {
    if s.len() > 0 && s[0] == OPEN_BRACKET {
        if bracket_syntax(s) {
            let c = close_bracket(s);
            if c < s.len() - 1 {
                Some((s.subrange(1, c), true, digits_value(s.subrange(c + 2, s.len() as int))))
            } else {
                Some((s.subrange(1, c), false, 0))
            }
        } else {
            None
        }
    } else {
        Some((s, false, 0))
    }
}

/// What parsing the dotted address `s` under `v` gives.
pub open spec fn dotted_outcome(v: IPv4Validator, s: Seq<u8>) -> Result<Seq<u8>, IPv4Error> {
    if v.ipv6 == ValidatorOption::Must {
        Err(IPv4Error::IPv6NotFound)
    } else if port_rule_error(v.port, has_port(s), port_value(s)) is Some {
        Err(port_rule_error(v.port, has_port(s), port_value(s))->Some_0)
    } else if local_rule_error(v.local, is_local_address(ipv4_address(s))) is Some {
        Err(local_rule_error(v.local, is_local_address(ipv4_address(s)))->Some_0)
    } else {
        Ok(s)
    }
}

/// What parsing `s`, read as an IPv6 literal, under `v` gives.
pub open spec fn ipv6_outcome(v: IPv4Validator, s: Seq<u8>) -> Result<Seq<u8>, IPv4Error> {
    match ipv6_form(s) {
        None => Err(IPv4Error::IncorrectFormat),
        Some((addr, present, value)) => match ipv6_segments(addr) {
            None => Err(IPv4Error::IncorrectFormat),
            Some(g) => if v.ipv6 == ValidatorOption::NotAllow {
                Err(IPv4Error::IPv6NotAllow)
            } else {
                match embedded_ipv4(g) {
                    None => Err(IPv4Error::IncorrectFormat),
                    Some(o) => if port_rule_error(v.port, present, value) is Some {
                        Err(port_rule_error(v.port, present, value)->Some_0)
                    } else if local_rule_error(v.local, is_local_address(o)) is Some {
                        Err(local_rule_error(v.local, is_local_address(o))->Some_0)
                    } else {
                        Ok(ipv4_text(o, if present { Some(value as u16) } else { None }))
                    },
                }
            },
        },
    }
}

/// What parsing `s` under `v` gives: the text of the resulting address, or the first
/// error, in the order format, IPv6, port, locality.
pub open spec fn ipv4_outcome(v: IPv4Validator, s: Seq<u8>) -> Result<Seq<u8>, IPv4Error> {
    if ipv4_syntax(s) {
        dotted_outcome(v, s)
    } else {
        ipv6_outcome(v, s)
    }
}

/// A validated IPv4 address, with its text and the offset of its port.
#[derive(Debug, Hash)]
pub struct IPv4 {
    ip: [u8; 4],
    port: u16,
    port_index: usize,
    full_ipv4: String,
    full_ipv4_len: usize,
    is_local: bool,
}

impl View for IPv4 {
    type V = Seq<u8>;

    closed spec fn view(&self) -> Seq<u8> {
        encode_utf8(self.full_ipv4@)
    }
}

impl Clone for IPv4 {
    fn clone(&self) -> (r: IPv4)
        ensures
            r@ == self@,
    {
        proof {
            use_type_invariant(self);
        }
        IPv4 {
            ip: self.ip,
            port: self.port,
            port_index: self.port_index,
            full_ipv4: self.full_ipv4.clone(),
            full_ipv4_len: self.full_ipv4_len,
            is_local: self.is_local,
        }
    }
}

/// Two values are equal when their strings are.
impl PartialEq for IPv4 {
    fn eq(&self, other: &IPv4) -> (r: bool) {
        proof {
            assert(decode_utf8(encode_utf8(self.full_ipv4@)) == self.full_ipv4@);
            assert(decode_utf8(encode_utf8(other.full_ipv4@)) == other.full_ipv4@);
        }
        self.full_ipv4 == other.full_ipv4
    }
}

impl vstd::std_specs::cmp::PartialEqSpecImpl for IPv4 {
    open spec fn obeys_eq_spec() -> bool {
        true
    }

    open spec fn eq_spec(&self, other: &IPv4) -> bool {
        self@ == other@
    }
}

impl Eq for IPv4 {}

impl Validated for IPv4 {}

/// What a parse of `s` under `v` gives.
pub open spec fn ipv4_parsed_as(r: Result<IPv4, IPv4Error>, v: IPv4Validator, s: Seq<u8>) -> bool {
    match r {
        Ok(d) => ipv4_outcome(v, s) == Ok::<Seq<u8>, IPv4Error>(d@),
        Err(e) => ipv4_outcome(v, s) == Err::<Seq<u8>, IPv4Error>(e),
    }
}

fn is_local_exec(o: [u8; 4]) -> (r: bool)
    ensures
        r == is_local_address(o@),
{
    let (a, b, c, d) = (o[0], o[1], o[2], o[3]);
    a == 10 || (a == 172 && 16 <= b && b <= 31) || (a == 192 && b == 168) || a == 127 || (a == 169
        && b == 254) || (a == 255 && b == 255 && c == 255 && d == 255) || (a == 192 && b == 0 && c
        == 2) || (a == 198 && b == 51 && c == 100) || (a == 203 && b == 0 && c == 113) || (a == 0
        && b == 0 && c == 0 && d == 0)
}

/// An address found by the parser, before a string is attached to it.
struct Ipv4Found {
    ip: [u8; 4],
    port: Option<u16>,
    from_ipv6: bool,
}

fn check_port(rule: &ValidatorOption, present: bool, value: u32) -> (r: Result<(), IPv4Error>)
    ensures
        match r {
            Ok(_) => port_rule_error(*rule, present, value as nat) is None,
            Err(e) => port_rule_error(*rule, present, value as nat) == Some(e),
        },
{
    if present && rule.not_allow() {
        Err(IPv4Error::PortNotAllow)
    } else if present && value > 65535 {
        Err(IPv4Error::IncorrectPort)
    } else if !present && rule.must() {
        Err(IPv4Error::PortNotFound)
    } else {
        Ok(())
    }
}

fn check_local(rule: &ValidatorOption, local: bool) -> (r: Result<(), IPv4Error>)
    ensures
        match r {
            Ok(_) => local_rule_error(*rule, local) is None,
            Err(e) => local_rule_error(*rule, local) == Some(e),
        },
{
    if rule.must() && !local {
        Err(IPv4Error::LocalNotFound)
    } else if rule.not_allow() && local {
        Err(IPv4Error::LocalNotAllow)
    } else {
        Ok(())
    }
}

fn octets_array(os: &Vec<u8>) -> (r: [u8; 4])
    requires
        os@.len() == 4,
    ensures
        r@ == os@,
{
    let r: [u8; 4] = [os[0], os[1], os[2], os[3]];
    assert(r@ =~= os@);
    r
}

/// Reads a dotted address with an optional port: its octets, whether a port is given,
/// and the port's value.
fn read_dotted(b: &[u8]) -> (r: Option<([u8; 4], bool, u32)>)
    ensures
        r is Some <==> ipv4_syntax(b@),
        r matches Some((ip, present, value)) ==> ip@ == ipv4_address(b@) && present == has_port(b@)
            && (present ==> value as nat == port_value(b@)) && (!present ==> value == 0),
{
    let ghost s = b@;
    let n = b.len();
    proof {
        assert(s.subrange(0, n as int) =~= s);
        lemma_last_before_range(s, COLON, n as int);
    }
    let colon = find_last_in(b, COLON, 0, n);
    let he = match colon {
        Some(c) => c,
        None => n,
    };
    let os = match read_octets(b, 0, he, 4) {
        Some(os) => os,
        None => {
            return None;
        },
    };
    let value = match colon {
        Some(c) => match read_port_digits(b, c + 1, n) {
            Some(v) => v,
            None => {
                return None;
            },
        },
        None => 0,
    };
    proof {
        lemma_octets_len(s.subrange(0, he as int), 4);
    }
    Some((octets_array(&os), colon.is_some(), value))
}

/// Reads an IPv6 literal, bare or in brackets with an optional port: where its address
/// text starts and ends, whether a port is given, and the port's value.
fn read_ipv6_form(b: &[u8]) -> (r: Option<(usize, usize, bool, u32)>)
    ensures
        r is Some <==> ipv6_form(b@) is Some,
        r matches Some((start, end, present, value)) ==> start <= end <= b@.len() && ipv6_form(b@)
            == Some((b@.subrange(start as int, end as int), present, value as nat)),
{
    let ghost s = b@;
    let n = b.len();
    if n == 0 || b[0] != OPEN_BRACKET {
        proof {
            assert(s.subrange(0, n as int) =~= s);
        }
        return Some((0, n, false, 0));
    }
    proof {
        assert(s.subrange(0, n as int) =~= s);
        lemma_last_before_range(s, CLOSE_BRACKET, n as int);
    }
    let c = match find_last_in(b, CLOSE_BRACKET, 0, n) {
        Some(c) => c,
        None => {
            return None;
        },
    };
    if c == 0 {
        return None;
    }
    if c + 1 == n {
        return Some((1, c, false, 0));
    }
    if b[c + 1] != COLON {
        return None;
    }
    match read_port_digits(b, c + 2, n) {
        Some(v) => Some((1, c, true, v)),
        None => None,
    }
}

impl IPv4 {
    #[verifier::type_invariant]
    spec fn inv(&self) -> bool {
        let s = self@;
        &&& ipv4_accepted(s)
        &&& self.ip@ == ipv4_address(s)
        &&& self.full_ipv4_len == s.len()
        &&& self.port_index == port_start(s)
        &&& self.port == (if has_port(s) { port_value(s) as u16 } else { 0u16 })
        &&& self.is_local == is_local_address(self.ip@)
    }

    /// Builds the descriptor of an accepted string.
    fn from_accepted(full_ipv4: String, ip: [u8; 4]) -> (r: IPv4)
        requires
            ipv4_accepted(encode_utf8(full_ipv4@)),
            ip@ == ipv4_address(encode_utf8(full_ipv4@)),
        ensures
            r@ == encode_utf8(full_ipv4@),
    {
        let b = full_ipv4.as_str().as_bytes();
        let ghost s = b@;
        let n = b.len();
        proof {
            assert(s.subrange(0, n as int) =~= s);
            lemma_last_before_range(s, COLON, n as int);
        }
        let (port, port_index) = match find_last_in(b, COLON, 0, n) {
            Some(c) => match read_port_digits(b, c + 1, n) {
                Some(v) => (v as u16, c + 1),
                None => (0, n),
            },
            None => (0, n),
        };
        let is_local = is_local_exec(ip);
        IPv4 { ip, port, port_index, full_ipv4, full_ipv4_len: n, is_local }
    }

    /// The address, as its four octets.
    pub fn get_ipv4_address(&self) -> (r: [u8; 4])
        ensures
            r@ == ipv4_address(self@),
    {
        proof {
            use_type_invariant(self);
        }
        self.ip
    }

    pub fn get_port(&self) -> (r: Option<u16>)
        ensures
            r == port_of(self@),
    {
        proof {
            use_type_invariant(self);
        }
        if self.port_index != self.full_ipv4_len {
            Some(self.port)
        } else {
            None
        }
    }

    pub fn get_full_ipv4(&self) -> (r: &str)
        ensures
            r.spec_bytes() == self@,
    {
        self.full_ipv4.as_str()
    }

    /// The text without `:` and the port.
    pub fn get_full_ipv4_without_port(&self) -> (r: &str)
        ensures
            r.spec_bytes() == without_port_text(self@),
    {
        proof {
            use_type_invariant(self);
            lemma_last_before_range(self@, COLON, self@.len() as int);
        }
        let s = self.full_ipv4.as_str();
        if self.port_index != self.full_ipv4_len {
            ascii_cut(s, 0, self.port_index - 1)
        } else {
            proof {
                assert(s.spec_bytes() =~= without_port_text(self@));
            }
            s
        }
    }

    /// The address is private, loopback, link-local, broadcast, documentation or unspecified.
    pub fn is_local(&self) -> (r: bool)
        ensures
            r == is_local_address(ipv4_address(self@)),
    {
        proof {
            use_type_invariant(self);
        }
        self.is_local
    }

    pub fn into_string(self) -> (r: String)
        ensures
            encode_utf8(r@) == self@,
    {
        self.full_ipv4
    }
}

impl IPv4Validator {
    /// Finds the address in `ipv4` and checks it against the rules.
    fn parse_inner(&self, ipv4: &str) -> (r: Result<Ipv4Found, IPv4Error>)
        ensures
            match r {
                Ok(f) => if f.from_ipv6 {
                    ipv4_outcome(*self, ipv4.spec_bytes()) == Ok::<Seq<u8>, IPv4Error>(ipv4_text(f.ip@, f.port))
                } else {
                    ipv4_outcome(*self, ipv4.spec_bytes()) == Ok::<Seq<u8>, IPv4Error>(ipv4.spec_bytes())
                        && ipv4_accepted(ipv4.spec_bytes()) && f.ip@ == ipv4_address(ipv4.spec_bytes())
                },
                Err(e) => ipv4_outcome(*self, ipv4.spec_bytes()) == Err::<Seq<u8>, IPv4Error>(e),
            },
    {
        let b = ipv4.as_bytes();
        let ghost s = b@;
        match read_dotted(b) {
            Some((ip, present, value)) => {
                if self.ipv6.must() {
                    return Err(IPv4Error::IPv6NotFound);
                }
                check_port(&self.port, present, value)?;
                check_local(&self.local, is_local_exec(ip))?;
                return Ok(Ipv4Found { ip, port: None, from_ipv6: false });
            },
            None => {},
        }
        self.parse_ipv6_form(b)
    }

    /// Reads `b`, which is no dotted address, as an IPv6 literal and checks the address
    /// inside it against the rules.
    fn parse_ipv6_form(&self, b: &[u8]) -> (r: Result<Ipv4Found, IPv4Error>)
        ensures
            match r {
                Ok(f) => f.from_ipv6 && ipv6_outcome(*self, b@) == Ok::<Seq<u8>, IPv4Error>(
                    ipv4_text(f.ip@, f.port),
                ),
                Err(e) => ipv6_outcome(*self, b@) == Err::<Seq<u8>, IPv4Error>(e),
            },
    {
        let (addr_start, addr_end, present, value) = match read_ipv6_form(b) {
            Some(form) => form,
            None => {
                return Err(IPv4Error::IncorrectFormat);
            },
        };
        let g = match read_ipv6(b, addr_start, addr_end) {
            Some(g) => g,
            None => {
                return Err(IPv4Error::IncorrectFormat);
            },
        };
        if self.ipv6.not_allow() {
            return Err(IPv4Error::IPv6NotAllow);
        }
        let ip = match to_ipv4(&g) {
            Some(ip) => ip,
            None => {
                return Err(IPv4Error::IncorrectFormat);
            },
        };
        check_port(&self.port, present, value)?;
        check_local(&self.local, is_local_exec(ip))?;
        let port = if present {
            Some(value as u16)
        } else {
            None
        };
        Ok(Ipv4Found { ip, port, from_ipv6: true })
    }

    /// `ipv4` passes the rules.
    pub fn is_ipv4(&self, ipv4: &str) -> (r: bool)
        ensures
            r == (ipv4_outcome(*self, ipv4.spec_bytes()) is Ok),
    {
        self.parse_inner(ipv4).is_ok()
    }

    /// Parses `ipv4`; a dotted address keeps the given string, an address found in an
    /// IPv6 literal gets its own dotted text.
    pub fn parse_string(&self, ipv4: String) -> (r: Result<IPv4, IPv4Error>)
        ensures
            ipv4_parsed_as(r, *self, encode_utf8(ipv4@)),
    {
        match self.parse_inner(ipv4.as_str()) {
            Ok(f) => {
                if f.from_ipv6 {
                    let text = render_ipv4(f.ip, f.port);
                    proof {
                        lemma_ipv4_text_accepted(f.ip@, f.port);
                    }
                    Ok(IPv4::from_accepted(text, f.ip))
                } else {
                    Ok(IPv4::from_accepted(ipv4, f.ip))
                }
            },
            Err(e) => Err(e),
        }
    }

    /// Parses `ipv4` as `parse_string` does, copying the string where it is kept.
    pub fn parse_str(&self, ipv4: &str) -> (r: Result<IPv4, IPv4Error>)
        ensures
            ipv4_parsed_as(r, *self, ipv4.spec_bytes()),
    {
        match self.parse_inner(ipv4) {
            Ok(f) => {
                if f.from_ipv6 {
                    let text = render_ipv4(f.ip, f.port);
                    proof {
                        lemma_ipv4_text_accepted(f.ip@, f.port);
                    }
                    Ok(IPv4::from_accepted(text, f.ip))
                } else {
                    Ok(IPv4::from_accepted(ipv4.to_owned(), f.ip))
                }
            },
            Err(e) => Err(e),
        }
    }
}

/// The error, if any, that the port and locality rules give for an accepted string.
pub open spec fn ipv4_policy_error(port: ValidatorOption, local: ValidatorOption, s: Seq<u8>) -> Option<
    IPv4Error,
> {
    if port_rule_error(port, has_port(s), port_value(s)) is Some {
        port_rule_error(port, has_port(s), port_value(s))
    } else {
        local_rule_error(local, is_local_address(ipv4_address(s)))
    }
}

/// An IPv4 address that meets port, locality and IPv6 rules fixed by its type, given as
/// the codes `MUST`, `ALLOW` and `NOT_ALLOW`.
#[derive(Debug, PartialEq, Eq, Hash)]
pub struct IPv4WithRules<const PORT: u8, const LOCAL: u8, const IPV6: u8> {
    ipv4: IPv4,
}

/// A port is required; local addresses are allowed.
pub type IPv4LocalableWithPort = IPv4WithRules<MUST, ALLOW, ALLOW>;

/// A port and local addresses are allowed.
pub type IPv4LocalableAllowPort = IPv4WithRules<ALLOW, ALLOW, ALLOW>;

/// No port; local addresses are allowed.
pub type IPv4LocalableWithoutPort = IPv4WithRules<NOT_ALLOW, ALLOW, ALLOW>;

/// A port is required; local addresses are not allowed.
pub type IPv4UnlocalableWithPort = IPv4WithRules<MUST, NOT_ALLOW, ALLOW>;

/// A port is allowed; local addresses are not.
pub type IPv4UnlocalableAllowPort = IPv4WithRules<ALLOW, NOT_ALLOW, ALLOW>;

/// Neither a port nor a local address is allowed.
pub type IPv4UnlocalableWithoutPort = IPv4WithRules<NOT_ALLOW, NOT_ALLOW, ALLOW>;

impl<const PORT: u8, const LOCAL: u8, const IPV6: u8> Clone for IPv4WithRules<PORT, LOCAL, IPV6> {
    fn clone(&self) -> (r: Self)
        ensures
            r@ == self@,
    {
        proof {
            use_type_invariant(self);
        }
        IPv4WithRules { ipv4: self.ipv4.clone() }
    }
}

impl<const PORT: u8, const LOCAL: u8, const IPV6: u8> View for IPv4WithRules<PORT, LOCAL, IPV6> {
    type V = Seq<u8>;

    closed spec fn view(&self) -> Seq<u8> {
        self.ipv4@
    }
}

/// The validator that a rule-fixed type stands for.
pub open spec fn rules_validator(port: u8, local: u8, ipv6: u8) -> IPv4Validator {
    IPv4Validator { port: option_of_code(port), local: option_of_code(local), ipv6: option_of_code(ipv6) }
}

/// What building a rule-fixed address from `s` gives.
pub open spec fn ipv4_rules_parsed_as<const PORT: u8, const LOCAL: u8, const IPV6: u8>(
    r: Result<IPv4WithRules<PORT, LOCAL, IPV6>, IPv4Error>,
    s: Seq<u8>,
) -> bool {
    match r {
        Ok(d) => ipv4_outcome(rules_validator(PORT, LOCAL, IPV6), s) == Ok::<Seq<u8>, IPv4Error>(d@),
        Err(e) => ipv4_outcome(rules_validator(PORT, LOCAL, IPV6), s) == Err::<Seq<u8>, IPv4Error>(e),
    }
}

/// A successful parse under some rules gives an address that meets the port and
/// locality rules.
proof fn lemma_outcome_meets_rules(v: IPv4Validator, s: Seq<u8>, t: Seq<u8>)
    requires
        ipv4_outcome(v, s) == Ok::<Seq<u8>, IPv4Error>(t),
    ensures
        ipv4_accepted(t),
        ipv4_policy_error(v.port, v.local, t) is None,
{
    if !ipv4_syntax(s) {
        let (addr, present, value) = ipv6_form(s)->Some_0;
        let o = embedded_ipv4(ipv6_segments(addr)->Some_0)->Some_0;
        lemma_ipv4_text_accepted(o, if present { Some(value as u16) } else { None });
    }
}

impl<const PORT: u8, const LOCAL: u8, const IPV6: u8> IPv4WithRules<PORT, LOCAL, IPV6> {
    #[verifier::type_invariant]
    spec fn inv(&self) -> bool {
        ipv4_policy_error(option_of_code(PORT), option_of_code(LOCAL), self.ipv4@) is None
    }

    fn create_validator() -> (r: IPv4Validator)
        ensures
            r == rules_validator(PORT, LOCAL, IPV6),
    {
        IPv4Validator {
            port: ValidatorOption::from_code(PORT),
            local: ValidatorOption::from_code(LOCAL),
            ipv6: ValidatorOption::from_code(IPV6),
        }
    }

    pub fn from_string(ipv4: String) -> (r: Result<Self, IPv4Error>)
        ensures
            ipv4_rules_parsed_as(r, encode_utf8(ipv4@)),
    {
        let ghost s = encode_utf8(ipv4@);
        match Self::create_validator().parse_string(ipv4) {
            Ok(d) => {
                proof {
                    lemma_outcome_meets_rules(rules_validator(PORT, LOCAL, IPV6), s, d@);
                }
                Ok(IPv4WithRules { ipv4: d })
            },
            Err(e) => Err(e),
        }
    }

    pub fn from_str(ipv4: &str) -> (r: Result<Self, IPv4Error>)
        ensures
            ipv4_rules_parsed_as(r, ipv4.spec_bytes()),
    {
        match Self::create_validator().parse_str(ipv4) {
            Ok(d) => {
                proof {
                    lemma_outcome_meets_rules(rules_validator(PORT, LOCAL, IPV6), ipv4.spec_bytes(), d@);
                }
                Ok(IPv4WithRules { ipv4: d })
            },
            Err(e) => Err(e),
        }
    }

    /// Checks an already parsed address against the fixed port and locality rules,
    /// without parsing again.
    pub fn from_ipv4(ipv4: IPv4) -> (r: Result<Self, IPv4Error>)
        ensures
            match r {
                Ok(d) => ipv4_policy_error(option_of_code(PORT), option_of_code(LOCAL), ipv4@) is None
                    && d@ == ipv4@,
                Err(e) => ipv4_policy_error(option_of_code(PORT), option_of_code(LOCAL), ipv4@) == Some(e),
            },
    {
        proof {
            use_type_invariant(&ipv4);
        }
        let v = Self::create_validator();
        let present = ipv4.port_index != ipv4.full_ipv4_len;
        check_port(&v.port, present, ipv4.port as u32)?;
        check_local(&v.local, ipv4.is_local)?;
        Ok(IPv4WithRules { ipv4 })
    }

    pub fn into_ipv4(self) -> (r: IPv4)
        ensures
            r@ == self@,
    {
        self.ipv4
    }

    pub fn as_ipv4(&self) -> (r: &IPv4)
        ensures
            r@ == self@,
    {
        &self.ipv4
    }

    pub fn get_ipv4_address(&self) -> (r: [u8; 4])
        ensures
            r@ == ipv4_address(self@),
    {
        self.ipv4.get_ipv4_address()
    }

    pub fn get_full_ipv4(&self) -> (r: &str)
        ensures
            r.spec_bytes() == self@,
    {
        self.ipv4.get_full_ipv4()
    }

    pub fn get_full_ipv4_without_port(&self) -> (r: &str)
        ensures
            r.spec_bytes() == without_port_text(self@),
    {
        self.ipv4.get_full_ipv4_without_port()
    }

    /// The port, known to be present because the type requires one.
    fn required_port(&self) -> (r: u16)
        requires
            option_of_code(PORT) == ValidatorOption::Must,
        ensures
            port_of(self@) == Some(r),
    {
        proof {
            use_type_invariant(self);
        }
        self.ipv4.get_port().unwrap()
    }
}

impl<const PORT: u8, const LOCAL: u8, const IPV6: u8> Validated for IPv4WithRules<PORT, LOCAL, IPV6> {}

impl<const PORT: u8, const LOCAL: u8, const IPV6: u8> ValidatedWrapper for IPv4WithRules<
    PORT,
    LOCAL,
    IPV6,
> {
    type Error = IPv4Error;

    fn from_string(ipv4: String) -> Result<Self, Self::Error> {
        IPv4WithRules::from_string(ipv4)
    }

    fn from_str(ipv4: &str) -> Result<Self, Self::Error> {
        IPv4WithRules::from_str(ipv4)
    }
}

impl IPv4LocalableWithPort {
    pub fn get_port(&self) -> (r: u16)
        ensures
            port_of(self@) == Some(r),
    {
        self.required_port()
    }

    pub fn is_local(&self) -> (r: bool)
        ensures
            r == is_local_address(ipv4_address(self@)),
    {
        self.ipv4.is_local()
    }
}

impl IPv4LocalableAllowPort {
    pub fn get_port(&self) -> (r: Option<u16>)
        ensures
            r == port_of(self@),
    {
        self.ipv4.get_port()
    }

    pub fn is_local(&self) -> (r: bool)
        ensures
            r == is_local_address(ipv4_address(self@)),
    {
        self.ipv4.is_local()
    }
}

impl IPv4LocalableWithoutPort {
    pub fn is_local(&self) -> (r: bool)
        ensures
            r == is_local_address(ipv4_address(self@)),
    {
        self.ipv4.is_local()
    }
}

impl IPv4UnlocalableWithPort {
    pub fn get_port(&self) -> (r: u16)
        ensures
            port_of(self@) == Some(r),
    {
        self.required_port()
    }
}

impl IPv4UnlocalableAllowPort {
    pub fn get_port(&self) -> (r: Option<u16>)
        ensures
            r == port_of(self@),
    {
        self.ipv4.get_port()
    }
}

/// When an address has a port written without leading zeros, the text without the port,
/// `:`, and the port in decimal give back the whole text.
pub proof fn law_ipv4_port_reconstruction(s: Seq<u8>)
    requires
        ipv4_accepted(s),
        has_port(s),
        port_text(s).len() > 1 ==> port_text(s)[0] != 0x30,
    ensures
        without_port_text(s) + seq![COLON] + decimal(port_of(s)->Some_0 as nat) == s,
{
    lemma_decimal_of_digits(port_text(s));
    lemma_last_before_range(s, COLON, s.len() as int);
    assert(s =~= s.subrange(0, host_end(s)) + seq![COLON] + port_text(s));
}

/// An address found inside an IPv6 literal gets the dotted text of that address, and its
/// port in decimal after `:` if a port was given.
pub proof fn law_ipv4_from_ipv6_text(v: IPv4Validator, s: Seq<u8>)
    requires
        !ipv4_syntax(s),
        ipv4_outcome(v, s) is Ok,
    ensures
        ipv4_outcome(v, s)->Ok_0 == ipv4_text(
            ipv4_address(ipv4_outcome(v, s)->Ok_0),
            port_of(ipv4_outcome(v, s)->Ok_0),
        ),
{
    let (addr, present, value) = ipv6_form(s)->Some_0;
    let o = embedded_ipv4(ipv6_segments(addr)->Some_0)->Some_0;
    lemma_ipv4_text_accepted(o, if present { Some(value as u16) } else { None });
}

} // verus!
