use vstd::prelude::*;
use vstd::utf8::*;
use vstd::string::StringSliceAdditionalSpecFns;

verus! {

broadcast use vstd::utf8::group_utf8_lib;

pub const DOT: u8 = 0x2E;

pub const COLON: u8 = 0x3A;

/// An ASCII decimal digit.
pub open spec fn is_digit(b: u8) -> bool {
    0x30 <= b <= 0x39
}

/// Every byte of `t` is an ASCII decimal digit.
pub open spec fn all_digits(t: Seq<u8>) -> bool {
    forall|i: int| 0 <= i < t.len() ==> is_digit(#[trigger] t[i])
}

/// The number that the decimal digits `t` write.
pub open spec fn digits_value(t: Seq<u8>) -> nat
    decreases t.len(),
{
    if t.len() == 0 {
        0
    } else {
        digits_value(t.drop_last()) * 10 + (t.last() - 0x30) as nat
    }
}

/// Index of the last byte `c` among the first `i` bytes of `s`, or -1.
pub open spec fn last_before(s: Seq<u8>, c: u8, i: int) -> int
    decreases i,
{
    if i <= 0 {
        -1
    } else if s[i - 1] == c {
        i - 1
    } else {
        last_before(s, c, i - 1)
    }
}

pub proof fn lemma_last_before_range(s: Seq<u8>, c: u8, i: int)
    requires
        0 <= i <= s.len(),
    ensures
        -1 <= last_before(s, c, i) < i,
        last_before(s, c, i) >= 0 ==> s[last_before(s, c, i)] == c,
        forall|j: int| last_before(s, c, i) < j < i ==> s[j] != c,
    decreases i,
{
    if i > 0 && s[i - 1] != c {
        lemma_last_before_range(s, c, i - 1);
    }
}

/// A place where a `&str` may be cut: its ends, or next to an ASCII byte.
pub open spec fn ascii_cut_point(b: Seq<u8>, i: int) -> bool {
    ||| i == 0
    ||| i == b.len()
    ||| (0 <= i < b.len() && b[i] < 0x80)
    ||| (0 < i < b.len() && b[i - 1] < 0x80)
}

proof fn lemma_after_ascii(b: Seq<u8>, i: int)
    requires
        valid_utf8(b),
        0 < i < b.len(),
        b[i - 1] < 0x80,
    ensures
        !is_continuation_byte(b[i]),
{
    assert(!is_continuation_byte(b[i - 1]));
    assert(is_char_boundary(b, i - 1));
    let suf = b.subrange(i - 1, b.len() as int);
    assert(valid_utf8(suf));
    assert(pop_first_scalar(suf) =~= b.subrange(i, b.len() as int));
    let rest = b.subrange(i, b.len() as int);
    assert(valid_utf8(rest));
    assert(rest[0] == b[i]);
}

pub proof fn lemma_ascii_cut_is_boundary(b: Seq<u8>, i: int)
    requires
        valid_utf8(b),
        ascii_cut_point(b, i),
    ensures
        is_char_boundary(b, i),
{
    if 0 < i < b.len() {
        if b[i] >= 0x80 {
            lemma_after_ascii(b, i);
        }
        assert(!is_continuation_byte(b[i]));
    }
}

/// The bytes `start..end` of `s`.
pub(crate) fn ascii_cut(s: &str, start: usize, end: usize) -> (r: &str)
    requires
        start <= end <= s.spec_bytes().len(),
        ascii_cut_point(s.spec_bytes(), start as int),
        ascii_cut_point(s.spec_bytes(), end as int),
    ensures
        r.spec_bytes() == s.spec_bytes().subrange(start as int, end as int),
{
    let ghost b = s.spec_bytes();
    proof {
        lemma_ascii_cut_is_boundary(b, end as int);
    }
    let (head, _tail) = s.split_at(end);
    proof {
        let h = b.subrange(0, end as int);
        assert(valid_utf8(h));
        assert(ascii_cut_point(h, start as int)) by {
            if 0 < start < end {
                assert(h[start as int] == b[start as int]);
                assert(h[start - 1] == b[start - 1]);
            }
        }
        lemma_ascii_cut_is_boundary(h, start as int);
    }
    let (_skip, mid) = head.split_at(start);
    proof {
        assert(mid.spec_bytes() =~= b.subrange(start as int, end as int));
    }
    mid
}

/// Reads the decimal digits `start..end` of `b`: `Some` exactly when there are one to
/// five of them, all ASCII digits.
pub(crate) fn read_port_digits(b: &[u8], start: usize, end: usize) -> (r: Option<u32>)
    requires
        start <= end <= b@.len(),
    ensures
        r is Some <==> (1 <= end - start <= 5 && all_digits(b@.subrange(start as int, end as int))),
        r matches Some(v) ==> v as nat == digits_value(b@.subrange(start as int, end as int))
            && v < 100000,
{
    if end == start || end - start > 5 {
        return None;
    }
    let mut v: u32 = 0;
    let mut i: usize = start;
    while i < end
        invariant
            start <= i <= end <= b@.len(),
            end - start <= 5,
            all_digits(b@.subrange(start as int, i as int)),
            v as nat == digits_value(b@.subrange(start as int, i as int)),
            v < pow10((i - start) as nat),
        decreases end - i,
    {
        let d = b[i];
        if d < 0x30 || d > 0x39 {
            proof {
                let t = b@.subrange(start as int, end as int);
                assert(t[i - start] == d);
            }
            return None;
        }
        proof {
            let t = b@.subrange(start as int, i as int + 1);
            assert(t.drop_last() =~= b@.subrange(start as int, i as int));
            let k = (i - start) as nat;
            lemma_pow10_step(k);
            lemma_pow10_mono(k, 4);
            reveal_with_fuel(pow10, 5);
            let p = pow10(k);
            assert(v * 10 + (d - 0x30) < 10 * p) by (nonlinear_arith)
                requires
                    v < p,
                    d - 0x30 < 10,
            ;
        }
        v = v * 10 + (d - 0x30) as u32;
        i = i + 1;
    }
    proof {
        lemma_pow10_mono((end - start) as nat, 5);
        reveal_with_fuel(pow10, 6);
    }
    Some(v)
}

pub open spec fn pow10(k: nat) -> nat
    decreases k,
{
    if k == 0 {
        1
    } else {
        10 * pow10((k - 1) as nat)
    }
}

proof fn lemma_pow10_step(k: nat)
    ensures
        pow10(k + 1) == 10 * pow10(k),
{
}

proof fn lemma_pow10_mono(a: nat, b: nat)
    requires
        a <= b,
    ensures
        pow10(a) <= pow10(b),
    decreases b,
{
    if a < b {
        lemma_pow10_mono(a, (b - 1) as nat);
    }
}

/// Index of the colon before the port, or -1.
pub open spec fn colon_index(s: Seq<u8>) -> int {
    last_before(s, COLON, s.len() as int)
}

pub open spec fn has_port(s: Seq<u8>) -> bool {
    colon_index(s) >= 0
}

/// Where the host ends: at the colon before the port, else at the end.
pub open spec fn host_end(s: Seq<u8>) -> int {
    if has_port(s) {
        colon_index(s)
    } else {
        s.len() as int
    }
}

/// The digits after the colon.
pub open spec fn port_text(s: Seq<u8>) -> Seq<u8> {
    s.subrange(colon_index(s) + 1, s.len() as int)
}

/// Position of the last byte `c` in `b[start..end]`.
pub(crate) fn find_last_in(b: &[u8], c: u8, start: usize, end: usize) -> (r: Option<usize>)
    requires
        start <= end <= b@.len(),
    ensures
        r is None <==> last_before(b@.subrange(start as int, end as int), c, end - start) < 0,
        r matches Some(i) ==> start <= i < end && i - start == last_before(
            b@.subrange(start as int, end as int),
            c,
            end - start,
        ),
{
    let ghost t = b@.subrange(start as int, end as int);
    let mut i: usize = end;
    while i > start
        invariant
            start <= i <= end <= b@.len(),
            t == b@.subrange(start as int, end as int),
            last_before(t, c, end - start) == last_before(t, c, i - start),
        decreases i,
    {
        assert(t[i - 1 - start] == b@[i - 1]);
        if b[i - 1] == c {
            return Some(i - 1);
        }
        i = i - 1;
    }
    None
}

/// A decimal octet: `0`, or 1 to 3 digits without a leading zero, at most 255.
pub open spec fn is_octet_text(t: Seq<u8>) -> bool {
    &&& 1 <= t.len() <= 3
    &&& all_digits(t)
    &&& t.len() > 1 ==> t[0] != 0x30
    &&& digits_value(t) <= 255
}

/// The values of `k` octets joined by dots, if `t` is that.
pub open spec fn octets_of(t: Seq<u8>, k: nat) -> Option<Seq<u8>>
    decreases k,
{
    let p = last_before(t, DOT, t.len() as int);
    let last = t.subrange(p + 1, t.len() as int);
    if !is_octet_text(last) {
        None
    } else if k <= 1 {
        if p < 0 {
            Some(seq![digits_value(last) as u8])
        } else {
            None
        }
    } else if p < 0 {
        None
    } else {
        match octets_of(t.subrange(0, p), (k - 1) as nat) {
            Some(os) => Some(os.push(digits_value(last) as u8)),
            None => None,
        }
    }
}

/// Reads one octet from `b[start..end]`.
pub(crate) fn read_octet(b: &[u8], start: usize, end: usize) -> (r: Option<u8>)
    requires
        start <= end <= b@.len(),
    ensures
        r is Some <==> is_octet_text(b@.subrange(start as int, end as int)),
        r matches Some(v) ==> v as nat == digits_value(b@.subrange(start as int, end as int)),
{
    if end - start > 3 {
        return None;
    }
    match read_port_digits(b, start, end) {
        Some(v) => {
            if end - start > 1 && b[start] == 0x30 {
                assert(b@.subrange(start as int, end as int)[0] == b@[start as int]);
                return None;
            }
            if v > 255 {
                return None;
            }
            proof {
                if end - start > 1 {
                    assert(b@.subrange(start as int, end as int)[0] == b@[start as int]);
                }
            }
            Some(v as u8)
        },
        None => None,
    }
}

/// Reads `k` dot-separated octets from `b[start..end]`.
pub(crate) fn read_octets(b: &[u8], start: usize, end: usize, k: usize) -> (r: Option<Vec<u8>>)
    requires
        start <= end <= b@.len(),
    ensures
        r is Some <==> octets_of(b@.subrange(start as int, end as int), k as nat) is Some,
        r matches Some(os) ==> os@ == octets_of(b@.subrange(start as int, end as int), k as nat)->Some_0,
    decreases k,
{
    let ghost t = b@.subrange(start as int, end as int);
    let p = find_last_in(b, DOT, start, end);
    let last_start = match p {
        Some(p) => p + 1,
        None => start,
    };
    proof {
        let q = last_before(t, DOT, t.len() as int);
        lemma_last_before_range(t, DOT, t.len() as int);
        assert(t.subrange(q + 1, t.len() as int) =~= b@.subrange(last_start as int, end as int));
    }
    let v = match read_octet(b, last_start, end) {
        Some(v) => v,
        None => {
            return None;
        },
    };
    if k <= 1 {
        match p {
            Some(_) => None,
            None => {
                let mut os: Vec<u8> = Vec::new();
                os.push(v);
                proof {
                    assert(os@ =~= seq![v]);
                }
                Some(os)
            },
        }
    } else {
        match p {
            None => None,
            Some(p) => {
                proof {
                    assert(t.subrange(0, p - start) =~= b@.subrange(start as int, p as int));
                }
                match read_octets(b, start, p, k - 1) {
                    Some(os) => {
                        let mut os = os;
                        os.push(v);
                        Some(os)
                    },
                    None => None,
                }
            },
        }
    }
}

/// Start of the port digits, or the length when there is no port.
pub open spec fn port_start(s: Seq<u8>) -> int {
    if has_port(s) {
        colon_index(s) + 1
    } else {
        s.len() as int
    }
}

pub open spec fn port_value(s: Seq<u8>) -> nat {
    digits_value(port_text(s))
}

/// The string without `:` and the port.
pub open spec fn without_port_text(s: Seq<u8>) -> Seq<u8> {
    s.subrange(0, host_end(s))
}

pub open spec fn port_of(s: Seq<u8>) -> Option<u16> {
    if has_port(s) {
        Some(port_value(s) as u16)
    } else {
        None
    }
}

pub proof fn lemma_octets_len(t: Seq<u8>, k: nat)
    ensures
        octets_of(t, k) matches Some(os) ==> os.len() == if k <= 1 { 1 } else { k },
    decreases k,
{
    if k > 1 {
        let p = last_before(t, DOT, t.len() as int);
        lemma_octets_len(t.subrange(0, p), (k - 1) as nat);
    }
}

/// `n` in decimal, without leading zeros.
pub open spec fn decimal(n: nat) -> Seq<u8>
    decreases n,
{
    if n < 10 {
        seq![(0x30 + n) as u8]
    } else {
        decimal(n / 10).push((0x30 + n % 10) as u8)
    }
}

pub proof fn lemma_decimal(n: nat)
    ensures
        1 <= decimal(n).len(),
        all_digits(decimal(n)),
        digits_value(decimal(n)) == n,
        n >= 1 ==> decimal(n)[0] != 0x30,
        n < 10 ==> decimal(n).len() == 1,
        n < 100 ==> decimal(n).len() <= 2,
        n < 1000 ==> decimal(n).len() <= 3,
        n < 10000 ==> decimal(n).len() <= 4,
        n < 100000 ==> decimal(n).len() <= 5,
    decreases n,
{
    if n >= 10 {
        lemma_decimal(n / 10);
        let d = decimal(n);
        assert(d.drop_last() =~= decimal(n / 10));
        assert(d[0] == decimal(n / 10)[0]);
        assert(d.last() == (0x30 + n % 10) as u8);
        assert(digits_value(d) == digits_value(decimal(n / 10)) * 10 + n % 10);
        assert((n / 10) * 10 + n % 10 == n) by (nonlinear_arith);
    } else {
        let d = decimal(n);
        assert(d.drop_last() =~= Seq::<u8>::empty());
        assert(digits_value(d.drop_last()) == 0);
    }
}

/// A digit string without a leading zero is the decimal form of its value.
pub proof fn lemma_decimal_of_digits(t: Seq<u8>)
    requires
        1 <= t.len(),
        all_digits(t),
        t.len() > 1 ==> t[0] != 0x30,
    ensures
        decimal(digits_value(t)) == t,
        t.len() > 1 ==> digits_value(t) >= 10,
    decreases t.len(),
{
    let v = digits_value(t);
    if t.len() == 1 {
        assert(t.drop_last() =~= Seq::<u8>::empty());
        assert(digits_value(t.drop_last()) == 0);
        assert(decimal(v) =~= t);
    } else {
        let u = t.drop_last();
        assert(u[0] == t[0]);
        assert(all_digits(u)) by {
            assert forall|i: int| 0 <= i < u.len() implies crate::text::is_digit(#[trigger] u[i]) by {
                assert(u[i] == t[i]);
            }
        }
        lemma_decimal_of_digits(u);
        assert(digits_value(u) >= 1) by {
            if u.len() == 1 {
                assert(u.drop_last() =~= Seq::<u8>::empty());
                assert(digits_value(u.drop_last()) == 0);
            }
        }
        let d = (t.last() - 0x30) as nat;
        assert(d < 10);
        assert(v == digits_value(u) * 10 + d);
        assert(v / 10 == digits_value(u) && v % 10 == d) by (nonlinear_arith)
            requires
                v == digits_value(u) * 10 + d,
                d < 10,
        ;
        assert(decimal(v) == decimal(v / 10).push((0x30 + v % 10) as u8));
        assert(t =~= u.push(t.last()));
    }
}

/// A byte `c` at `k` before `i` makes the last `c` before `i` at least `k`.
pub proof fn lemma_last_before_at_least(s: Seq<u8>, c: u8, k: int, i: int)
    requires
        0 <= k < i <= s.len(),
        s[k] == c,
    ensures
        last_before(s, c, i) >= k,
    decreases i,
{
    if s[i - 1] != c {
        lemma_last_before_at_least(s, c, k, i - 1);
    }
}

} // verus!
