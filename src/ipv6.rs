use vstd::prelude::*;
use crate::text::{COLON, is_digit, last_before, lemma_last_before_range, find_last_in, octets_of, read_octets, lemma_octets_len};

verus! {

pub open spec fn is_hex_digit(b: u8) -> bool {
    is_digit(b) || (0x41 <= b <= 0x46) || (0x61 <= b <= 0x66)
}

pub open spec fn hex_digit_value(b: u8) -> nat {
    if is_digit(b) {
        (b - 0x30) as nat
    } else if 0x41 <= b <= 0x46 {
        (b - 0x41 + 10) as nat
    } else {
        (b - 0x61 + 10) as nat
    }
}

/// The number that the hexadecimal digits `t` write.
pub open spec fn hex_value(t: Seq<u8>) -> nat
    decreases t.len(),
{
    if t.len() == 0 {
        0
    } else {
        hex_value(t.drop_last()) * 16 + hex_digit_value(t.last())
    }
}

/// One to four hexadecimal digits.
pub open spec fn is_hex_group(t: Seq<u8>) -> bool {
    1 <= t.len() <= 4 && forall|i: int| 0 <= i < t.len() ==> is_hex_digit(#[trigger] t[i])
}

/// The 16-bit groups that one item between colons stands for: a hexadecimal group, or,
/// where `v4` holds, four dotted octets that make two groups.
pub open spec fn item_groups(item: Seq<u8>, v4: bool) -> Option<Seq<u16>> {
    if is_hex_group(item) {
        Some(seq![hex_value(item) as u16])
    } else if v4 && octets_of(item, 4) is Some {
        let o = octets_of(item, 4)->Some_0;
        Some(seq![(o[0] * 256 + o[1]) as u16, (o[2] * 256 + o[3]) as u16])
    } else {
        None
    }
}

/// The groups of a non-empty colon-separated list of items; only the last item may be
/// dotted octets, and only where `v4` holds.
pub open spec fn items_of(t: Seq<u8>, v4: bool) -> Option<Seq<u16>>
    decreases t.len(),
{
    let p = last_before(t, COLON, t.len() as int);
    let last = item_groups(t.subrange(p + 1, t.len() as int), v4);
    if 0 <= p < t.len() {
        match items_of(t.subrange(0, p), false) {
            Some(a) => match last {
                Some(l) => Some(a + l),
                None => None,
            },
            None => None,
        }
    } else {
        last
    }
}

/// Like `items_of`, and an empty text has no groups.
pub open spec fn groups_of(t: Seq<u8>, v4: bool) -> Option<Seq<u16>> {
    if t.len() == 0 {
        Some(Seq::empty())
    } else {
        items_of(t, v4)
    }
}

/// Index of the last `::` that ends before `i`, or -1.
pub open spec fn double_colon_before(t: Seq<u8>, i: int) -> int
    decreases i,
{
    if i < 2 {
        -1
    } else if t[i - 2] == COLON && t[i - 1] == COLON {
        i - 2
    } else {
        double_colon_before(t, i - 1)
    }
}

/// The eight groups of an IPv6 address in text form: eight items, or items around one
/// `::` that stands for at least one zero group; the last item may be dotted octets.
pub open spec fn ipv6_segments(t: Seq<u8>) -> Option<Seq<u16>> {
    let k = double_colon_before(t, t.len() as int);
    if k < 0 {
        match items_of(t, true) {
            Some(g) => if g.len() == 8 {
                Some(g)
            } else {
                None
            },
            None => None,
        }
    } else {
        match (groups_of(t.subrange(0, k), false), groups_of(t.subrange(k + 2, t.len() as int), true)) {
            (Some(h), Some(l)) => if h.len() + l.len() <= 7 {
                Some(h + Seq::new((8 - h.len() - l.len()) as nat, |i: int| 0u16) + l)
            } else {
                None
            },
            _ => None,
        }
    }
}

/// The IPv4 address inside an IPv6 address: the last 32 bits, where the first 80 are zero
/// and the next 16 are all zero or all one.
pub open spec fn embedded_ipv4(g: Seq<u16>) -> Option<Seq<u8>> {
    if g.len() == 8 && g[0] == 0 && g[1] == 0 && g[2] == 0 && g[3] == 0 && g[4] == 0 && (g[5] == 0
        || g[5] == 0xFFFF) {
        Some(seq![(g[6] / 256) as u8, (g[6] % 256) as u8, (g[7] / 256) as u8, (g[7] % 256) as u8])
    } else {
        None
    }
}

fn hex_digit_exec(x: u8) -> (r: Option<u8>)
    ensures
        r is Some <==> is_hex_digit(x),
        r matches Some(v) ==> v as nat == hex_digit_value(x) && v < 16,
{
    if 0x30 <= x && x <= 0x39 {
        Some(x - 0x30)
    } else if 0x41 <= x && x <= 0x46 {
        Some(x - 0x41 + 10)
    } else if 0x61 <= x && x <= 0x66 {
        Some(x - 0x61 + 10)
    } else {
        None
    }
}

proof fn lemma_hex_value_bound(t: Seq<u8>)
    requires
        forall|i: int| 0 <= i < t.len() ==> is_hex_digit(#[trigger] t[i]),
        t.len() <= 4,
    ensures
        hex_value(t) < 65536,
{
    reveal_with_fuel(hex_value, 5);
    if t.len() > 0 {
        assert(t.drop_last().len() == t.len() - 1);
    }
}

/// Reads one hexadecimal group from `b[start..end]`.
fn read_hex_group(b: &[u8], start: usize, end: usize) -> (r: Option<u16>)
    requires
        start <= end <= b@.len(),
    ensures
        r is Some <==> is_hex_group(b@.subrange(start as int, end as int)),
        r matches Some(v) ==> v as nat == hex_value(b@.subrange(start as int, end as int)),
{
    if end == start || end - start > 4 {
        return None;
    }
    let mut v: u32 = 0;
    let mut i: usize = start;
    while i < end
        invariant
            start <= i <= end <= b@.len(),
            end - start <= 4,
            forall|j: int| start <= j < i ==> is_hex_digit(#[trigger] b@[j]),
            v as nat == hex_value(b@.subrange(start as int, i as int)),
            v < 65536,
        decreases end - i,
    {
        let d = match hex_digit_exec(b[i]) {
            Some(d) => d,
            None => {
                assert(b@.subrange(start as int, end as int)[i - start] == b@[i as int]);
                return None;
            },
        };
        proof {
            let t = b@.subrange(start as int, i as int + 1);
            assert(t.drop_last() =~= b@.subrange(start as int, i as int));
            assert forall|j: int| 0 <= j < t.len() implies is_hex_digit(#[trigger] t[j]) by {
                assert(t[j] == b@[start + j]);
            }
            lemma_hex_value_bound(t);
        }
        v = v * 16 + d as u32;
        i = i + 1;
    }
    proof {
        let t = b@.subrange(start as int, end as int);
        assert forall|j: int| 0 <= j < t.len() implies is_hex_digit(#[trigger] t[j]) by {
            assert(t[j] == b@[start + j]);
        }
    }
    Some(v as u16)
}

/// Reads the groups of one item of `b[start..end]`.
fn read_item(b: &[u8], start: usize, end: usize, v4: bool) -> (r: Option<Vec<u16>>)
    requires
        start <= end <= b@.len(),
    ensures
        r is Some <==> item_groups(b@.subrange(start as int, end as int), v4) is Some,
        r matches Some(g) ==> g@ == item_groups(b@.subrange(start as int, end as int), v4)->Some_0,
{
    match read_hex_group(b, start, end) {
        Some(v) => {
            let mut g: Vec<u16> = Vec::new();
            g.push(v);
            proof {
                assert(g@ =~= seq![v]);
            }
            return Some(g);
        },
        None => {},
    }
    if !v4 {
        return None;
    }
    match read_octets(b, start, end, 4) {
        Some(o) => {
            proof {
                lemma_octets_len(b@.subrange(start as int, end as int), 4);
            }
            let hi = o[0] as u16 * 256 + o[1] as u16;
            let lo = o[2] as u16 * 256 + o[3] as u16;
            let mut g: Vec<u16> = Vec::new();
            g.push(hi);
            g.push(lo);
            proof {
                assert(g@ =~= seq![hi, lo]);
            }
            Some(g)
        },
        None => None,
    }
}

/// Reads the groups of the non-empty item list `b[start..end]`.
fn read_items(b: &[u8], start: usize, end: usize, v4: bool) -> (r: Option<Vec<u16>>)
    requires
        start <= end <= b@.len(),
    ensures
        r is Some <==> items_of(b@.subrange(start as int, end as int), v4) is Some,
        r matches Some(g) ==> g@ == items_of(b@.subrange(start as int, end as int), v4)->Some_0,
    decreases end - start,
{
    let ghost t = b@.subrange(start as int, end as int);
    let p = find_last_in(b, COLON, start, end);
    let last_start = match p {
        Some(p) => p + 1,
        None => start,
    };
    proof {
        lemma_last_before_range(t, COLON, t.len() as int);
        let q = last_before(t, COLON, t.len() as int);
        assert(t.subrange(q + 1, t.len() as int) =~= b@.subrange(last_start as int, end as int));
    }
    let last = read_item(b, last_start, end, v4);
    match p {
        None => last,
        Some(p) => {
            proof {
                assert(t.subrange(0, p - start) =~= b@.subrange(start as int, p as int));
            }
            match read_items(b, start, p, false) {
                Some(a) => match last {
                    Some(l) => {
                        let mut a = a;
                        let mut l = l;
                        a.append(&mut l);
                        Some(a)
                    },
                    None => None,
                },
                None => None,
            }
        },
    }
}

/// Reads the groups of `b[start..end]`, none when it is empty.
fn read_groups(b: &[u8], start: usize, end: usize, v4: bool) -> (r: Option<Vec<u16>>)
    requires
        start <= end <= b@.len(),
    ensures
        r is Some <==> groups_of(b@.subrange(start as int, end as int), v4) is Some,
        r matches Some(g) ==> g@ == groups_of(b@.subrange(start as int, end as int), v4)->Some_0,
{
    if start == end {
        Some(Vec::new())
    } else {
        read_items(b, start, end, v4)
    }
}

/// Position of the last `::` in `b[start..end]`.
fn find_double_colon(b: &[u8], start: usize, end: usize) -> (r: Option<usize>)
    requires
        start <= end <= b@.len(),
    ensures
        r is None <==> double_colon_before(b@.subrange(start as int, end as int), end - start) < 0,
        r matches Some(i) ==> start <= i && i + 2 <= end && i - start == double_colon_before(
            b@.subrange(start as int, end as int),
            end - start,
        ),
{
    let ghost t = b@.subrange(start as int, end as int);
    let mut i: usize = end;
    while i - start >= 2
        invariant
            start <= i <= end <= b@.len(),
            t == b@.subrange(start as int, end as int),
            double_colon_before(t, end - start) == double_colon_before(t, i - start),
        decreases i,
    {
        assert(t[i - 2 - start] == b@[i - 2]);
        assert(t[i - 1 - start] == b@[i - 1]);
        if b[i - 2] == COLON && b[i - 1] == COLON {
            return Some(i - 2);
        }
        i = i - 1;
    }
    None
}

/// Reads the IPv6 address `b[start..end]` in text form into its eight groups.
pub(crate) fn read_ipv6(b: &[u8], start: usize, end: usize) -> (r: Option<Vec<u16>>)
    requires
        start <= end <= b@.len(),
    ensures
        r is Some <==> ipv6_segments(b@.subrange(start as int, end as int)) is Some,
        r matches Some(g) ==> g@ == ipv6_segments(b@.subrange(start as int, end as int))->Some_0,
{
    let ghost t = b@.subrange(start as int, end as int);
    match find_double_colon(b, start, end) {
        None => {
            match read_items(b, start, end, true) {
                Some(g) => if g.len() == 8 {
                    Some(g)
                } else {
                    None
                },
                None => None,
            }
        },
        Some(k) => {
            proof {
                assert(t.subrange(0, k - start) =~= b@.subrange(start as int, k as int));
                assert(t.subrange(k - start + 2, t.len() as int) =~= b@.subrange(k + 2, end as int));
            }
            let head = match read_groups(b, start, k, false) {
                Some(h) => h,
                None => {
                    return None;
                },
            };
            let tail = match read_groups(b, k + 2, end, true) {
                Some(l) => l,
                None => {
                    return None;
                },
            };
            if head.len() > 7 || tail.len() > 7 - head.len() {
                return None;
            }
            let zeros = 8 - head.len() - tail.len();
            let mut g = head;
            let ghost h = g@;
            let mut j: usize = 0;
            while j < zeros
                invariant
                    j <= zeros,
                    g@ == h + Seq::new(j as nat, |i: int| 0u16),
                decreases zeros - j,
            {
                g.push(0);
                j = j + 1;
                proof {
                    assert(g@ =~= h + Seq::new(j as nat, |i: int| 0u16));
                }
            }
            let mut tail = tail;
            g.append(&mut tail);
            Some(g)
        },
    }
}

/// The IPv4 address inside the eight groups `g`, if it has one.
pub(crate) fn to_ipv4(g: &Vec<u16>) -> (r: Option<[u8; 4]>)
    requires
        g@.len() == 8,
    ensures
        r is Some <==> embedded_ipv4(g@) is Some,
        r matches Some(o) ==> o@ == embedded_ipv4(g@)->Some_0,
{
    if g[0] == 0 && g[1] == 0 && g[2] == 0 && g[3] == 0 && g[4] == 0 && (g[5] == 0 || g[5]
        == 0xFFFF) {
        let o: [u8; 4] = [(g[6] / 256) as u8, (g[6] % 256) as u8, (g[7] / 256) as u8, (g[7] % 256) as u8];
        proof {
            assert(o@ =~= embedded_ipv4(g@)->Some_0);
        }
        Some(o)
    } else {
        None
    }
}

} // verus!
