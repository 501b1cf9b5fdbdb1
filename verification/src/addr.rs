//! Socket addresses as plain values, with their textual grammar.
//!
//! The library models an address by its numeric parts, so that the registry,
//! the admission rules and the dispatcher can be verified over them. The
//! grammar below follows the common textual forms: a version-four address is
//! four decimal octets without leading zeros, joined by dots; a version-six
//! address is up to eight hexadecimal groups joined by colons, where one
//! `::` may stand for a run of zero groups; a socket address is the address
//! and a decimal port, the version-six form in square brackets.

use crate::text::all_digits;
use crate::text::digit_val;
use crate::text::digits_val;
use crate::text::is_digit;
use crate::text::lemma_digits_val_take_le;
use crate::text::split_of;
use crate::text::split_on;
use vstd::prelude::*;
use vstd::string::StrSliceExecFns;

verus! {

/// A version-four address: four octets.
#[derive(Clone, Copy, PartialEq, Eq, Structural, Debug, Hash)]
pub struct Ipv4Addr {
    pub a: u8,
    pub b: u8,
    pub c: u8,
    pub d: u8,
}

/// A version-six address: eight sixteen-bit groups.
#[derive(Clone, Copy, PartialEq, Eq, Structural, Debug, Hash)]
pub struct Ipv6Addr {
    pub g0: u16,
    pub g1: u16,
    pub g2: u16,
    pub g3: u16,
    pub g4: u16,
    pub g5: u16,
    pub g6: u16,
    pub g7: u16,
}

/// An address of either version.
#[derive(Clone, Copy, PartialEq, Eq, Structural, Debug, Hash)]
pub enum IpAddress {
    V4(Ipv4Addr),
    V6(Ipv6Addr),
}

/// An address with a port.
#[derive(Clone, Copy, PartialEq, Eq, Structural, Debug, Hash)]
pub struct SocketAddress {
    pub ip: IpAddress,
    pub port: u16,
}

/// A decimal octet as it may stand in a version-four address: one to three
/// digits, no leading zero, value at most 255.
pub open spec fn is_octet_text(p: Seq<char>) -> bool {
    1 <= p.len() <= 3 && all_digits(p) && (p.len() == 1 || p[0] != '0') && digits_val(p) <= 255
}

/// A port: one or more digits whose value fits, leading zeros allowed.
pub open spec fn is_port_text(p: Seq<char>) -> bool {
    p.len() >= 1 && all_digits(p) && digits_val(p) <= 65535
}

/// The version-four address a string denotes, if any.
pub open spec fn ipv4_of(s: Seq<char>) -> Option<Ipv4Addr> {
    let ps = split_of(s, '.');
    if ps.len() == 4 && is_octet_text(ps[0]) && is_octet_text(ps[1]) && is_octet_text(ps[2])
        && is_octet_text(ps[3]) {
        Some(
            Ipv4Addr {
                a: digits_val(ps[0]) as u8,
                b: digits_val(ps[1]) as u8,
                c: digits_val(ps[2]) as u8,
                d: digits_val(ps[3]) as u8,
            },
        )
    } else {
        None
    }
}

fn parse_octet(t: &str) -> (r: Option<u8>)
    ensures
        r is Some <==> is_octet_text(t@),
        r is Some ==> r->0 == digits_val(t@),
{
    let n = t.unicode_len();
    if n < 1 || n > 3 {
        return None;
    }
    let mut acc: u16 = 0;
    let mut i: usize = 0;
    while i < n
        invariant
            n == t@.len(),
            1 <= n <= 3,
            i <= n,
            forall|j: int| 0 <= j < i ==> is_digit(#[trigger] t@[j]),
            acc == digits_val(t@.take(i as int)),
            acc < (if i == 0 { 1int } else if i == 1 { 10int } else if i == 2 { 100int } else { 1000int }),
        decreases n - i,
    {
        let c = t.get_char(i);
        let cv = c as u32;
        if cv < 48 || cv > 57 {
            return None;
        }
        proof {
            assert(t@.take(i + 1).drop_last() =~= t@.take(i as int));
            assert(t@.take(i + 1).last() == t@[i as int]);
        }
        acc = acc * 10 + ((cv - 48) as u16);
        i += 1;
    }
    proof {
        assert(t@.take(n as int) =~= t@);
    }
    if n > 1 && t.get_char(0) == '0' {
        return None;
    }
    if acc > 255 {
        return None;
    }
    Some(acc as u8)
}

fn parse_port(t: &str) -> (r: Option<u16>)
    ensures
        r is Some <==> is_port_text(t@),
        r is Some ==> r->0 == digits_val(t@),
{
    let n = t.unicode_len();
    if n < 1 {
        return None;
    }
    let mut acc: u32 = 0;
    let mut i: usize = 0;
    while i < n
        invariant
            n == t@.len(),
            1 <= n,
            i <= n,
            forall|j: int| 0 <= j < i ==> is_digit(#[trigger] t@[j]),
            acc == digits_val(t@.take(i as int)),
            acc <= 65535,
        decreases n - i,
    {
        let c = t.get_char(i);
        let cv = c as u32;
        if cv < 48 || cv > 57 {
            return None;
        }
        proof {
            assert(t@.take(i + 1).drop_last() =~= t@.take(i as int));
            assert(t@.take(i + 1).last() == t@[i as int]);
        }
        let d = cv - 48;
        if acc > 6553 || (acc == 6553 && d > 5) {
            proof {
                lemma_digits_val_take_le(t@, i + 1);
            }
            return None;
        }
        acc = acc * 10 + d;
        i += 1;
    }
    proof {
        assert(t@.take(n as int) =~= t@);
    }
    Some(acc as u16)
}

/// Parse a version-four address: four decimal octets joined by dots.
pub fn parse_ipv4(s: &str) -> (r: Option<Ipv4Addr>)
    ensures
        r == ipv4_of(s@),
{
    let ps = split_on(s, '.');
    if ps.len() != 4 {
        return None;
    }
    proof {
        assert(ps.deep_view()[0] == ps@[0]@);
        assert(ps.deep_view()[1] == ps@[1]@);
        assert(ps.deep_view()[2] == ps@[2]@);
        assert(ps.deep_view()[3] == ps@[3]@);
    }
    let a = match parse_octet(ps[0].as_str()) {
        Some(v) => v,
        None => {
            return None;
        },
    };
    let b = match parse_octet(ps[1].as_str()) {
        Some(v) => v,
        None => {
            return None;
        },
    };
    let c = match parse_octet(ps[2].as_str()) {
        Some(v) => v,
        None => {
            return None;
        },
    };
    let d = match parse_octet(ps[3].as_str()) {
        Some(v) => v,
        None => {
            return None;
        },
    };
    Some(Ipv4Addr { a, b, c, d })
}

/// A hexadecimal digit, either case.
pub open spec fn is_hex_digit(c: char) -> bool {
    is_digit(c) || (97 <= c as u32 && c as u32 <= 102) || (65 <= c as u32 && c as u32 <= 70)
}

/// The value of one hexadecimal digit.
pub open spec fn hex_val(c: char) -> nat {
    if is_digit(c) {
        digit_val(c)
    } else if 97 <= c as u32 && c as u32 <= 102 {
        (c as u32 - 87) as nat
    } else {
        (c as u32 - 55) as nat
    }
}

pub open spec fn all_hex(s: Seq<char>) -> bool {
    forall|i: int| 0 <= i < s.len() ==> is_hex_digit(#[trigger] s[i])
}

/// The value of a hexadecimal digit string, most significant digit first.
pub open spec fn hex_digits_val(s: Seq<char>) -> nat
    decreases s.len(),
{
    if s.len() == 0 {
        0
    } else {
        hex_digits_val(s.drop_last()) * 16 + hex_val(s.last())
    }
}

/// A group of a version-six address: one to four hexadecimal digits.
pub open spec fn is_group_text(p: Seq<char>) -> bool {
    1 <= p.len() <= 4 && all_hex(p)
}

pub open spec fn groups_ok(ps: Seq<Seq<char>>) -> bool {
    forall|i: int| 0 <= i < ps.len() ==> is_group_text(#[trigger] ps[i])
}

/// The position of the first double colon in `s`, or its length.
pub open spec fn find_dd(s: Seq<char>) -> int
    decreases s.len(),
{
    if s.len() < 2 {
        s.len() as int
    } else if s[0] == ':' && s[1] == ':' {
        0
    } else {
        1 + find_dd(s.skip(1))
    }
}

proof fn lemma_find_dd_at(s: Seq<char>, p: int)
    requires
        0 <= p,
        p + 1 < s.len(),
        s[p] == ':' && s[p + 1] == ':',
        forall|t: int| 0 <= t < p ==> !(#[trigger] s[t] == ':' && s[t + 1] == ':'),
    ensures
        find_dd(s) == p,
    decreases p,
{
    if p == 0 {
    } else {
        assert(!(s[0] == ':' && s[1] == ':'));
        lemma_find_dd_at(s.skip(1), p - 1);
    }
}

proof fn lemma_find_dd_none(s: Seq<char>)
    requires
        forall|t: int| 0 <= t && t + 1 < s.len() ==> !(#[trigger] s[t] == ':' && s[t + 1] == ':'),
    ensures
        find_dd(s) == s.len(),
    decreases s.len(),
{
    if s.len() >= 2 {
        lemma_find_dd_none(s.skip(1));
    }
}

/// The high sixteen bits of an embedded version-four tail.
pub open spec fn v4_hi(ip: Ipv4Addr) -> u16 {
    (ip.a as nat * 256 + ip.b as nat) as u16
}

/// The low sixteen bits of an embedded version-four tail.
pub open spec fn v4_lo(ip: Ipv4Addr) -> u16 {
    (ip.c as nat * 256 + ip.d as nat) as u16
}

/// The values of a run of hexadecimal groups.
pub open spec fn hex_vals(ps: Seq<Seq<char>>) -> Seq<u16> {
    ps.map_values(|p: Seq<char>| hex_digits_val(p) as u16)
}

/// The group values a trailing piece list denotes: hexadecimal groups
/// throughout, or hexadecimal groups with one version-four address as the
/// final piece, worth two groups.
pub open spec fn tail_vals(ps: Seq<Seq<char>>) -> Option<Seq<u16>> {
    if groups_ok(ps) {
        Some(hex_vals(ps))
    } else if ps.len() >= 1 && groups_ok(ps.drop_last()) && ipv4_of(ps.last()) is Some {
        Some(
            hex_vals(ps.drop_last()).push(v4_hi(ipv4_of(ps.last())->0)).push(
                v4_lo(ipv4_of(ps.last())->0),
            ),
        )
    } else {
        None
    }
}

/// The sixteen-bit group at position `i` of an address written as the group
/// values `l`, then a run of zero groups, then the group values `r`.
pub open spec fn val_at(l: Seq<u16>, r: Seq<u16>, i: int) -> u16 {
    if i < l.len() {
        l[i]
    } else if i >= 8 - r.len() {
        r[i - (8 - r.len())]
    } else {
        0
    }
}

pub open spec fn v6_vals(l: Seq<u16>, r: Seq<u16>) -> Ipv6Addr {
    Ipv6Addr {
        g0: val_at(l, r, 0),
        g1: val_at(l, r, 1),
        g2: val_at(l, r, 2),
        g3: val_at(l, r, 3),
        g4: val_at(l, r, 4),
        g5: val_at(l, r, 5),
        g6: val_at(l, r, 6),
        g7: val_at(l, r, 7),
    }
}

/// The version-six address a string denotes, if any: eight colon-joined
/// hexadecimal groups, or fewer with one `::` standing for the zero groups
/// between them; the final two groups may be written as an embedded
/// version-four address.
pub open spec fn ipv6_of(s: Seq<char>) -> Option<Ipv6Addr> {
    let p = find_dd(s);
    if p >= s.len() {
        let ps = split_of(s, ':');
        match tail_vals(ps) {
            Option::Some(vals) => {
                if vals.len() == 8 {
                    Some(v6_vals(vals, Seq::empty()))
                } else {
                    None
                }
            },
            Option::None => None,
        }
    } else {
        let left = s.take(p);
        let right = s.skip(p + 2);
        let l = if left.len() == 0 {
            Seq::<Seq<char>>::empty()
        } else {
            split_of(left, ':')
        };
        let rp = if right.len() == 0 {
            Seq::<Seq<char>>::empty()
        } else {
            split_of(right, ':')
        };
        if groups_ok(l) {
            match tail_vals(rp) {
                Option::Some(rv) => {
                    if l.len() + rv.len() <= 7 {
                        Some(v6_vals(hex_vals(l), rv))
                    } else {
                        None
                    }
                },
                Option::None => None,
            }
        } else {
            None
        }
    }
}

fn parse_group(t: &str) -> (r: Option<u16>)
    ensures
        r is Some <==> is_group_text(t@),
        r is Some ==> r->0 == hex_digits_val(t@),
{
    let n = t.unicode_len();
    if n < 1 || n > 4 {
        return None;
    }
    let mut acc: u32 = 0;
    let mut i: usize = 0;
    while i < n
        invariant
            n == t@.len(),
            1 <= n <= 4,
            i <= n,
            forall|j: int| 0 <= j < i ==> is_hex_digit(#[trigger] t@[j]),
            acc == hex_digits_val(t@.take(i as int)),
            acc < (if i == 0 {
                1int
            } else if i == 1 {
                16int
            } else if i == 2 {
                256int
            } else if i == 3 {
                4096int
            } else {
                65536int
            }),
        decreases n - i,
    {
        let c = t.get_char(i);
        let cv = c as u32;
        let d: u32 = if 48 <= cv && cv <= 57 {
            cv - 48
        } else if 97 <= cv && cv <= 102 {
            cv - 87
        } else if 65 <= cv && cv <= 70 {
            cv - 55
        } else {
            return None;
        };
        proof {
            assert(t@.take(i + 1).drop_last() =~= t@.take(i as int));
            assert(t@.take(i + 1).last() == t@[i as int]);
        }
        acc = acc * 16 + d;
        i += 1;
    }
    proof {
        assert(t@.take(n as int) =~= t@);
    }
    Some(acc as u16)
}

fn parse_group_run(ps: &Vec<String>, from: usize, to: usize) -> (r: Option<Vec<u16>>)
    requires
        from <= to <= ps@.len(),
    ensures
        r is Some <==> groups_ok(ps.deep_view().subrange(from as int, to as int)),
        r is Some ==> r->0@.len() == to - from && forall|i: int|
            from <= i < to ==> r->0@[i - from] == hex_digits_val(#[trigger] ps.deep_view()[i]),
{
    let mut out: Vec<u16> = Vec::new();
    let mut i: usize = from;
    while i < to
        invariant
            from <= i <= to <= ps@.len(),
            out@.len() == i - from,
            forall|j: int|
                from <= j < i ==> is_group_text(#[trigger] ps.deep_view()[j]) && out@[j - from]
                    == hex_digits_val(ps.deep_view()[j]),
        decreases to - i,
    {
        proof {
            assert(ps.deep_view()[i as int] == ps@[i as int]@);
        }
        match parse_group(ps[i].as_str()) {
            Some(v) => {
                out.push(v);
            },
            None => {
                proof {
                    assert(!is_group_text(ps.deep_view().subrange(from as int, to as int)[i
                        - from]));
                }
                return None;
            },
        }
        i += 1;
    }
    proof {
        assert forall|j: int|
            0 <= j < ps.deep_view().subrange(from as int, to as int).len() implies is_group_text(
            #[trigger] ps.deep_view().subrange(from as int, to as int)[j],
        ) by {
            assert(ps.deep_view().subrange(from as int, to as int)[j] == ps.deep_view()[j + from]);
        }
    }
    Some(out)
}

fn pick_group(l: &Vec<u16>, r: &Vec<u16>, i: usize) -> (g: u16)
    requires
        i < 8,
        l@.len() + r@.len() <= 8,
    ensures
        g == (if (i as int) < l@.len() {
            l@[i as int]
        } else if i as int >= 8 - r@.len() {
            r@[i as int - (8 - r@.len())]
        } else {
            0u16
        }),
{
    if i < l.len() {
        l[i]
    } else {
        let base = 8 - r.len();
        if i >= base {
            r[i - base]
        } else {
            0
        }
    }
}

fn parse_tail_run(ps: &Vec<String>) -> (r: Option<Vec<u16>>)
    ensures
        r is Some <==> tail_vals(ps.deep_view()) is Some,
        r matches Some(v) ==> Some(v@) == tail_vals(ps.deep_view()),
{
    let n = ps.len();
    let mut out: Vec<u16> = Vec::new();
    let mut i: usize = 0;
    while i < n
        invariant
            i <= n,
            n == ps@.len(),
            out@.len() == i,
            forall|j: int|
                0 <= j < i ==> is_group_text(#[trigger] ps.deep_view()[j]) && out@[j]
                    == hex_digits_val(ps.deep_view()[j]),
        decreases n - i,
    {
        proof {
            assert(ps.deep_view()[i as int] == ps@[i as int]@);
        }
        match parse_group(ps[i].as_str()) {
            Some(v) => {
                out.push(v);
            },
            None => {
                // not a hexadecimal group: only a version-four tail may
                // stand in the final place
                if i + 1 != n {
                    proof {
                        assert(!is_group_text(ps.deep_view()[i as int]));
                        assert(ps.deep_view().drop_last()[i as int] == ps.deep_view()[i as int]);
                        assert(!groups_ok(ps.deep_view()));
                        assert(!groups_ok(ps.deep_view().drop_last()));
                    }
                    return None;
                }
                match parse_ipv4(ps[i].as_str()) {
                    Some(v4) => {
                        let hi = (v4.a as u16) * 256 + (v4.b as u16);
                        let lo = (v4.c as u16) * 256 + (v4.d as u16);
                        out.push(hi);
                        out.push(lo);
                        proof {
                            let dv = ps.deep_view();
                            assert(!is_group_text(dv[i as int]));
                            assert(!groups_ok(dv));
                            assert(forall|j: int|
                                0 <= j < dv.drop_last().len() ==> #[trigger] dv.drop_last()[j]
                                    == dv[j]);
                            assert(groups_ok(dv.drop_last()));
                            assert(dv.last() == ps@[i as int]@);
                            assert(ipv4_of(dv.last()) == Some(v4));
                            assert(hi == v4_hi(v4) && lo == v4_lo(v4));
                            assert(out@ =~= hex_vals(dv.drop_last()).push(v4_hi(v4)).push(
                                v4_lo(v4),
                            ));
                        }
                        return Some(out);
                    },
                    None => {
                        proof {
                            assert(!is_group_text(ps.deep_view()[i as int]));
                            assert(!groups_ok(ps.deep_view()));
                            assert(ps.deep_view().last() == ps@[i as int]@);
                        }
                        return None;
                    },
                }
            },
        }
        i += 1;
    }
    proof {
        assert(groups_ok(ps.deep_view()));
        assert(out@ =~= hex_vals(ps.deep_view()));
    }
    Some(out)
}

/// Parse a version-six address.
pub fn parse_ipv6(s: &str) -> (r: Option<Ipv6Addr>)
    ensures
        r == ipv6_of(s@),
{
    let n = s.unicode_len();
    // find the first double colon, if there is one
    let mut i: usize = 0;
    let mut found: bool = false;
    while !found && n >= 2 && i < n - 1
        invariant
            n == s@.len(),
            i <= n,
            n >= 2 ==> i < n,
            !found ==> forall|t: int| 0 <= t < i ==> !(#[trigger] s@[t] == ':' && s@[t + 1] == ':'),
            found ==> i + 1 < n && s@[i as int] == ':' && s@[i as int + 1] == ':' && forall|t: int|
                0 <= t < i ==> !(#[trigger] s@[t] == ':' && s@[t + 1] == ':'),
        decreases n - i, (if found {
            0int
        } else {
            1int
        }),
    {
        if s.get_char(i) == ':' && s.get_char(i + 1) == ':' {
            found = true;
        } else {
            i += 1;
        }
    }
    if !found {
        proof {
            lemma_find_dd_none(s@);
        }
        let ps = split_on(s, ':');
        let vals = match parse_tail_run(&ps) {
            Some(v) => v,
            None => {
                return None;
            },
        };
        if vals.len() != 8 {
            return None;
        }
        proof {
            assert forall|t: int| 0 <= t < 8 implies val_at(vals@, Seq::empty(), t)
                == vals@[t] by {}
        }
        Some(
            Ipv6Addr {
                g0: vals[0],
                g1: vals[1],
                g2: vals[2],
                g3: vals[3],
                g4: vals[4],
                g5: vals[5],
                g6: vals[6],
                g7: vals[7],
            },
        )
    } else {
        proof {
            lemma_find_dd_at(s@, i as int);
        }
        let left = s.substring_char(0, i);
        let right = s.substring_char(i + 2, n);
        proof {
            assert(left@ =~= s@.take(i as int));
            assert(right@ =~= s@.skip(i as int + 2));
        }
        let lg: Vec<String> = if left.unicode_len() == 0 {
            Vec::new()
        } else {
            split_on(left, ':')
        };
        let rg: Vec<String> = if right.unicode_len() == 0 {
            Vec::new()
        } else {
            split_on(right, ':')
        };
        proof {
            if left@.len() == 0 {
                assert(lg.deep_view() =~= Seq::<Seq<char>>::empty());
            }
            if right@.len() == 0 {
                assert(rg.deep_view() =~= Seq::<Seq<char>>::empty());
            }
        }
        let lv = match parse_group_run(&lg, 0, lg.len()) {
            Some(v) => v,
            None => {
                proof {
                    assert(lg.deep_view().subrange(0, lg@.len() as int) =~= lg.deep_view());
                }
                return None;
            },
        };
        let rv = match parse_tail_run(&rg) {
            Some(v) => v,
            None => {
                proof {
                    assert(lg.deep_view().subrange(0, lg@.len() as int) =~= lg.deep_view());
                }
                return None;
            },
        };
        if lv.len() > 7 || rv.len() > 7 || lv.len() + rv.len() > 7 {
            proof {
                assert(lg.deep_view().subrange(0, lg@.len() as int) =~= lg.deep_view());
                assert(lv@.len() == lg.deep_view().len());
            }
            return None;
        }
        proof {
            assert(lg.deep_view().subrange(0, lg@.len() as int) =~= lg.deep_view());
            assert(lv@ =~= hex_vals(lg.deep_view()));
            assert(lv@.len() == lg.deep_view().len());
            assert forall|t: int| 0 <= t < 8 implies (if t < lv@.len() {
                lv@[t]
            } else if t >= 8 - rv@.len() {
                rv@[t - (8 - rv@.len())]
            } else {
                0u16
            }) == val_at(lv@, rv@, t) by {}
        }
        let out = Ipv6Addr {
            g0: pick_group(&lv, &rv, 0),
            g1: pick_group(&lv, &rv, 1),
            g2: pick_group(&lv, &rv, 2),
            g3: pick_group(&lv, &rv, 3),
            g4: pick_group(&lv, &rv, 4),
            g5: pick_group(&lv, &rv, 5),
            g6: pick_group(&lv, &rv, 6),
            g7: pick_group(&lv, &rv, 7),
        };
        Some(out)
    }
}

/// The position of the first occurrence of `c` in `s`, or its length.
pub open spec fn find_in<A>(s: Seq<A>, c: A) -> int
    decreases s.len(),
{
    if s.len() == 0 {
        0
    } else if s[0] == c {
        0
    } else {
        1 + find_in(s.skip(1), c)
    }
}

pub proof fn lemma_find_in_at<A>(s: Seq<A>, c: A, p: int)
    requires
        0 <= p < s.len(),
        s[p] == c,
        forall|t: int| 0 <= t < p ==> #[trigger] s[t] != c,
    ensures
        find_in(s, c) == p,
    decreases p,
{
    if p > 0 {
        lemma_find_in_at(s.skip(1), c, p - 1);
    }
}

pub proof fn lemma_find_in_none<A>(s: Seq<A>, c: A)
    requires
        forall|t: int| 0 <= t < s.len() ==> #[trigger] s[t] != c,
    ensures
        find_in(s, c) == s.len(),
    decreases s.len(),
{
    if s.len() > 0 {
        lemma_find_in_none(s.skip(1), c);
    }
}

/// The position of the first occurrence of `c` in `s`, or its length.
pub fn find_char(s: &str, c: char) -> (j: usize)
    ensures
        j == find_in(s@, c),
        j <= s@.len(),
        j < s@.len() ==> s@[j as int] == c,
        forall|t: int| 0 <= t < j ==> #[trigger] s@[t] != c,
{
    let n = s.unicode_len();
    let mut j: usize = 0;
    while j < n && s.get_char(j) != c
        invariant
            n == s@.len(),
            j <= n,
            forall|t: int| 0 <= t < j ==> #[trigger] s@[t] != c,
        decreases n - j,
    {
        j += 1;
    }
    proof {
        if j < n {
            lemma_find_in_at(s@, c, j as int);
        } else {
            lemma_find_in_none(s@, c);
        }
    }
    j
}

/// The socket address a string denotes, if any: a version-four address, a
/// colon and a port, or a bracketed version-six address, a colon and a port.
pub open spec fn sock_of(s: Seq<char>) -> Option<SocketAddress> {
    if s.len() >= 1 && s[0] == '[' {
        let j = find_in(s, ']');
        if j + 1 < s.len() && s[j + 1] == ':' && ipv6_of(s.subrange(1, j)) is Some && is_port_text(
            s.skip(j + 2),
        ) {
            Some(
                SocketAddress {
                    ip: IpAddress::V6(ipv6_of(s.subrange(1, j))->0),
                    port: digits_val(s.skip(j + 2)) as u16,
                },
            )
        } else {
            None
        }
    } else {
        let ps = split_of(s, ':');
        if ps.len() == 2 && ipv4_of(ps[0]) is Some && is_port_text(ps[1]) {
            Some(
                SocketAddress { ip: IpAddress::V4(ipv4_of(ps[0])->0), port: digits_val(ps[1]) as u16 },
            )
        } else {
            None
        }
    }
}

/// Parse a socket address.
pub fn parse_socket_addr(s: &str) -> (r: Option<SocketAddress>)
    ensures
        r == sock_of(s@),
{
    let n = s.unicode_len();
    if n >= 1 && s.get_char(0) == '[' {
        // find the closing bracket
        let mut j: usize = 0;
        while j < n && s.get_char(j) != ']'
            invariant
                n == s@.len(),
                j <= n,
                forall|t: int| 0 <= t < j ==> #[trigger] s@[t] != ']',
            decreases n - j,
        {
            j += 1;
        }
        proof {
            if j < n {
                lemma_find_in_at(s@, ']', j as int);
            } else {
                lemma_find_in_none(s@, ']');
            }
        }
        if j >= n || j + 1 >= n {
            return None;
        }
        if s.get_char(j + 1) != ':' {
            return None;
        }
        let inner = s.substring_char(1, j);
        let ip = match parse_ipv6(inner) {
            Some(v) => v,
            None => {
                proof {
                    assert(inner@ =~= s@.subrange(1, j as int));
                }
                return None;
            },
        };
        let ptext = s.substring_char(j + 2, n);
        let port = match parse_port(ptext) {
            Some(v) => v,
            None => {
                proof {
                    assert(ptext@ =~= s@.skip(j as int + 2));
                }
                return None;
            },
        };
        proof {
            assert(inner@ =~= s@.subrange(1, j as int));
            assert(ptext@ =~= s@.skip(j as int + 2));
        }
        Some(SocketAddress { ip: IpAddress::V6(ip), port })
    } else {
        let ps = split_on(s, ':');
        if ps.len() != 2 {
            return None;
        }
        proof {
            assert(ps.deep_view()[0] == ps@[0]@);
            assert(ps.deep_view()[1] == ps@[1]@);
        }
        let ip = match parse_ipv4(ps[0].as_str()) {
            Some(v) => v,
            None => {
                return None;
            },
        };
        let port = match parse_port(ps[1].as_str()) {
            Some(v) => v,
            None => {
                return None;
            },
        };
        Some(SocketAddress { ip: IpAddress::V4(ip), port })
    }
}

/// Parse an address without a port, of either version.
pub fn parse_ip(s: &str) -> (r: Option<IpAddress>)
    ensures
        r == ip_of(s@),
{
    match parse_ipv4(s) {
        Some(v) => Some(IpAddress::V4(v)),
        None => match parse_ipv6(s) {
            Some(v) => Some(IpAddress::V6(v)),
            None => None,
        },
    }
}

/// The address a string denotes, if any; the version-four reading wins.
pub open spec fn ip_of(s: Seq<char>) -> Option<IpAddress> {
    if ipv4_of(s) is Some {
        Some(IpAddress::V4(ipv4_of(s)->0))
    } else if ipv6_of(s) is Some {
        Some(IpAddress::V6(ipv6_of(s)->0))
    } else {
        None
    }
}

/// The lowercase hexadecimal digit character for a value below sixteen.
pub open spec fn hex_digit_char(d: nat) -> char {
    if d < 10 {
        crate::text::digit_char(d)
    } else if d == 10 {
        'a'
    } else if d == 11 {
        'b'
    } else if d == 12 {
        'c'
    } else if d == 13 {
        'd'
    } else if d == 14 {
        'e'
    } else {
        'f'
    }
}

/// The shortest lowercase hexadecimal digit string for a number.
pub open spec fn hex_numeral_of(n: nat) -> Seq<char>
    decreases n,
{
    if n < 16 {
        seq![hex_digit_char(n)]
    } else {
        hex_numeral_of(n / 16).push(hex_digit_char(n % 16))
    }
}

/// Write a sixteen-bit group in lowercase hexadecimal, shortest form.
pub fn format_hex16(n: u16) -> (r: String)
    ensures
        r@ == hex_numeral_of(n as nat),
    decreases n,
{
    proof {
        reveal_strlit("0123456789abcdef");
    }
    let digits: &str = "0123456789abcdef";
    if n < 16 {
        let piece = digits.substring_char(n as usize, n as usize + 1);
        assert(piece@ =~= seq![hex_digit_char(n as nat)]);
        piece.to_owned()
    } else {
        let mut front = format_hex16(n / 16);
        let d = (n % 16) as usize;
        let piece = digits.substring_char(d, d + 1);
        assert(piece@ =~= seq![hex_digit_char((n % 16) as nat)]);
        front.append(piece);
        assert(front@ =~= hex_numeral_of(n as nat));
        front
    }
}

/// The text of a version-four address: the octets in decimal, joined by dots.
pub open spec fn v4_text(ip: Ipv4Addr) -> Seq<char> {
    crate::text::numeral_of(ip.a as nat) + seq!['.'] + crate::text::numeral_of(ip.b as nat)
        + seq!['.'] + crate::text::numeral_of(ip.c as nat) + seq!['.'] + crate::text::numeral_of(
        ip.d as nat,
    )
}

/// The text of a version-six address: all eight groups in shortest lowercase
/// hexadecimal, joined by colons, written out without a `::` shorthand.
pub open spec fn v6_text(ip: Ipv6Addr) -> Seq<char> {
    hex_numeral_of(ip.g0 as nat) + seq![':'] + hex_numeral_of(ip.g1 as nat) + seq![':']
        + hex_numeral_of(ip.g2 as nat) + seq![':'] + hex_numeral_of(ip.g3 as nat) + seq![':']
        + hex_numeral_of(ip.g4 as nat) + seq![':'] + hex_numeral_of(ip.g5 as nat) + seq![':']
        + hex_numeral_of(ip.g6 as nat) + seq![':'] + hex_numeral_of(ip.g7 as nat)
}

/// The text of a socket address; a version-six address stands in brackets.
pub open spec fn sock_text(a: SocketAddress) -> Seq<char> {
    match a.ip {
        IpAddress::V4(ip) => v4_text(ip) + seq![':'] + crate::text::numeral_of(a.port as nat),
        IpAddress::V6(ip) => seq!['['] + v6_text(ip) + seq![']', ':'] + crate::text::numeral_of(
            a.port as nat,
        ),
    }
}

/// Write a socket address in the form its grammar reads back.
#[verifier::rlimit(60)]
pub fn format_socket_addr(a: &SocketAddress) -> (r: String)
    ensures
        r@ == sock_text(*a),
{
    proof {
        reveal_strlit(".");
        reveal_strlit(":");
        reveal_strlit("[");
        reveal_strlit("]:");
    }
    match &a.ip {
        IpAddress::V4(ip) => {
            let mut out = crate::text::format_usize(ip.a as usize);
            out.append(".");
            let b = crate::text::format_usize(ip.b as usize);
            out.append(b.as_str());
            out.append(".");
            let c = crate::text::format_usize(ip.c as usize);
            out.append(c.as_str());
            out.append(".");
            let d = crate::text::format_usize(ip.d as usize);
            out.append(d.as_str());
            out.append(":");
            let p = crate::text::format_usize(a.port as usize);
            out.append(p.as_str());
            assert(out@ =~= sock_text(*a));
            out
        },
        IpAddress::V6(ip) => {
            let mut out = String::new();
            out.append("[");
            let g0 = format_hex16(ip.g0);
            out.append(g0.as_str());
            out.append(":");
            let g1 = format_hex16(ip.g1);
            out.append(g1.as_str());
            out.append(":");
            let g2 = format_hex16(ip.g2);
            out.append(g2.as_str());
            out.append(":");
            let g3 = format_hex16(ip.g3);
            out.append(g3.as_str());
            out.append(":");
            let g4 = format_hex16(ip.g4);
            out.append(g4.as_str());
            out.append(":");
            let g5 = format_hex16(ip.g5);
            out.append(g5.as_str());
            out.append(":");
            let g6 = format_hex16(ip.g6);
            out.append(g6.as_str());
            out.append(":");
            let g7 = format_hex16(ip.g7);
            out.append(g7.as_str());
            out.append("]:");
            let p = crate::text::format_usize(a.port as usize);
            out.append(p.as_str());
            assert(out@ =~= sock_text(*a));
            out
        },
    }
}

} // verus!
