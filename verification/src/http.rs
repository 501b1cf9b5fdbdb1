//! Just enough of the HTTP/1 request head to route by the `Host` header: the
//! request line's shape and the header lines, as byte strings.

use crate::addr::find_in;
use crate::addr::lemma_find_in_at;
use crate::addr::lemma_find_in_none;
use crate::text::split_of;
use vstd::prelude::*;
use vstd::slice::slice_subrange;
use vstd::slice::slice_to_vec;

verus! {

/// Horizontal whitespace inside a header line.
pub open spec fn ws_byte(b: u8) -> bool {
    b == 32 || b == 9
}

pub open spec fn ltrim(s: Seq<u8>) -> Seq<u8>
    decreases s.len(),
{
    if s.len() > 0 && ws_byte(s[0]) {
        ltrim(s.skip(1))
    } else {
        s
    }
}

pub open spec fn rtrim(s: Seq<u8>) -> Seq<u8>
    decreases s.len(),
{
    if s.len() > 0 && ws_byte(s.last()) {
        rtrim(s.drop_last())
    } else {
        s
    }
}

/// A header value with its surrounding spaces and tabs dropped.
pub open spec fn trim_ws(s: Seq<u8>) -> Seq<u8> {
    rtrim(ltrim(s))
}

/// A line with its trailing carriage return dropped.
pub open spec fn strip_cr(line: Seq<u8>) -> Seq<u8> {
    if line.len() > 0 && line.last() == 13 {
        line.drop_last()
    } else {
        line
    }
}

/// The lines of a request head: pieces between line feeds, each without its
/// trailing carriage return.
pub open spec fn lines_of(b: Seq<u8>) -> Seq<Seq<u8>> {
    split_of(b, 10).map_values(|l: Seq<u8>| strip_cr(l))
}

/// A request line: three nonempty space-separated parts, the method, the
/// target and the version.
pub open spec fn request_line_ok(line: Seq<u8>) -> bool {
    let ps = split_of(line, 32);
    ps.len() == 3 && ps[0].len() > 0 && ps[1].len() > 0 && ps[2].len() > 0
}

pub open spec fn lower_byte(b: u8) -> u8 {
    if 65 <= b && b <= 90 {
        (b + 32) as u8
    } else {
        b
    }
}

/// A header name that spells the host header, in any case.
pub open spec fn is_host_name(n: Seq<u8>) -> bool {
    n.len() == 4 && lower_byte(n[0]) == 104 && lower_byte(n[1]) == 111 && lower_byte(n[2]) == 115
        && lower_byte(n[3]) == 116
}

/// The host header's trimmed value among the header lines from `i` on,
/// searching until the head ends or a line without a colon stops the scan.
pub open spec fn host_in(lines: Seq<Seq<u8>>, i: int) -> Option<Seq<u8>>
    decreases lines.len() - i,
{
    if i < 0 || i >= lines.len() {
        None
    } else {
        let line = lines[i];
        if line.len() == 0 {
            None
        } else {
            let k = find_in(line, 58);
            if k >= line.len() {
                None
            } else if is_host_name(line.take(k)) {
                Some(trim_ws(line.skip(k + 1)))
            } else {
                host_in(lines, i + 1)
            }
        }
    }
}

/// The host a buffered request head names: present exactly when the request
/// line is well formed and a host header with a nonempty value follows.
pub open spec fn http_host(b: Seq<u8>) -> Option<Seq<u8>> {
    let ls = lines_of(b);
    if ls.len() == 0 || !request_line_ok(ls[0]) {
        None
    } else if host_in(ls, 1) is Some && host_in(ls, 1)->0.len() > 0 {
        Some(host_in(ls, 1)->0)
    } else {
        None
    }
}

/// The byte strings a vector of byte vectors holds.
pub open spec fn views_of(vs: Seq<Vec<u8>>) -> Seq<Seq<u8>> {
    vs.map_values(|v: Vec<u8>| v@)
}

/// Split a byte string at every occurrence of `sep`, keeping empty pieces.
pub fn split_bytes(v: &[u8], sep: u8) -> (r: Vec<Vec<u8>>)
    ensures
        views_of(r@) == split_of(v@, sep),
        r@.len() >= 1,
{
    let n = v.len();
    let mut r: Vec<Vec<u8>> = Vec::new();
    let mut i: usize = 0;
    loop
        invariant
            n == v@.len(),
            i <= n,
            i == 0 || v@[i as int - 1] == sep,
            split_of(v@.take(i as int), sep) =~= views_of(r@).push(Seq::<u8>::empty()),
        decreases n - i,
    {
        let mut j: usize = i;
        while j < n && *vstd::slice::slice_index_get(v, j) != sep
            invariant
                n == v@.len(),
                i <= j <= n,
                forall|t: int| i <= t < j ==> #[trigger] v@[t] != sep,
            decreases n - j,
        {
            j += 1;
        }
        let piece = slice_to_vec(slice_subrange(v, i, j));
        r.push(piece);
        proof {
            crate::text::lemma_split_grow(v@, sep, i as int, j as int);
            assert(views_of(r@) =~= split_of(v@.take(j as int), sep));
        }
        if j == n {
            proof {
                assert(v@.take(n as int) =~= v@);
            }
            return r;
        }
        proof {
            crate::text::lemma_split_step_sep(v@, sep, j as int);
            assert(split_of(v@.take(j as int + 1), sep) =~= views_of(r@).push(Seq::<u8>::empty()));
        }
        i = j + 1;
    }
}

fn find_byte(v: &[u8], c: u8) -> (j: usize)
    ensures
        j == find_in(v@, c),
        j <= v@.len(),
        j < v@.len() ==> v@[j as int] == c,
{
    let n = v.len();
    let mut j: usize = 0;
    while j < n && *vstd::slice::slice_index_get(v, j) != c
        invariant
            n == v@.len(),
            j <= n,
            forall|t: int| 0 <= t < j ==> #[trigger] v@[t] != c,
        decreases n - j,
    {
        j += 1;
    }
    proof {
        if j < n {
            lemma_find_in_at(v@, c, j as int);
        } else {
            lemma_find_in_none(v@, c);
        }
    }
    j
}

proof fn lemma_ltrim_at(s: Seq<u8>, k: int)
    requires
        0 <= k <= s.len(),
        forall|t: int| 0 <= t < k ==> ws_byte(#[trigger] s[t]),
        k == s.len() || !ws_byte(s[k]),
    ensures
        ltrim(s) == s.skip(k),
    decreases k,
{
    if k == 0 {
        assert(s.skip(0) =~= s);
    } else {
        assert(ws_byte(s[0]));
        lemma_ltrim_at(s.skip(1), k - 1);
        assert(s.skip(1).skip(k - 1) =~= s.skip(k));
    }
}

proof fn lemma_rtrim_at(s: Seq<u8>, k: int)
    requires
        0 <= k <= s.len(),
        forall|t: int| k <= t < s.len() ==> ws_byte(#[trigger] s[t]),
        k == 0 || !ws_byte(s[k - 1]),
    ensures
        rtrim(s) == s.take(k),
    decreases s.len() - k,
{
    if k == s.len() {
        assert(s.take(k) =~= s);
    } else {
        assert(ws_byte(s.last()));
        lemma_rtrim_at(s.drop_last(), k);
        assert(s.drop_last().take(k) =~= s.take(k));
    }
}

fn ws_at(v: &[u8], idx: usize) -> (r: bool)
    requires
        idx < v@.len(),
    ensures
        r == ws_byte(v@[idx as int]),
{
    let b = *vstd::slice::slice_index_get(v, idx);
    b == 32 || b == 9
}

fn trim_bytes(v: &[u8]) -> (r: Vec<u8>)
    ensures
        r@ == trim_ws(v@),
{
    let n = v.len();
    let mut a: usize = 0;
    while a < n && ws_at(v, a)
        invariant
            n == v@.len(),
            a <= n,
            forall|t: int| 0 <= t < a ==> ws_byte(#[trigger] v@[t]),
        decreases n - a,
    {
        a += 1;
    }
    let mut z: usize = n;
    while z > a && ws_at(v, z - 1)
        invariant
            a <= z <= n,
            n == v@.len(),
            forall|t: int| 0 <= t < a ==> ws_byte(#[trigger] v@[t]),
            forall|t: int| z <= t < n ==> ws_byte(#[trigger] v@[t]),
        decreases z,
    {
        z -= 1;
    }
    let r = slice_to_vec(slice_subrange(v, a, z));
    proof {
        lemma_ltrim_at(v@, a as int);
        lemma_rtrim_at(v@.skip(a as int), z - a);
        assert(v@.skip(a as int).take(z - a) =~= v@.subrange(a as int, z as int));
    }
    r
}

fn line_is_host(name: &[u8]) -> (r: bool)
    ensures
        r == is_host_name(name@),
{
    if name.len() != 4 {
        return false;
    }
    let n0 = *vstd::slice::slice_index_get(name, 0);
    let n1 = *vstd::slice::slice_index_get(name, 1);
    let n2 = *vstd::slice::slice_index_get(name, 2);
    let n3 = *vstd::slice::slice_index_get(name, 3);
    let l0 = if 65 <= n0 && n0 <= 90 {
        n0 + 32
    } else {
        n0
    };
    let l1 = if 65 <= n1 && n1 <= 90 {
        n1 + 32
    } else {
        n1
    };
    let l2 = if 65 <= n2 && n2 <= 90 {
        n2 + 32
    } else {
        n2
    };
    let l3 = if 65 <= n3 && n3 <= 90 {
        n3 + 32
    } else {
        n3
    };
    l0 == 104 && l1 == 111 && l2 == 115 && l3 == 116
}

fn request_line_check(line: &[u8]) -> (r: bool)
    ensures
        r == request_line_ok(line@),
{
    let ps = split_bytes(line, 32);
    if ps.len() != 3 {
        return false;
    }
    proof {
        assert(ps.deep_view()[0] == ps@[0]@);
        assert(ps.deep_view()[1] == ps@[1]@);
        assert(ps.deep_view()[2] == ps@[2]@);
    }
    ps[0].len() > 0 && ps[1].len() > 0 && ps[2].len() > 0
}

/// Extract the host header's value from a buffered request head.
pub fn parse_http_host(buf: &[u8]) -> (r: Option<Vec<u8>>)
    ensures
        r is Some <==> http_host(buf@) is Some,
        r matches Some(h) ==> Some(h@) == http_host(buf@),
{
    let pieces = split_bytes(buf, 10);
    let mut lines: Vec<Vec<u8>> = Vec::new();
    let mut i: usize = 0;
    while i < pieces.len()
        invariant
            i <= pieces@.len(),
            lines@.len() == i,
            views_of(pieces@) == split_of(buf@, 10),
            forall|t: int|
                0 <= t < i ==> #[trigger] lines@[t]@ == strip_cr(views_of(pieces@)[t]),
        decreases pieces@.len() - i,
    {
        let mut line = slice_to_vec(pieces[i].as_slice());
        if line.len() > 0 && line[line.len() - 1] == 13 {
            line.pop();
        }
        proof {
            assert(line@ =~= strip_cr(views_of(pieces@)[i as int]));
        }
        lines.push(line);
        i += 1;
    }
    proof {
        assert(views_of(lines@) =~= lines_of(buf@));
        assert(lines_of(buf@).len() >= 1);
    }
    if !request_line_check(lines[0].as_slice()) {
        return None;
    }
    let ghost ls = lines_of(buf@);
    let mut k: usize = 1;
    loop
        invariant
            1 <= k <= ls.len(),
            ls == views_of(lines@),
            ls == lines_of(buf@),
            ls.len() >= 1 && request_line_ok(ls[0]),
            host_in(ls, 1) == host_in(ls, k as int),
        decreases ls.len() - k,
    {
        if k >= lines.len() {
            return None;
        }
        let line = lines[k].as_slice();
        if line.len() == 0 {
            return None;
        }
        let c = find_byte(line, 58);
        if c >= line.len() {
            return None;
        }
        let name = slice_subrange(line, 0, c);
        if line_is_host(name) {
            let value = trim_bytes(slice_subrange(line, c + 1, line.len()));
            proof {
                assert(line@.skip(c as int + 1) =~= line@.subrange(
                    c as int + 1,
                    line@.len() as int,
                ));
            }
            if value.len() == 0 {
                return None;
            }
            return Some(value);
        }
        k += 1;
    }
}

} // verus!
