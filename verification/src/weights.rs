//! Weight normalization and the weighted round-robin index schedule.

use vstd::prelude::*;

verus! {

/// Greatest common divisor by Euclid's algorithm; `gcd(a, 0) == a`.
pub open spec fn gcd(a: nat, b: nat) -> nat
    decreases b,
{
    if b == 0 {
        a
    } else {
        gcd(b, a % b)
    }
}

/// `d` divides `n`.
pub open spec fn divides(d: nat, n: nat) -> bool {
    exists|k: nat| n == #[trigger] (k * d)
}

proof fn lemma_divides_mul(d: nat, c: nat, n: nat)
    requires
        divides(d, n),
    ensures
        divides(d, c * n),
{
    let k = choose|k: nat| n == #[trigger] (k * d);
    assert(c * n == (c * k) * d) by (nonlinear_arith)
        requires
            n == k * d,
    ;
}

proof fn lemma_divides_add(d: nat, a: nat, b: nat)
    requires
        divides(d, a),
        divides(d, b),
    ensures
        divides(d, a + b),
{
    let ka = choose|k: nat| a == #[trigger] (k * d);
    let kb = choose|k: nat| b == #[trigger] (k * d);
    assert(a + b == (ka + kb) * d) by (nonlinear_arith)
        requires
            a == ka * d,
            b == kb * d,
    ;
}

proof fn lemma_divides_sub(d: nat, a: nat, b: nat)
    requires
        d > 0,
        divides(d, a + b),
        divides(d, b),
    ensures
        divides(d, a),
{
    let ks = choose|k: nat| a + b == #[trigger] (k * d);
    let kb = choose|k: nat| b == #[trigger] (k * d);
    assert(ks * d >= kb * d) by (nonlinear_arith)
        requires
            a + b == ks * d,
            b == kb * d,
    ;
    assert(ks >= kb) by (nonlinear_arith)
        requires
            ks * d >= kb * d,
            d > 0,
    ;
    assert(a == (ks - kb) * d) by (nonlinear_arith)
        requires
            a + b == ks * d,
            b == kb * d,
            ks >= kb,
    ;
    assert(a == ((ks - kb) as nat) * d);
}

/// `n % d == 0` says the same as `divides` when `d` is positive.
proof fn lemma_divides_iff_mod(d: nat, n: nat)
    requires
        d > 0,
    ensures
        divides(d, n) <==> n % d == 0,
{
    if n % d == 0 {
        vstd::arithmetic::div_mod::lemma_fundamental_div_mod(n as int, d as int);
        assert(n == (n / d) * d + n % d);
        assert(n == (n as int / d as int) * d);
        assert(n == (n / d) as nat * d);
    }
    if divides(d, n) {
        let k = choose|k: nat| n == #[trigger] (k * d);
        vstd::arithmetic::div_mod::lemma_mod_multiples_basic(k as int, d as int);
        assert((k as int * d as int) % (d as int) == 0);
    }
}

/// The gcd divides both of its arguments.
proof fn lemma_gcd_divides(a: nat, b: nat)
    ensures
        divides(gcd(a, b), a),
        divides(gcd(a, b), b),
    decreases b,
{
    if b == 0 {
        assert(a == 1 * gcd(a, 0));
        assert(0 == 0 * gcd(a, 0));
    } else {
        lemma_gcd_divides(b, a % b);
        let g = gcd(b, a % b);
        vstd::arithmetic::div_mod::lemma_fundamental_div_mod(a as int, b as int);
        assert(a == (a / b) * b + a % b);
        lemma_divides_mul(g, a / b, b);
        lemma_divides_add(g, (a / b) * b, a % b);
    }
}

/// Every common divisor of `a` and `b` divides their gcd.
proof fn lemma_gcd_greatest(a: nat, b: nat, k: nat)
    requires
        divides(k, a),
        divides(k, b),
    ensures
        divides(k, gcd(a, b)),
    decreases b,
{
    if b == 0 {
    } else {
        vstd::arithmetic::div_mod::lemma_fundamental_div_mod(a as int, b as int);
        assert(a == (a / b) * b + a % b);
        lemma_divides_le(k, b);
        lemma_divides_mul(k, a / b, b);
        lemma_divides_sub(k, (a % b) as nat, (a / b) * b);
        lemma_gcd_greatest(b, a % b, k);
    }
}

/// A positive divisor of a positive number is no larger than it.
proof fn lemma_divides_le(d: nat, n: nat)
    requires
        divides(d, n),
        n > 0,
    ensures
        d <= n,
        d > 0,
{
    let k = choose|k: nat| n == #[trigger] (k * d);
    assert(k >= 1 && d >= 1 && k * d >= d) by (nonlinear_arith)
        requires
            n == k * d,
            n > 0,
    ;
}

proof fn lemma_divides_trans(a: nat, b: nat, c: nat)
    requires
        divides(a, b),
        divides(b, c),
    ensures
        divides(a, c),
{
    let k1 = choose|k: nat| b == #[trigger] (k * a);
    let k2 = choose|k: nat| c == #[trigger] (k * b);
    assert(c == (k2 * k1) * a) by (nonlinear_arith)
        requires
            b == k1 * a,
            c == k2 * b,
    ;
}

proof fn lemma_divides_zero_only(n: nat)
    requires
        divides(0, n),
    ensures
        n == 0,
{
    let k = choose|k: nat| n == #[trigger] (k * 0);
    assert(k * 0 == 0) by (nonlinear_arith);
}

/// Gcd of a whole weight vector; zero entries are neutral, since `gcd(x, 0) == x`.
pub open spec fn seq_gcd(w: Seq<usize>) -> nat
    decreases w.len(),
{
    if w.len() == 0 {
        0
    } else {
        gcd(seq_gcd(w.drop_last()), w.last() as nat)
    }
}

proof fn lemma_seq_gcd_divides_all(w: Seq<usize>)
    ensures
        forall|i: int| 0 <= i < w.len() ==> divides(seq_gcd(w), #[trigger] w[i] as nat),
    decreases w.len(),
{
    if w.len() > 0 {
        lemma_seq_gcd_divides_all(w.drop_last());
        lemma_gcd_divides(seq_gcd(w.drop_last()), w.last() as nat);
        assert forall|i: int| 0 <= i < w.len() implies divides(
            seq_gcd(w),
            #[trigger] w[i] as nat,
        ) by {
            if i < w.len() - 1 {
                assert(divides(seq_gcd(w.drop_last()), w.drop_last()[i] as nat));
                lemma_divides_trans(seq_gcd(w), seq_gcd(w.drop_last()), w[i] as nat);
            }
        }
    }
}

proof fn lemma_seq_gcd_greatest(w: Seq<usize>, k: nat)
    requires
        forall|i: int| 0 <= i < w.len() ==> divides(k, #[trigger] w[i] as nat),
    ensures
        w.len() > 0 ==> divides(k, seq_gcd(w)),
    decreases w.len(),
{
    if w.len() > 0 {
        if w.len() == 1 {
            assert(0nat == 0 * k);
            assert(divides(k, seq_gcd(w.drop_last())));
        } else {
            assert(forall|i: int|
                0 <= i < w.drop_last().len() ==> divides(k, #[trigger] w.drop_last()[i] as nat));
            lemma_seq_gcd_greatest(w.drop_last(), k);
        }
        lemma_gcd_greatest(seq_gcd(w.drop_last()), w.last() as nat, k);
    }
}

/// Common divisor of two numbers, by the same recursion as `gcd`;
/// `co_divisor(a, 0) == a`.
pub fn co_divisor(a: usize, b: usize) -> (r: usize)
    ensures
        r == gcd(a as nat, b as nat),
    decreases b,
{
    if b == 0 {
        return a;
    }
    let c = a % b;
    if c == 0 {
        assert(gcd(a as nat, b as nat) == gcd(b as nat, 0));
        b
    } else {
        co_divisor(b, c)
    }
}

/// Every two neighbouring weights share a factor greater than one.
pub open spec fn adjacent_linked(w: Seq<usize>) -> bool {
    forall|i: int| 0 <= i && i + 1 < w.len() ==> gcd(#[trigger] w[i] as nat, w[i + 1] as nat) > 1
}

pub open spec fn min2(a: nat, b: nat) -> nat {
    if a <= b {
        a
    } else {
        b
    }
}

/// The smallest factor that any two neighbouring weights share.
pub open spec fn min_adj_gcd(w: Seq<usize>) -> nat
    decreases w.len(),
{
    if w.len() < 2 {
        0
    } else if w.len() == 2 {
        gcd(w[0] as nat, w[1] as nat)
    } else {
        min2(min_adj_gcd(w.drop_last()), gcd(w[w.len() - 2] as nat, w[w.len() - 1] as nat))
    }
}

proof fn lemma_min_adj_bounds(w: Seq<usize>)
    requires
        w.len() >= 2,
    ensures
        exists|j: int|
            0 <= j && j + 1 < w.len() && min_adj_gcd(w) == gcd(
                #[trigger] w[j] as nat,
                w[j + 1] as nat,
            ),
        forall|j: int|
            0 <= j && j + 1 < w.len() ==> min_adj_gcd(w) <= gcd(
                #[trigger] w[j] as nat,
                w[j + 1] as nat,
            ),
    decreases w.len(),
{
    if w.len() == 2 {
        let z: int = 0;
        assert(min_adj_gcd(w) == gcd(w[z] as nat, w[z + 1] as nat));
    } else {
        lemma_min_adj_bounds(w.drop_last());
        assert(forall|t: int|
            0 <= t < w.drop_last().len() ==> #[trigger] w.drop_last()[t] == w[t]);
        let jd = choose|j: int|
            0 <= j && j + 1 < w.drop_last().len() && min_adj_gcd(w.drop_last()) == gcd(
                #[trigger] w.drop_last()[j] as nat,
                w.drop_last()[j + 1] as nat,
            );
        if min_adj_gcd(w.drop_last()) <= gcd(w[w.len() - 2] as nat, w[w.len() - 1] as nat) {
            assert(min_adj_gcd(w) == gcd(w[jd] as nat, w[jd + 1] as nat));
        } else {
            assert(min_adj_gcd(w) == gcd(w[w.len() - 2] as nat, w[w.len() - 2 + 1] as nat));
        }
        assert forall|j: int| 0 <= j && j + 1 < w.len() implies min_adj_gcd(w) <= gcd(
            #[trigger] w[j] as nat,
            w[j + 1] as nat,
        ) by {
            if j + 1 < w.len() - 1 {
                assert(w.drop_last()[j] == w[j] && w.drop_last()[j + 1] == w[j + 1]);
                assert(min_adj_gcd(w.drop_last()) <= gcd(
                    w.drop_last()[j] as nat,
                    w.drop_last()[j + 1] as nat,
                ));
            }
        }
    }
}

/// The smallest neighbouring factor divides every weight.
#[verifier::opaque]
pub open spec fn min_fits(w: Seq<usize>) -> bool {
    forall|j: int| 0 <= j < w.len() ==> #[trigger] w[j] as nat % min_adj_gcd(w) == 0
}

/// The factor that normalization takes out of a weight vector: the smallest
/// factor shared by any two neighbours, when every neighbouring pair shares
/// a factor and that smallest one divides every weight; one otherwise.
pub open spec fn divide_divisor(w: Seq<usize>) -> nat {
    if w.len() >= 2 && adjacent_linked(w) && min_fits(w) {
        min_adj_gcd(w)
    } else {
        1
    }
}

/// What a weight vector becomes under `divide`.
pub open spec fn divided(w: Seq<usize>) -> Seq<usize> {
    w.map(|i: int, x: usize| (x as nat / divide_divisor(w)) as usize)
}

fn all_divisible(v: &Vec<usize>, d: usize) -> (r: bool)
    requires
        d >= 1,
    ensures
        r == forall|j: int| 0 <= j < v@.len() ==> #[trigger] v@[j] as nat % d as nat == 0,
{
    let mut j: usize = 0;
    while j < v.len()
        invariant
            d >= 1,
            j <= v@.len(),
            forall|t: int| 0 <= t < j ==> #[trigger] v@[t] as nat % d as nat == 0,
        decreases v@.len() - j,
    {
        if v[j] % d != 0 {
            return false;
        }
        j += 1;
    }
    true
}

/// Normalize a weight vector: when every neighbouring pair of weights
/// shares a factor greater than one and the smallest such factor divides
/// every weight, divide every weight by it; otherwise leave the vector
/// unchanged.
pub fn divide(v: &mut Vec<usize>)
    ensures
        final (v)@ == divided(old(v)@),
{
    let ghost w = v@;
    let mut d: usize = 1;
    let mut i: usize = 0;
    let mut broke: bool = false;
    while !broke && v.len() >= 2 && i < v.len() - 1
        invariant
            v@ == w,
            i + 1 <= w.len() || i == 0,
            !broke ==> forall|j: int|
                0 <= j && j + 1 <= i ==> gcd(#[trigger] w[j] as nat, w[j + 1] as nat) > 1,
            !broke && i == 0 ==> d == 1,
            !broke && i > 0 ==> d >= 2 && d as nat == min_adj_gcd(w.take(i + 1)),
            broke ==> d == 1 && !adjacent_linked(w),
        decreases w.len() - i, (if broke {
            0int
        } else {
            1int
        }),
    {
        let g = co_divisor(v[i], v[i + 1]);
        if g <= 1 {
            d = 1;
            broke = true;
        } else {
            proof {
                if i > 0 {
                    assert(w.take(i + 2).drop_last() =~= w.take(i + 1));
                    assert(w.take(i + 2)[i + 2 - 2] == w[i as int]);
                    assert(w.take(i + 2)[i + 2 - 1] == w[i + 1]);
                } else {
                    assert(w.take(2)[0] == w[0] && w.take(2)[1] == w[1]);
                }
            }
            if d <= 1 || g < d {
                d = g;
            }
            i += 1;
        }
    }
    let ghost g0 = divide_divisor(w);
    proof {
        if w.len() >= 2 && !broke {
            assert(i == w.len() - 1);
            assert(adjacent_linked(w));
            assert(w.take(i + 1) =~= w);
            assert(d as nat == min_adj_gcd(w));
        }
        if broke || w.len() < 2 {
            assert(g0 == 1);
        }
    }
    if d > 1 {
        if all_divisible(v, d) {
            proof {
                reveal(min_fits);
                assert(min_fits(w));
                assert(g0 == d);
            }
            let mut j: usize = 0;
            while j < v.len()
                invariant
                    d as nat == g0,
                    d >= 1,
                    v@.len() == w.len(),
                    forall|t: int| 0 <= t < j ==> v@[t] as nat == #[trigger] w[t] as nat / g0,
                    forall|t: int| j <= t < w.len() ==> #[trigger] v@[t] == w[t],
                decreases v@.len() - j,
            {
                let x = v[j] / d;
                v.set(j, x);
                j += 1;
            }
            assert(v@ =~= divided(w));
            return ;
        }
        proof {
            reveal(min_fits);
            assert(!min_fits(w));
            assert(g0 == 1);
        }
    }
    proof {
        assert(g0 == 1);
        assert(v@ =~= divided(w)) by {
            assert(forall|t: int| 0 <= t < w.len() ==> #[trigger] w[t] as nat / 1 == w[t] as nat);
        }
    }
}

/// After `divide`, the weights have no common factor left: the gcd of the
/// result is one, and every new entry is the old one divided by one and the
/// same positive factor, which divides every old entry. Since `gcd(x, 0) == x`,
/// zero entries neither contribute to nor disturb the gcd, so the gcd of the
/// result equals the gcd of its positive entries.
///
/// The law asks that no two neighbouring weights are both zero, and that the
/// smallest factor shared by a neighbouring pair divides every weight
/// whenever all pairs share factors: normalization stops at the first
/// unlinked pair, and refuses a smallest shared factor that does not divide
/// the whole vector, so a vector of two zeros between positive multiples of
/// four, or one whose ends share only factors missing from the middle,
/// keeps its common factor.
proof fn lemma_scaled_gcd_one(w: Seq<usize>, g0: nat, r: Seq<usize>, i0: int)
    requires
        g0 >= 2,
        0 <= i0 < w.len(),
        w[i0] > 0,
        r.len() == w.len(),
        forall|i: int|
            0 <= i < w.len() ==> divides(g0, #[trigger] w[i] as nat) && r[i] as nat == w[i] as nat
                / g0,
        seq_gcd(w) == g0,
    ensures
        seq_gcd(r) == 1,
{
    let s = seq_gcd(r);
    lemma_seq_gcd_divides_all(r);
    assert forall|i: int| 0 <= i < w.len() implies divides(s * g0, #[trigger] w[i] as nat) by {
        let q = choose|k: nat| w[i] as nat == #[trigger] (k * g0);
        vstd::arithmetic::div_mod::lemma_div_by_multiple(q as int, g0 as int);
        assert(w[i] as nat / g0 == q);
        assert(divides(s, r[i] as nat));
        let k = choose|k: nat| r[i] as nat == #[trigger] (k * s);
        assert(w[i] as nat == (k * s) * g0) by (nonlinear_arith)
            requires
                w[i] as nat == q * g0,
                q == k * s,
        ;
        assert(w[i] as nat == k * (s * g0)) by (nonlinear_arith)
            requires
                w[i] as nat == (k * s) * g0,
        ;
    }
    lemma_seq_gcd_greatest(w, s * g0);
    assert(divides(s * g0, g0));
    lemma_divides_le(s * g0, g0);
    assert(s <= 1) by (nonlinear_arith)
        requires
            s * g0 <= g0,
            g0 >= 1,
    ;
    // a gcd of zero would make the positive entry divide down to zero
    if s == 0 {
        lemma_divides_zero_only(r[i0] as nat);
        let q = choose|k: nat| w[i0] as nat == #[trigger] (k * g0);
        vstd::arithmetic::div_mod::lemma_div_by_multiple(q as int, g0 as int);
        assert(q == 0 ==> w[i0] as nat == 0 * g0);
        assert(false);
    }
}

#[verifier::rlimit(100)]
proof fn lemma_divisor_linked(w: Seq<usize>)
    requires
        w.len() >= 2,
        adjacent_linked(w),
        min_fits(w),
    ensures
        divide_divisor(w) == min_adj_gcd(w),
        min_adj_gcd(w) > 1,
        seq_gcd(w) == min_adj_gcd(w),
{
    let g0 = min_adj_gcd(w);
    lemma_seq_gcd_divides_all(w);
    // the divisor is the smallest neighbouring factor; since it divides
    // everything, it is the gcd of the vector
    lemma_min_adj_bounds(w);
    let j0 = choose|j: int|
        0 <= j && j + 1 < w.len() && min_adj_gcd(w) == gcd(
            #[trigger] w[j] as nat,
            w[j + 1] as nat,
        );
    assert(g0 > 1);
    assert forall|i: int| 0 <= i < w.len() implies divides(g0, #[trigger] w[i] as nat) by {
        reveal(min_fits);
        lemma_divides_iff_mod(g0, w[i] as nat);
    }
    lemma_seq_gcd_greatest(w, g0);
    lemma_gcd_greatest(w[j0] as nat, w[j0 + 1] as nat, seq_gcd(w));
    assert(divides(seq_gcd(w), g0));
    assert(divides(g0, seq_gcd(w)));
    lemma_divides_le(seq_gcd(w), g0);
    lemma_divides_le(g0, seq_gcd(w));
}

proof fn lemma_coprime_unlinked(w: Seq<usize>, i0: int)
    requires
        w.len() >= 2,
        0 <= i0 < w.len(),
        w[i0] > 0,
        !adjacent_linked(w),
        forall|i: int| 0 <= i && i + 1 < w.len() ==> (w[i] > 0 || #[trigger] w[i + 1] > 0),
    ensures
        divide_divisor(w) == 1,
        forall|i: int| 0 <= i < w.len() ==> divides(divide_divisor(w), #[trigger] w[i] as nat)
            && divided(w)[i] as nat == w[i] as nat / divide_divisor(w),
        seq_gcd(divided(w)) == 1,
{
    let g0 = divide_divisor(w);
    let r = divided(w);
    lemma_seq_gcd_divides_all(w);
    // some neighbouring pair is coprime, so the whole vector already is
    let i = choose|i: int|
        0 <= i && i + 1 < w.len() && gcd(#[trigger] w[i] as nat, w[i + 1] as nat) <= 1;
    lemma_gcd_divides(w[i] as nat, w[i + 1] as nat);
    if gcd(w[i] as nat, w[i + 1] as nat) == 0 {
        lemma_divides_zero_only(w[i] as nat);
        lemma_divides_zero_only(w[i + 1] as nat);
    }
    assert(gcd(w[i] as nat, w[i + 1] as nat) == 1);
    assert(g0 == 1);
    assert forall|t: int| 0 <= t < w.len() implies divides(g0, #[trigger] w[t] as nat)
        && r[t] as nat == w[t] as nat / g0 by {
        assert(w[t] as nat == w[t] as nat * 1);
    }
    assert(r =~= w) by {
        assert(forall|t: int| 0 <= t < w.len() ==> #[trigger] w[t] as nat / 1 == w[t] as nat);
    }
    let s = seq_gcd(w);
    lemma_gcd_greatest(w[i] as nat, w[i + 1] as nat, s);
    lemma_divides_le(s, 1nat);
    if s == 0 {
        lemma_divides_zero_only(w[i0] as nat);
    }
    assert(s == 1);
}

/// After `divide`, the weights have no common factor left: the gcd of the
/// result is one, and every new entry is the old one divided by one and the
/// same positive factor, which divides every old entry. Since `gcd(x, 0) == x`,
/// zero entries neither contribute to nor disturb the gcd, so the gcd of the
/// result equals the gcd of its positive entries.
///
/// The law asks that no two neighbouring weights are both zero, and that the
/// smallest factor shared by a neighbouring pair divides every weight
/// whenever all pairs share factors: normalization stops at the first
/// unlinked pair, and refuses a smallest shared factor that does not divide
/// the whole vector, so a vector of two zeros between positive multiples of
/// four, or one whose ends share only factors missing from the middle,
/// keeps its common factor.
pub proof fn divide_makes_coprime(w: Seq<usize>)
    requires
        w.len() >= 2,
        exists|i: int| 0 <= i < w.len() && w[i] > 0,
        forall|i: int| 0 <= i && i + 1 < w.len() ==> (w[i] > 0 || #[trigger] w[i + 1] > 0),
        adjacent_linked(w) ==> min_fits(w),
    ensures
        divide_divisor(w) >= 1,
        forall|i: int| 0 <= i < w.len() ==> divides(divide_divisor(w), #[trigger] w[i] as nat)
            && divided(w)[i] as nat == w[i] as nat / divide_divisor(w),
        seq_gcd(divided(w)) == 1,
{
    let i0 = choose|i: int| 0 <= i < w.len() && w[i] > 0;
    if adjacent_linked(w) {
        lemma_divisor_linked(w);
        let g0 = divide_divisor(w);
        assert forall|i: int| 0 <= i < w.len() implies divides(g0, #[trigger] w[i] as nat)
            && divided(w)[i] as nat == w[i] as nat / g0 by {
            reveal(min_fits);
            lemma_divides_iff_mod(g0, w[i] as nat);
        }
        lemma_scaled_gcd_one(w, g0, divided(w), i0);
    } else {
        lemma_coprime_unlinked(w, i0);
    }
}

/// The index schedule of a weight vector: index `i` appears `w[i]` times,
/// as one block per index, in input order.
pub open spec fn schedule_of(w: Seq<usize>) -> Seq<usize>
    decreases w.len(),
{
    if w.len() == 0 {
        Seq::empty()
    } else {
        schedule_of(w.drop_last()) + Seq::new(w.last() as nat, |j: int| (w.len() - 1) as usize)
    }
}

/// Sum of a weight vector.
pub open spec fn sum_of(w: Seq<usize>) -> nat
    decreases w.len(),
{
    if w.len() == 0 {
        0
    } else {
        sum_of(w.drop_last()) + w.last() as nat
    }
}

/// How many times `x` occurs in `s`.
pub open spec fn occurrences(s: Seq<usize>, x: usize) -> nat
    decreases s.len(),
{
    if s.len() == 0 {
        0
    } else {
        occurrences(s.drop_last(), x) + if s.last() == x {
            1nat
        } else {
            0nat
        }
    }
}

proof fn lemma_occurrences_add(s1: Seq<usize>, s2: Seq<usize>, x: usize)
    ensures
        occurrences(s1 + s2, x) == occurrences(s1, x) + occurrences(s2, x),
    decreases s2.len(),
{
    if s2.len() == 0 {
        assert(s1 + s2 =~= s1);
    } else {
        assert((s1 + s2).drop_last() =~= s1 + s2.drop_last());
        assert((s1 + s2).last() == s2.last());
        lemma_occurrences_add(s1, s2.drop_last(), x);
    }
}

proof fn lemma_occurrences_repeat(n: nat, v: usize, x: usize)
    ensures
        occurrences(Seq::new(n, |j: int| v), x) == if v == x {
            n
        } else {
            0nat
        },
    decreases n,
{
    if n > 0 {
        assert(Seq::new(n, |j: int| v).drop_last() =~= Seq::new((n - 1) as nat, |j: int| v));
        lemma_occurrences_repeat((n - 1) as nat, v, x);
    }
}

proof fn lemma_schedule_entries(w: Seq<usize>)
    ensures
        schedule_of(w).len() == sum_of(w),
        forall|j: int| 0 <= j < schedule_of(w).len() ==> #[trigger] schedule_of(w)[j] < w.len(),
    decreases w.len(),
{
    if w.len() > 0 {
        lemma_schedule_entries(w.drop_last());
    }
}

proof fn lemma_occurrences_out_of_range(w: Seq<usize>, x: usize)
    requires
        w.len() <= usize::MAX,
        x >= w.len(),
    ensures
        occurrences(schedule_of(w), x) == 0,
    decreases w.len(),
{
    if w.len() > 0 {
        lemma_occurrences_out_of_range(w.drop_last(), x);
        lemma_occurrences_add(
            schedule_of(w.drop_last()),
            Seq::new(w.last() as nat, |j: int| (w.len() - 1) as usize),
            x,
        );
        lemma_occurrences_repeat(w.last() as nat, (w.len() - 1) as usize, x);
    }
}

/// The schedule is exactly as long as the weights are heavy, every entry of it
/// indexes a target, and each index appears exactly its own weight's number of
/// times.
pub proof fn schedule_is_faithful(w: Seq<usize>)
    requires
        w.len() <= usize::MAX,
    ensures
        schedule_of(w).len() == sum_of(w),
        forall|j: int| 0 <= j < schedule_of(w).len() ==> #[trigger] schedule_of(w)[j] < w.len(),
        forall|t: usize| (t as int) < w.len() ==> occurrences(schedule_of(w), t) == w[t as int],
    decreases w.len(),
{
    lemma_schedule_entries(w);
    if w.len() > 0 {
        schedule_is_faithful(w.drop_last());
        assert forall|t: usize| (t as int) < w.len() implies occurrences(schedule_of(w), t)
            == w[t as int] by {
            lemma_occurrences_add(
                schedule_of(w.drop_last()),
                Seq::new(w.last() as nat, |j: int| (w.len() - 1) as usize),
                t,
            );
            lemma_occurrences_repeat(w.last() as nat, (w.len() - 1) as usize, t);
            if (t as int) < w.len() - 1 {
                assert(occurrences(schedule_of(w.drop_last()), t) == w.drop_last()[t as int]);
            } else {
                lemma_occurrences_out_of_range(w.drop_last(), t);
            }
        }
    }
}

/// Expand weights to the round-robin index schedule, one block per index.
pub fn get_index(v: Vec<usize>) -> (r: Vec<usize>)
    ensures
        r@ == schedule_of(v@),
{
    let mut r: Vec<usize> = Vec::new();
    let mut i: usize = 0;
    while i < v.len()
        invariant
            i <= v@.len(),
            r@ == schedule_of(v@.take(i as int)),
        decreases v@.len() - i,
    {
        let n = v[i];
        let mut j: usize = 0;
        while j < n
            invariant
                i < v@.len(),
                n == v@[i as int],
                j <= n,
                r@ == schedule_of(v@.take(i as int)) + Seq::new(j as nat, |t: int| i),
            decreases n - j,
        {
            r.push(i);
            assert(r@ =~= schedule_of(v@.take(i as int)) + Seq::new((j + 1) as nat, |t: int| i));
            j += 1;
        }
        proof {
            assert(v@.take(i + 1 as int).drop_last() =~= v@.take(i as int));
            assert(v@.take(i + 1 as int).last() == v@[i as int]);
            assert(r@ =~= schedule_of(v@.take(i + 1 as int)));
        }
        i += 1;
    }
    assert(v@.take(v@.len() as int) =~= v@);
    r
}

} // verus!
