use vstd::arithmetic::div_mod::lemma_fundamental_div_mod;
use vstd::prelude::*;

use crate::helpers::seq_sum;

verus! {

/// `f(0) + ... + f(n - 1)`.
pub open spec fn sum_to(n: nat, f: spec_fn(int) -> nat) -> nat
    decreases n,
{
    if n == 0 {
        0
    } else {
        sum_to((n - 1) as nat, f) + f(n - 1)
    }
}

pub proof fn lemma_seq_sum_is_sum_to(n: nat, g: spec_fn(int) -> nat)
    ensures
        seq_sum(Seq::new(n, g)) == sum_to(n, g),
    decreases n,
{
    if n > 0 {
        assert(Seq::new(n, g).drop_last() =~= Seq::new((n - 1) as nat, g));
        lemma_seq_sum_is_sum_to((n - 1) as nat, g);
    }
}

pub proof fn lemma_sum_to_le(n: nat, f: spec_fn(int) -> nat, g: spec_fn(int) -> nat)
    requires
        forall|k: int| 0 <= k < n ==> #[trigger] f(k) <= g(k),
    ensures
        sum_to(n, f) <= sum_to(n, g),
    decreases n,
{
    if n > 0 {
        lemma_sum_to_le((n - 1) as nat, f, g);
    }
}

pub proof fn lemma_sum_to_ext(n: nat, f: spec_fn(int) -> nat, g: spec_fn(int) -> nat)
    requires
        forall|k: int| 0 <= k < n ==> #[trigger] f(k) == g(k),
    ensures
        sum_to(n, f) == sum_to(n, g),
{
    lemma_sum_to_le(n, f, g);
    lemma_sum_to_le(n, g, f);
}

pub proof fn lemma_sum_to_add(
    n: nat,
    f: spec_fn(int) -> nat,
    g: spec_fn(int) -> nat,
    h: spec_fn(int) -> nat,
)
    requires
        forall|k: int| 0 <= k < n ==> #[trigger] h(k) == f(k) + g(k),
    ensures
        sum_to(n, h) == sum_to(n, f) + sum_to(n, g),
    decreases n,
{
    if n > 0 {
        lemma_sum_to_add((n - 1) as nat, f, g, h);
        assert(h(n - 1) == f(n - 1) + g(n - 1));
    }
}

pub proof fn lemma_sum_to_mul(n: nat, f: spec_fn(int) -> nat, g: spec_fn(int) -> nat, c: nat)
    requires
        forall|k: int| 0 <= k < n ==> #[trigger] g(k) == f(k) * c,
    ensures
        sum_to(n, g) == sum_to(n, f) * c,
    decreases n,
{
    if n > 0 {
        lemma_sum_to_mul((n - 1) as nat, f, g, c);
        let s = sum_to((n - 1) as nat, f);
        let x = f(n - 1);
        assert((s + x) * c == s * c + x * c) by (nonlinear_arith);
        assert(g(n - 1) == x * c);
        assert(sum_to(n, g) == sum_to((n - 1) as nat, g) + g(n - 1));
        assert(sum_to(n, f) == s + x);
        assert(sum_to(n, g) == (s + x) * c);
    } else {
        assert(0 * c == 0) by (nonlinear_arith);
    }
}

proof fn lemma_div_add(x: nat, y: nat, c: nat)
    requires
        c > 0,
    ensures
        x / c + y / c <= (x + y) / c,
{
    lemma_fundamental_div_mod(x as int, c as int);
    lemma_fundamental_div_mod(y as int, c as int);
    lemma_fundamental_div_mod((x + y) as int, c as int);
    let q = x / c + y / c;
    assert(q * c <= x + y) by (nonlinear_arith)
        requires
            x == c * (x / c) + x % c,
            y == c * (y / c) + y % c,
            x % c >= 0,
            y % c >= 0,
            q == x / c + y / c,
    ;
    assert(q <= (x + y) / c) by (nonlinear_arith)
        requires
            c > 0,
            q * c <= x + y,
            (x + y) == c * ((x + y) / c) + (x + y) % c,
            (x + y) % c < c,
    ;
}

/// Rounding each term down loses at least as much as rounding the sum down.
pub proof fn lemma_sum_to_div(n: nat, f: spec_fn(int) -> nat, c: nat)
    requires
        c > 0,
    ensures
        sum_to(n, |k: int| (f(k) / c) as nat) <= sum_to(n, f) / c,
    decreases n,
{
    if n > 0 {
        lemma_sum_to_div((n - 1) as nat, f, c);
        lemma_div_add(sum_to((n - 1) as nat, f), f(n - 1), c);
    }
}

pub proof fn lemma_sum_to_zero(n: nat, f: spec_fn(int) -> nat)
    requires
        forall|k: int| 0 <= k < n ==> #[trigger] f(k) == 0,
    ensures
        sum_to(n, f) == 0,
    decreases n,
{
    if n > 0 {
        lemma_sum_to_zero((n - 1) as nat, f);
    }
}

pub open spec fn row(m: spec_fn(int, int) -> nat, ni: nat, a: int) -> nat {
    sum_to(ni, |i: int| m(a, i))
}

pub open spec fn col(m: spec_fn(int, int) -> nat, na: nat, i: int) -> nat {
    sum_to(na, |a: int| m(a, i))
}

/// A double sum may be taken in either order.
pub proof fn lemma_sum_to_swap(m: spec_fn(int, int) -> nat, na: nat, ni: nat)
    ensures
        sum_to(na, |a: int| row(m, ni, a)) == sum_to(ni, |i: int| col(m, na, i)),
    decreases na,
{
    let rowf = |a: int| row(m, ni, a);
    let cn = |i: int| col(m, na, i);
    if na == 0 {
        lemma_sum_to_zero(ni, cn);
    } else {
        let p = (na - 1) as nat;
        let cp = |i: int| col(m, p, i);
        let mp = |i: int| m(p as int, i);
        lemma_sum_to_swap(m, p, ni);
        assert(sum_to(na, rowf) == sum_to(p, rowf) + rowf(p as int));
        assert(sum_to(p, rowf) == sum_to(ni, cp));
        lemma_sum_to_ext(ni, |i: int| m(p as int, i), mp);
        assert(rowf(p as int) == sum_to(ni, mp));
        assert forall|i: int| 0 <= i < ni implies #[trigger] cn(i) == cp(i) + mp(i) by {
            assert(col(m, na, i) == col(m, p, i) + m(p as int, i));
        }
        lemma_sum_to_add(ni, cp, mp, cn);
    }
}

/// Each term rounded down loses less than one: `t * (x / t + 1) > x`, summed.
proof fn lemma_sum_to_div_lower(n: nat, x: spec_fn(int) -> nat, t: nat)
    requires
        t > 0,
    ensures
        t * sum_to(n, |k: int| (x(k) / t) as nat) + n * t >= sum_to(n, x) + n,
    decreases n,
{
    let fl = |k: int| (x(k) / t) as nat;
    if n > 0 {
        let p = (n - 1) as nat;
        lemma_sum_to_div_lower(p, x, t);
        let y = x(n - 1);
        lemma_fundamental_div_mod(y as int, t as int);
        let q = (y as int) / (t as int);
        let r = (y as int) % (t as int);
        assert(0 <= r < t);
        assert(t * q + t >= y + 1) by (nonlinear_arith)
            requires
                y == t * q + r,
                r < t,
        ;
        let a = sum_to(p, fl);
        assert(t * (a + fl(n - 1)) + n * t == (t * a + p * t) + (t * (y / t) + t))
            by (nonlinear_arith)
            requires
                fl(n - 1) == y / t,
                n == p + 1,
        ;
    } else {
        assert(t * sum_to(0, fl) + 0 * t == 0) by (nonlinear_arith)
            requires
                sum_to(0, fl) == 0,
        ;
    }
}

/// Shares of a pool `p` in proportion to parts `u` of a whole `t`, each rounded down as
/// `calc_product(u, p, t)` rounds: together they never exceed the pool, and when the parts
/// make up the whole, the pool loses less than one unit for each share.
pub proof fn lemma_shares_of_pool(n: nat, u: spec_fn(int) -> nat, t: nat, p: nat)
    requires
        t > 0,
        sum_to(n, u) <= t,
    ensures
        sum_to(n, |k: int| (u(k) * p / t) as nat) <= p,
        sum_to(n, u) == t ==> p < sum_to(n, |k: int| (u(k) * p / t) as nat) + n,
{
    let x = |k: int| u(k) * p;
    lemma_sum_to_mul(n, u, x, p);
    lemma_sum_to_div(n, x, t);
    lemma_sum_to_ext(n, |k: int| (u(k) * p / t) as nat, |k: int| (x(k) / t) as nat);
    let su = sum_to(n, u);
    assert(su * p <= t * p) by (nonlinear_arith)
        requires
            su <= t,
    ;
    assert((su * p) / t <= p) by (nonlinear_arith)
        requires
            su * p <= t * p,
            t > 0,
    ;
    if su == t {
        lemma_sum_to_div_lower(n, x, t);
        let fl = sum_to(n, |k: int| (x(k) / t) as nat);
        if n == 0 {
            assert(sum_to(n, u) == 0);
        }
        assert(p < fl + n) by (nonlinear_arith)
            requires
                t * fl + n * t >= t * p + n,
                n > 0,
                t > 0,
        ;
    }
}

/// In a sequence without repetitions, `x` occurs at most once, so the amounts `v` at its
/// places add up to at most `v`.
pub proof fn lemma_sum_to_once(s: Seq<Seq<char>>, n: nat, x: Seq<char>, v: nat)
    requires
        s.no_duplicates(),
        n <= s.len(),
    ensures
        sum_to(n, |k: int| if s[k] == x { v } else { 0 }) <= v,
        (forall|k: int| 0 <= k < n ==> s[k] != x) ==> sum_to(
            n,
            |k: int| if s[k] == x { v } else { 0 },
        ) == 0,
        (exists|k: int| 0 <= k < n && s[k] == x) ==> sum_to(
            n,
            |k: int| if s[k] == x { v } else { 0 },
        ) == v,
    decreases n,
{
    if n > 0 {
        lemma_sum_to_once(s, (n - 1) as nat, x, v);
        if s[n - 1] == x {
            assert forall|k: int| 0 <= k < n - 1 implies s[k] != x by {
                assert(s[k] != s[n - 1]);
            }
        }
    }
}

} // verus!
