//! Fixed-point similarity measures: Jaccard similarity of genre sets and
//! cosine similarity of two-dimensional score vectors.
//!
//! A similarity of 1.0 is represented by the integer `SIM_SCALE`, so every
//! similarity value lives in `0 ..= SIM_SCALE`.

use vstd::prelude::*;

verus! {

use vstd::arithmetic::div_mod::{lemma_div_is_ordered, lemma_div_multiples_vanish};
use vstd::arithmetic::mul::lemma_mul_inequality;

/// Denominator of all fixed-point similarity values: 1.0 is `SIM_SCALE`.
pub const SIM_SCALE: u64 = 1_000_000;

/// The floor of the square root of `n`: the unique `r` with
/// `r * r <= n < (r + 1) * (r + 1)`.
pub open spec fn sqrt_floor(n: nat) -> nat
    decreases n,
{
    if n == 0 {
        0
    } else {
        let r = sqrt_floor((n - 1) as nat);
        if (r + 1) * (r + 1) <= n {
            r + 1
        } else {
            r
        }
    }
}

/// `sqrt_floor` is indeed the floor of the square root.
pub proof fn lemma_sqrt_floor_bounds(n: nat)
    ensures
        sqrt_floor(n) * sqrt_floor(n) <= n,
        n < (sqrt_floor(n) + 1) * (sqrt_floor(n) + 1),
    decreases n,
{
    if n == 0 {
        assert(sqrt_floor(n) == 0);
        assert(sqrt_floor(n) * sqrt_floor(n) <= n);
        assert((sqrt_floor(n) + 1) * (sqrt_floor(n) + 1) == 1) by (nonlinear_arith)
            requires sqrt_floor(n) == 0nat;
    } else {
        lemma_sqrt_floor_bounds((n - 1) as nat);
        let r = sqrt_floor((n - 1) as nat);
        if (r + 1) * (r + 1) <= n {
            assert(sqrt_floor(n) == r + 1);
            assert((r + 1) * (r + 1) < (r + 2) * (r + 2)) by (nonlinear_arith);
            assert(n - 1 < (r + 1) * (r + 1));
            assert(sqrt_floor(n) * sqrt_floor(n) <= n) by (nonlinear_arith)
                requires sqrt_floor(n) == r + 1, (r + 1) * (r + 1) <= n;
            assert(n < (sqrt_floor(n) + 1) * (sqrt_floor(n) + 1)) by (nonlinear_arith)
                requires sqrt_floor(n) == r + 1, n < (r + 2) * (r + 2);
        } else {
            assert(sqrt_floor(n) == r);
            assert(r * r <= n - 1);
            assert(sqrt_floor(n) * sqrt_floor(n) <= n) by (nonlinear_arith)
                requires sqrt_floor(n) == r, r * r <= n;
            assert(n < (sqrt_floor(n) + 1) * (sqrt_floor(n) + 1)) by (nonlinear_arith)
                requires sqrt_floor(n) == r, n < (r + 1) * (r + 1);
        }
    }
}

/// The floor square root of a positive number is positive.
pub proof fn lemma_sqrt_floor_pos(n: nat)
    requires
        n >= 1,
    ensures
        sqrt_floor(n) >= 1,
{
    lemma_sqrt_floor_bounds(n);
    let s = sqrt_floor(n);
    if s == 0 {
        assert((s + 1) * (s + 1) == 1) by (nonlinear_arith)
            requires s == 0nat;
    }
}

/// Any `r` within the floor-square-root bounds equals `sqrt_floor(n)`.
pub proof fn lemma_sqrt_floor_unique(n: nat, r: nat)
    requires
        r * r <= n,
        n < (r + 1) * (r + 1),
    ensures
        r == sqrt_floor(n),
{
    let s = sqrt_floor(n);
    lemma_sqrt_floor_bounds(n);
    if r < s {
        assert((r + 1) * (r + 1) <= s * s) by (nonlinear_arith)
            requires r + 1 <= s;
    }
    if s < r {
        assert((s + 1) * (s + 1) <= r * r) by (nonlinear_arith)
            requires s + 1 <= r;
    }
}

/// Floor square root, computed by binary search over `0 ..= 2^64`.
pub fn isqrt(n: u128) -> (r: u64)
    ensures
        r == sqrt_floor(n as nat),
{
    let mut lo: u128 = 0;
    let mut hi: u128 = 0x1_0000_0000_0000_0000;
    assert((n as int) < (0x1_0000_0000_0000_0000 as int) * (0x1_0000_0000_0000_0000 as int))
        by (nonlinear_arith)
        requires n <= u128::MAX;
    while lo + 1 < hi
        invariant
            lo < hi <= 0x1_0000_0000_0000_0000,
            (lo as int) * (lo as int) <= n as int,
            (n as int) < (hi as int) * (hi as int),
        decreases hi - lo,
    {
        let mid = lo + (hi - lo) / 2;
        assert((mid as int) * (mid as int) <= u128::MAX as int) by (nonlinear_arith)
            requires mid <= 0xFFFF_FFFF_FFFF_FFFFu128;
        if mid * mid <= n {
            lo = mid;
        } else {
            hi = mid;
        }
    }
    proof {
        lemma_sqrt_floor_unique(n as nat, lo as nat);
    }
    lo as u64
}

/// Cosine similarity of the score vectors `(a0, a1)` and `(b0, b1)`, in
/// `SIM_SCALE` units, rounded down. Defined as 0 when either vector is zero.
pub open spec fn cosine_scaled(a0: nat, a1: nat, b0: nat, b1: nat) -> int {
    let dot = a0 * b0 + a1 * b1;
    let na2 = a0 * a0 + a1 * a1;
    let nb2 = b0 * b0 + b1 * b1;
    if na2 == 0 || nb2 == 0 {
        0
    } else {
        dot * SIM_SCALE / sqrt_floor((na2 * nb2) as nat) as int
    }
}

/// Two-dimensional Cauchy-Schwarz inequality.
#[verifier::rlimit(100)]
proof fn lemma_cauchy_schwarz(a0: int, a1: int, b0: int, b1: int)
    ensures
        (a0 * b0 + a1 * b1) * (a0 * b0 + a1 * b1) <= (a0 * a0 + a1 * a1) * (b0 * b0 + b1 * b1),
{
    let x = a0 * b0;
    let y = a1 * b1;
    let u = a0 * b1;
    let v = a1 * b0;
    assert((x + y) * (x + y) == x * x + 2 * (x * y) + y * y) by (nonlinear_arith);
    assert((u - v) * (u - v) == u * u - 2 * (u * v) + v * v) by (nonlinear_arith);
    assert((a0 * a0 + a1 * a1) * (b0 * b0 + b1 * b1) == (a0 * a0) * (b0 * b0) + (a0 * a0) * (b1
        * b1) + (a1 * a1) * (b0 * b0) + (a1 * a1) * (b1 * b1)) by (nonlinear_arith);
    assert((a0 * b0) * (a0 * b0) == (a0 * a0) * (b0 * b0)) by (nonlinear_arith);
    assert((a1 * b1) * (a1 * b1) == (a1 * a1) * (b1 * b1)) by (nonlinear_arith);
    assert((a0 * b1) * (a0 * b1) == (a0 * a0) * (b1 * b1)) by (nonlinear_arith);
    assert((a1 * b0) * (a1 * b0) == (a1 * a1) * (b0 * b0)) by (nonlinear_arith);
    assert((a0 * b0) * (a1 * b1) == (a0 * b1) * (a1 * b0)) by (nonlinear_arith);
    assert((u - v) * (u - v) >= 0) by (nonlinear_arith);
}

/// A ratio of a part to a whole, scaled by `SIM_SCALE`, never exceeds
/// `SIM_SCALE`.
proof fn lemma_scaled_ratio_le_scale(num: int, den: int)
    requires
        0 <= num <= den,
        0 < den,
    ensures
        0 <= num * SIM_SCALE / den <= SIM_SCALE,
{
    lemma_mul_inequality(num, den, SIM_SCALE as int);
    lemma_div_is_ordered(num * SIM_SCALE, den * SIM_SCALE, den);
    lemma_div_multiples_vanish(SIM_SCALE as int, den);
    assert(den * SIM_SCALE / den == SIM_SCALE);
    vstd::arithmetic::div_mod::lemma_div_pos_is_pos(num * SIM_SCALE, den);
    assert(num * SIM_SCALE >= 0) by (nonlinear_arith)
        requires num >= 0;
}

/// Cosine similarity on non-negative vectors lies between 0 and 1, that is,
/// between 0 and `SIM_SCALE` in fixed point.
pub proof fn lemma_cosine_scaled_range(a0: nat, a1: nat, b0: nat, b1: nat)
    ensures
        0 <= cosine_scaled(a0, a1, b0, b1) <= SIM_SCALE,
{
    let dot = a0 * b0 + a1 * b1;
    let na2 = a0 * a0 + a1 * a1;
    let nb2 = b0 * b0 + b1 * b1;
    if na2 == 0 || nb2 == 0 {
    } else {
        let m = sqrt_floor((na2 * nb2) as nat);
        lemma_sqrt_floor_bounds((na2 * nb2) as nat);
        lemma_cauchy_schwarz(a0 as int, a1 as int, b0 as int, b1 as int);
        assert(na2 * nb2 > 0) by (nonlinear_arith)
            requires na2 > 0, nb2 > 0;
        lemma_sqrt_floor_pos((na2 * nb2) as nat);
        assert(dot <= m) by {
            if dot > m {
                assert((m + 1) * (m + 1) <= dot * dot) by (nonlinear_arith)
                    requires m + 1 <= dot;
            }
        }
        lemma_scaled_ratio_le_scale(dot as int, m as int);
    }
}

/// Cosine similarity of the score vectors of two movies, in `SIM_SCALE`
/// units. Each vector holds (critic score, audience score) in hundredths of
/// a point. Returns 0 when either vector has zero magnitude.
pub fn cosine_similarity(a: (u16, u16), b: (u16, u16)) -> (r: u64)
    ensures
        r == cosine_scaled(a.0 as nat, a.1 as nat, b.0 as nat, b.1 as nat),
        r <= SIM_SCALE,
{
    proof {
        lemma_cosine_scaled_range(a.0 as nat, a.1 as nat, b.0 as nat, b.1 as nat);
    }
    let a0: u64 = a.0 as u64;
    let a1: u64 = a.1 as u64;
    let b0: u64 = b.0 as u64;
    let b1: u64 = b.1 as u64;
    proof {
        assert(forall|x: u64, y: u64| x < 0x1_0000 && y < 0x1_0000
            ==> #[trigger] ((x as int) * (y as int)) < 0x1_0000_0000) by (nonlinear_arith);
    }
    let dot: u64 = a0 * b0 + a1 * b1;
    let na2: u64 = a0 * a0 + a1 * a1;
    let nb2: u64 = b0 * b0 + b1 * b1;
    if na2 == 0 || nb2 == 0 {
        return 0;
    }
    proof {
        assert((na2 as int) * (nb2 as int) < 0x1_0000_0000_0000_0000_0000 && (dot as int) * (
        SIM_SCALE as int) < 0x1_0000_0000_0000_0000) by (nonlinear_arith)
            requires na2 < 0x2_0000_0000, nb2 < 0x2_0000_0000, dot < 0x2_0000_0000;
    }
    let m: u64 = isqrt((na2 as u128) * (nb2 as u128));
    proof {
        lemma_sqrt_floor_bounds((na2 * nb2) as nat);
        assert((na2 as int) * (nb2 as int) > 0) by (nonlinear_arith)
            requires na2 > 0, nb2 > 0;
        lemma_sqrt_floor_pos((na2 * nb2) as nat);
    }
    let num: u128 = (dot as u128) * (SIM_SCALE as u128);
    let r: u128 = num / (m as u128);
    proof {
        assert(r <= SIM_SCALE);
    }
    r as u64
}

/// Jaccard similarity of the distinct-genre sets of two genre lists, in
/// `SIM_SCALE` units, rounded down. Defined as 0 when both lists are empty,
/// so an empty union never divides by zero.
pub open spec fn jaccard_scaled(g1: Seq<Seq<char>>, g2: Seq<Seq<char>>) -> int {
    let s1 = g1.to_set();
    let s2 = g2.to_set();
    if (s1 + s2).len() == 0 {
        0
    } else {
        s1.intersect(s2).len() * SIM_SCALE / (s1 + s2).len() as int
    }
}

/// Jaccard similarity always lies between 0 and 1, that is, between 0 and
/// `SIM_SCALE` in fixed point.
pub proof fn lemma_jaccard_scaled_range(g1: Seq<Seq<char>>, g2: Seq<Seq<char>>)
    ensures
        0 <= jaccard_scaled(g1, g2) <= SIM_SCALE,
{
    broadcast use vstd::seq_lib::seq_to_set_is_finite;
    broadcast use vstd::set::group_set_axioms;

    let s1 = g1.to_set();
    let s2 = g2.to_set();
    if (s1 + s2).len() == 0 {
    } else {
        assert(s1.intersect(s2).subset_of(s1 + s2));
        vstd::set_lib::lemma_len_subset(s1.intersect(s2), s1 + s2);
        lemma_scaled_ratio_le_scale(s1.intersect(s2).len() as int, (s1 + s2).len() as int);
    }
}

/// Two genre lists with the same distinct-genre set, not both empty, have
/// Jaccard similarity exactly 1.
pub proof fn lemma_jaccard_scaled_identical(g1: Seq<Seq<char>>, g2: Seq<Seq<char>>)
    requires
        g1.to_set() == g2.to_set(),
        g1.len() > 0,
    ensures
        jaccard_scaled(g1, g2) == SIM_SCALE,
{
    broadcast use vstd::seq_lib::seq_to_set_is_finite;
    broadcast use vstd::set::group_set_axioms;

    let s = g1.to_set();
    assert(s + s =~= s);
    assert(s.intersect(s) =~= s);
    assert(s.contains(g1[0]));
    assert(s.len() > 0);
    lemma_div_multiples_vanish(SIM_SCALE as int, s.len() as int);
    assert(s.len() * SIM_SCALE == (s.len() as int) * (SIM_SCALE as int));
}

/// Two genre lists with disjoint genre sets have Jaccard similarity 0; in
/// particular an empty list against any other list gives 0.
pub proof fn lemma_jaccard_scaled_disjoint(g1: Seq<Seq<char>>, g2: Seq<Seq<char>>)
    requires
        g1.to_set().disjoint(g2.to_set()),
    ensures
        jaccard_scaled(g1, g2) == 0,
{
    broadcast use vstd::seq_lib::seq_to_set_is_finite;
    broadcast use vstd::set::group_set_axioms;

    let s1 = g1.to_set();
    let s2 = g2.to_set();
    assert(s1.intersect(s2) =~= Set::empty());
    if (s1 + s2).len() == 0 {
    } else {
        vstd::arithmetic::div_mod::lemma_div_of0((s1 + s2).len() as int);
    }
}

/// Whether some string among the first `k` elements of `v` has the same
/// characters as `s`.
fn contains_up_to(v: &Vec<String>, k: usize, s: &String) -> (r: bool)
    requires
        k <= v.len(),
    ensures
        r == v.deep_view().take(k as int).contains(s@),
{
    let mut i: usize = 0;
    while i < k
        invariant
            i <= k <= v.len(),
            forall|j: int| 0 <= j < i ==> v.deep_view()[j] != s@,
        decreases k - i,
    {
        if v[i].eq(s) {
            assert(v.deep_view().take(k as int)[i as int] == s@);
            return true;
        }
        i += 1;
    }
    assert(forall|j: int| 0 <= j < k ==> v.deep_view().take(k as int)[j] != s@);
    false
}

/// Number of distinct strings in `v`.
fn count_distinct(v: &Vec<String>) -> (r: usize)
    ensures
        r == v.deep_view().to_set().len(),
{
    broadcast use vstd::seq_lib::seq_to_set_is_finite;
    broadcast use vstd::set::group_set_axioms;

    let mut i: usize = 0;
    let mut count: usize = 0;
    proof {
        assert(v.deep_view().take(0).to_set() =~= Set::<Seq<char>>::empty());
    }
    while i < v.len()
        invariant
            i <= v.len(),
            count <= i,
            count == v.deep_view().take(i as int).to_set().len(),
        decreases v.len() - i,
    {
        let fresh = !contains_up_to(v, i, &v[i]);
        if fresh {
            count += 1;
        }
        proof {
            let prefix = v.deep_view().take(i as int);
            let e = v.deep_view()[i as int];
            assert(v.deep_view().take(i + 1) =~= prefix.push(e));
            prefix.lemma_push_to_set_commute(e);
        }
        i += 1;
    }
    proof {
        assert(v.deep_view().take(v.len() as int) =~= v.deep_view());
    }
    count
}

/// Number of distinct strings in `v` that also occur in `w`.
fn count_common_distinct(v: &Vec<String>, w: &Vec<String>) -> (r: usize)
    ensures
        r == v.deep_view().to_set().intersect(w.deep_view().to_set()).len(),
{
    broadcast use vstd::seq_lib::seq_to_set_is_finite;
    broadcast use vstd::set::group_set_axioms;

    let ghost s2 = w.deep_view().to_set();
    let mut i: usize = 0;
    let mut count: usize = 0;
    proof {
        assert(v.deep_view().take(0).to_set() =~= Set::<Seq<char>>::empty());
        assert(v.deep_view().take(0).to_set().intersect(s2) =~= Set::<Seq<char>>::empty());
    }
    while i < v.len()
        invariant
            i <= v.len(),
            count <= i,
            s2 == w.deep_view().to_set(),
            count == v.deep_view().take(i as int).to_set().intersect(s2).len(),
        decreases v.len() - i,
    {
        let fresh = !contains_up_to(v, i, &v[i]);
        let in_w = contains_up_to(w, w.len(), &v[i]);
        if fresh && in_w {
            count += 1;
        }
        proof {
            let prefix = v.deep_view().take(i as int);
            let e = v.deep_view()[i as int];
            assert(w.deep_view().take(w.len() as int) =~= w.deep_view());
            assert(v.deep_view().take(i + 1) =~= prefix.push(e));
            prefix.lemma_push_to_set_commute(e);
            if prefix.to_set().contains(e) {
                assert(prefix.to_set().insert(e) =~= prefix.to_set());
            } else if s2.contains(e) {
                assert(prefix.to_set().insert(e).intersect(s2) =~= prefix.to_set().intersect(
                    s2).insert(e));
            } else {
                assert(prefix.to_set().insert(e).intersect(s2) =~= prefix.to_set().intersect(
                    s2));
            }
        }
        i += 1;
    }
    proof {
        assert(v.deep_view().take(v.len() as int) =~= v.deep_view());
    }
    count
}

/// Number of distinct strings in `v` that do not occur in `w`.
fn count_extra_distinct(v: &Vec<String>, w: &Vec<String>) -> (r: usize)
    ensures
        r == v.deep_view().to_set().difference(w.deep_view().to_set()).len(),
{
    broadcast use vstd::seq_lib::seq_to_set_is_finite;
    broadcast use vstd::set::group_set_axioms;

    let ghost s2 = w.deep_view().to_set();
    let mut i: usize = 0;
    let mut count: usize = 0;
    proof {
        assert(v.deep_view().take(0).to_set() =~= Set::<Seq<char>>::empty());
        assert(v.deep_view().take(0).to_set().difference(s2) =~= Set::<Seq<char>>::empty());
    }
    while i < v.len()
        invariant
            i <= v.len(),
            count <= i,
            s2 == w.deep_view().to_set(),
            count == v.deep_view().take(i as int).to_set().difference(s2).len(),
        decreases v.len() - i,
    {
        let fresh = !contains_up_to(v, i, &v[i]);
        let in_w = contains_up_to(w, w.len(), &v[i]);
        if fresh && !in_w {
            count += 1;
        }
        proof {
            let prefix = v.deep_view().take(i as int);
            let e = v.deep_view()[i as int];
            assert(w.deep_view().take(w.len() as int) =~= w.deep_view());
            assert(v.deep_view().take(i + 1) =~= prefix.push(e));
            prefix.lemma_push_to_set_commute(e);
            if prefix.to_set().contains(e) {
                assert(prefix.to_set().insert(e) =~= prefix.to_set());
            } else if !s2.contains(e) {
                assert(prefix.to_set().insert(e).difference(s2) =~= prefix.to_set().difference(
                    s2).insert(e));
            } else {
                assert(prefix.to_set().insert(e).difference(s2) =~= prefix.to_set().difference(
                    s2));
            }
        }
        i += 1;
    }
    proof {
        assert(v.deep_view().take(v.len() as int) =~= v.deep_view());
    }
    count
}

/// Jaccard similarity of the genre sets of two genre lists, in `SIM_SCALE`
/// units. Duplicates within a list are ignored: the measure compares the
/// sets of distinct genre names.
pub fn genre_jaccard(g1: &Vec<String>, g2: &Vec<String>) -> (r: u64)
    ensures
        r == jaccard_scaled(g1.deep_view(), g2.deep_view()),
        r <= SIM_SCALE,
{
    proof {
        lemma_jaccard_scaled_range(g1.deep_view(), g2.deep_view());
    }
    let inter = count_common_distinct(g1, g2);
    let d1 = count_distinct(g1);
    let extra2 = count_extra_distinct(g2, g1);
    proof {
        broadcast use vstd::seq_lib::seq_to_set_is_finite;
        broadcast use vstd::set::group_set_axioms;

        let s1 = g1.deep_view().to_set();
        let s2 = g2.deep_view().to_set();
        assert(s1 + s2.difference(s1) =~= s1 + s2);
        assert(s1.disjoint(s2.difference(s1)));
        vstd::set_lib::lemma_set_disjoint_lens(s1, s2.difference(s1));
    }
    let uni: u128 = d1 as u128 + extra2 as u128;
    if uni == 0 {
        return 0;
    }
    let num: u128 = (inter as u128) * (SIM_SCALE as u128);
    proof {
        assert((inter as int) * (SIM_SCALE as int) <= u128::MAX as int) by (nonlinear_arith)
            requires inter <= 0xFFFF_FFFF_FFFF_FFFFu128, SIM_SCALE == 1_000_000u64;
    }
    let r: u128 = num / uni;
    r as u64
}

} // verus!
