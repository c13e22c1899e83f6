//! The pure parts of the parallel sweep: enumerating the candidates,
//! ordering the collected results, and the direct computation of the
//! ascending prime list that the sweep must agree with.

use vstd::prelude::*;
use crate::primality::is_prime_spec;
use crate::primality::is_prime;

verus! {

/// The sequence is strictly increasing.
pub open spec fn strictly_increasing(s: Seq<u32>) -> bool {
    forall|i: int, j: int| 0 <= i < j < s.len() ==> s[i] < s[j]
}

/// The sequence never decreases.
pub open spec fn nondecreasing(s: Seq<u32>) -> bool {
    forall|i: int, j: int| 0 <= i < j < s.len() ==> s[i] <= s[j]
}

/// `s` is the ascending list of every prime in `[2, n]`.
pub open spec fn prime_list_upto(n: int, s: Seq<u32>) -> bool {
    &&& strictly_increasing(s)
    &&& forall|i: int|
        0 <= i < s.len() ==> 2 <= #[trigger] s[i] && s[i] <= n && is_prime_spec(s[i] as int)
    &&& forall|p: u32| 2 <= p <= n && is_prime_spec(p as int) ==> #[trigger] s.contains(p)
}

/// What a completed sweep has gathered, in whatever order the tasks
/// reported: each prime in `[2, n]` exactly once, and nothing else.
pub open spec fn sweep_collection(n: int, c: Seq<u32>) -> bool {
    &&& c.no_duplicates()
    &&& forall|v: u32| #[trigger] c.contains(v) ==> 2 <= v <= n && is_prime_spec(v as int)
    &&& forall|v: u32| 2 <= v <= n && is_prime_spec(v as int) ==> #[trigger] c.contains(v)
}

/// Enumerates the sweep's candidates: every integer in `[2, n]`,
/// each exactly once, in increasing order; empty when `n < 2`.
pub fn candidates(n: u32) -> (r: Vec<u32>)
    ensures
        r@.len() == if n >= 2 { n - 1 } else { 0int },
        forall|i: int| 0 <= i < r@.len() ==> #[trigger] r@[i] == i + 2,
        r@.no_duplicates(),
        forall|c: u32| r@.contains(c) <==> 2 <= c <= n,
{
    let mut r: Vec<u32> = Vec::new();
    if n < 2 {
        return r;
    }
    let mut i: u64 = 2;
    while i <= n as u64
        invariant
            2 <= i <= n as u64 + 1,
            n >= 2,
            r@.len() == i - 2,
            forall|j: int| 0 <= j < r@.len() ==> #[trigger] r@[j] == j + 2,
        decreases n as u64 + 1 - i,
    {
        r.push(i as u32);
        i = i + 1;
    }
    proof {
        assert forall|c: u32| 2 <= c <= n implies r@.contains(c) by {
            assert(r@[c as int - 2] == c);
        }
        assert forall|c: u32| r@.contains(c) implies 2 <= c <= n by {
            let j = choose|j: int| 0 <= j < r@.len() && r@[j] == c;
            assert(r@[j] == j + 2);
        }
    }
    r
}

/// Computes the sweep's answer directly: the ascending list of all
/// primes in `[2, n]`.
pub fn primes_upto(n: u32) -> (r: Vec<u32>)
    ensures
        prime_list_upto(n as int, r@),
{
    let mut r: Vec<u32> = Vec::new();
    if n < 2 {
        return r;
    }
    let mut i: u64 = 2;
    while i <= n as u64
        invariant
            n >= 2,
            2 <= i <= n as u64 + 1,
            strictly_increasing(r@),
            forall|j: int|
                0 <= j < r@.len() ==> 2 <= #[trigger] r@[j] && r@[j] < i && is_prime_spec(
                    r@[j] as int,
                ),
            forall|p: u32|
                2 <= p && (p as u64) < i && is_prime_spec(p as int) ==> #[trigger] r@.contains(p),
        decreases n as u64 + 1 - i,
    {
        let c = i as u32;
        let ghost pre = r@;
        if is_prime(c) {
            r.push(c);
            proof {
                assert(r@ == pre.push(c));
                assert(r@[pre.len() as int] == c);
                assert(forall|j: int| 0 <= j < pre.len() ==> r@[j] == pre[j]);
                assert forall|p: u32|
                    2 <= p && (p as u64) < i + 1 && is_prime_spec(p as int) implies #[trigger] r@
                    .contains(p) by {
                    if (p as u64) < i {
                        assert(pre.contains(p));
                        let j = choose|j: int| 0 <= j < pre.len() && pre[j] == p;
                        assert(r@[j] == p);
                    } else {
                        assert(p == c);
                        assert(r@[pre.len() as int] == p);
                    }
                }
            }
        } else {
            proof {
                assert forall|p: u32|
                    2 <= p && (p as u64) < i + 1 && is_prime_spec(p as int) implies #[trigger] r@
                    .contains(p) by {
                    assert((p as u64) < i);
                }
            }
        }
        i = i + 1;
    }
    r
}

/// Inserting a value anywhere in a sequence adds it to the
/// sequence's multiset.
proof fn lemma_insert_multiset(s: Seq<u32>, p: int, x: u32)
    requires
        0 <= p <= s.len(),
    ensures
        s.insert(p, x).to_multiset() =~= s.to_multiset().insert(x),
{
    broadcast use vstd::seq_lib::group_to_multiset_ensures;
    broadcast use vstd::multiset::group_multiset_axioms;

    let a = s.subrange(0, p);
    let b = s.subrange(p, s.len() as int);
    assert(s =~= a + b);
    assert(s.insert(p, x) =~= a.push(x) + b);
    vstd::seq_lib::lemma_multiset_commutative(a.push(x), b);
    vstd::seq_lib::lemma_multiset_commutative(a, b);
    assert(a.push(x).to_multiset() =~= a.to_multiset().insert(x));
}

/// Inserting a value between the entries below it and the entries
/// above it keeps the sequence ordered.
proof fn lemma_insert_sorted(s: Seq<u32>, p: int, x: u32)
    requires
        0 <= p <= s.len(),
        nondecreasing(s),
        forall|q: int| 0 <= q < p ==> s[q] <= x,
        forall|q: int| p <= q < s.len() ==> s[q] >= x,
    ensures
        nondecreasing(s.insert(p, x)),
{
    s.insert_ensures(p, x);
    let t = s.insert(p, x);
    assert forall|i: int, j: int| 0 <= i < j < t.len() implies t[i] <= t[j] by {
        if j < p {
            assert(t[i] == s[i] && t[j] == s[j]);
        } else if i > p {
            assert(t[i] == s[i - 1] && t[j] == s[j - 1]);
        } else if i == p && j > p {
            assert(t[i] == x && t[j] == s[j - 1]);
        } else if j == p {
            assert(t[i] == s[i] && t[j] == x);
        } else {
            assert(i < p && j > p);
            assert(t[i] == s[i] && t[j] == s[j - 1]);
        }
    }
}

/// Orders a collection of reported values ascending; the values and
/// their multiplicities are exactly those that came in.
pub fn sort_ascending(v: Vec<u32>) -> (r: Vec<u32>)
    ensures
        nondecreasing(r@),
        r@.to_multiset() == v@.to_multiset(),
{
    let mut out: Vec<u32> = Vec::new();
    let mut idx: usize = 0;
    proof {
        assert(v@.subrange(0, 0) =~= Seq::<u32>::empty());
        vstd::seq_lib::lemma_multiset_commutative(Seq::<u32>::empty(), Seq::<u32>::empty());
        assert(out@ =~= Seq::<u32>::empty());
    }
    while idx < v.len()
        invariant
            0 <= idx <= v@.len(),
            nondecreasing(out@),
            out@.to_multiset() == v@.subrange(0, idx as int).to_multiset(),
        decreases v@.len() - idx,
    {
        let x = v[idx];
        let mut pos: usize = 0;
        while pos < out.len() && out[pos] <= x
            invariant
                0 <= pos <= out@.len(),
                forall|q: int| 0 <= q < pos ==> out@[q] <= x,
            decreases out@.len() - pos,
        {
            pos = pos + 1;
        }
        let ghost pre = out@;
        out.insert(pos, x);
        proof {
            broadcast use vstd::seq_lib::group_to_multiset_ensures;

            assert forall|q: int| pos as int <= q < pre.len() implies pre[q] >= x by {
                assert(pre[pos as int] > x);
            }
            lemma_insert_sorted(pre, pos as int, x);
            lemma_insert_multiset(pre, pos as int, x);
            assert(v@.subrange(0, idx as int + 1) =~= v@.subrange(0, idx as int).push(x));
        }
        idx = idx + 1;
    }
    proof {
        assert(v@.subrange(0, v@.len() as int) =~= v@);
    }
    out
}

/// Two duplicate-free sequences holding the same set of values hold
/// the same multiset.
proof fn lemma_same_members_same_multiset(a: Seq<u32>, b: Seq<u32>)
    requires
        a.no_duplicates(),
        b.no_duplicates(),
        forall|v: u32| #[trigger] a.contains(v) ==> b.contains(v),
        forall|v: u32| #[trigger] b.contains(v) ==> a.contains(v),
    ensures
        a.to_multiset() =~= b.to_multiset(),
{
    broadcast use vstd::seq_lib::group_to_multiset_ensures;
    broadcast use vstd::multiset::group_multiset_axioms;

    a.lemma_multiset_has_no_duplicates();
    b.lemma_multiset_has_no_duplicates();
    assert forall|x: u32| a.to_multiset().count(x) == b.to_multiset().count(x) by {
        if a.contains(x) {
            assert(a.to_multiset().count(x) == 1);
            assert(b.to_multiset().count(x) == 1);
        } else {
            assert(!b.contains(x));
            assert(a.to_multiset().count(x) == 0);
            assert(b.to_multiset().count(x) == 0);
        }
    }
}

/// Ordering pins the sequence: two ordered sequences that hold the
/// same values with the same multiplicities are equal, whatever
/// order those values first arrived in.
pub proof fn lemma_sorted_multiset_equal(a: Seq<u32>, b: Seq<u32>)
    requires
        nondecreasing(a),
        nondecreasing(b),
        a.to_multiset() == b.to_multiset(),
    ensures
        a == b,
{
    let leq = |x: u32, y: u32| x <= y;
    assert(vstd::relations::total_ordering(leq));
    assert(vstd::relations::sorted_by(a, leq));
    assert(vstd::relations::sorted_by(b, leq));
    vstd::seq_lib::lemma_sorted_unique(a, b, leq);
    assert(a =~= b);
}

/// The sweep invariant: a run that reports each prime in `[2, n]`
/// exactly once and then orders what it gathered produces exactly
/// the ascending list of the primes in `[2, n]`.
pub proof fn lemma_sweep_collects_primes(n: int, c: Seq<u32>, s: Seq<u32>)
    requires
        sweep_collection(n, c),
        nondecreasing(s),
        s.to_multiset() == c.to_multiset(),
    ensures
        prime_list_upto(n, s),
{
    broadcast use vstd::seq_lib::group_to_multiset_ensures;
    broadcast use vstd::multiset::group_multiset_axioms;

    c.lemma_multiset_has_no_duplicates();
    assert forall|x: u32| s.to_multiset().contains(x) implies s.to_multiset().count(x) == 1 by {
        assert(c.to_multiset().contains(x));
        assert(c.contains(x));
    }
    s.lemma_multiset_has_no_duplicates_conv();
    assert forall|v: u32| #[trigger] s.contains(v) implies c.contains(v) by {
        assert(s.to_multiset().count(v) > 0);
        assert(c.to_multiset().count(v) > 0);
    }
    assert forall|v: u32| #[trigger] c.contains(v) implies s.contains(v) by {
        assert(c.to_multiset().count(v) > 0);
        assert(s.to_multiset().count(v) > 0);
    }
    assert forall|i: int, j: int| 0 <= i < j < s.len() implies s[i] < s[j] by {
        assert(s[i] <= s[j]);
        assert(s[i] != s[j]);
    }
    assert forall|i: int|
        0 <= i < s.len() implies 2 <= #[trigger] s[i] && s[i] <= n && is_prime_spec(
        s[i] as int,
    ) by {
        assert(s.contains(s[i]));
    }
    assert forall|p: u32| 2 <= p <= n && is_prime_spec(p as int) implies #[trigger] s.contains(
        p,
    ) by {
        assert(c.contains(p));
    }
}

/// There is only one ascending list of the primes in `[2, n]`: the
/// sweep's sorted output and the direct computation agree.
pub proof fn lemma_prime_list_unique(n: int, a: Seq<u32>, b: Seq<u32>)
    requires
        prime_list_upto(n, a),
        prime_list_upto(n, b),
    ensures
        a == b,
{
    assert forall|i: int, j: int|
        0 <= i < a.len() && 0 <= j < a.len() && i != j implies a[i] != a[j] by {
        if i < j {
            assert(a[i] < a[j]);
        } else {
            assert(a[j] < a[i]);
        }
    }
    assert forall|i: int, j: int|
        0 <= i < b.len() && 0 <= j < b.len() && i != j implies b[i] != b[j] by {
        if i < j {
            assert(b[i] < b[j]);
        } else {
            assert(b[j] < b[i]);
        }
    }
    assert forall|v: u32| #[trigger] a.contains(v) implies b.contains(v) by {
        let i = choose|i: int| 0 <= i < a.len() && a[i] == v;
        assert(2 <= a[i] && a[i] <= n && is_prime_spec(a[i] as int));
    }
    assert forall|v: u32| #[trigger] b.contains(v) implies a.contains(v) by {
        let i = choose|i: int| 0 <= i < b.len() && b[i] == v;
        assert(2 <= b[i] && b[i] <= n && is_prime_spec(b[i] as int));
    }
    lemma_same_members_same_multiset(a, b);
    lemma_sorted_multiset_equal(a, b);
}

/// Running the sweep twice with the same bound gives the same
/// ordered sequence, although the two runs' results may have
/// arrived in entirely different orders.
pub proof fn lemma_sweep_deterministic(n: int, c1: Seq<u32>, s1: Seq<u32>, c2: Seq<u32>, s2: Seq<u32>)
    requires
        sweep_collection(n, c1),
        nondecreasing(s1),
        s1.to_multiset() == c1.to_multiset(),
        sweep_collection(n, c2),
        nondecreasing(s2),
        s2.to_multiset() == c2.to_multiset(),
    ensures
        s1 == s2,
{
    lemma_same_members_same_multiset(c1, c2);
    lemma_sorted_multiset_equal(s1, s2);
}

} // verus!
