//! Strictly ascending sequences of `u64` identifiers: the representation of
//! posting lists and of k-gram buckets, together with the linear-merge
//! intersection and union that queries are built from.

use vstd::prelude::*;

verus! {

/// Every element is strictly smaller than the next: ascending and free of
/// duplicates.
pub open spec fn strictly_sorted(s: Seq<u64>) -> bool {
    forall|i: int, j: int| 0 <= i < j < s.len() ==> s[i] < s[j]
}

/// `x` occurs among the first `n` elements of `s`.
pub open spec fn in_prefix(s: Seq<u64>, n: int, x: u64) -> bool {
    exists|p: int| 0 <= p < n && p < s.len() && s[p] == x
}

/// `r` is the intersection of `a` and `b` as ordered sets.
pub open spec fn is_intersection(a: Seq<u64>, b: Seq<u64>, r: Seq<u64>) -> bool {
    &&& strictly_sorted(r)
    &&& forall|x: u64| r.contains(x) <==> (a.contains(x) && b.contains(x))
}

/// `r` is the union of `a` and `b` as ordered sets.
pub open spec fn is_union(a: Seq<u64>, b: Seq<u64>, r: Seq<u64>) -> bool {
    &&& strictly_sorted(r)
    &&& forall|x: u64| r.contains(x) <==> (a.contains(x) || b.contains(x))
}

pub proof fn lemma_prefix_full(s: Seq<u64>)
    ensures
        forall|x: u64| in_prefix(s, s.len() as int, x) <==> s.contains(x),
{
}

/// Extending a prefix by one element adds exactly that element's value.
pub proof fn lemma_prefix_step(s: Seq<u64>, n: int)
    requires
        0 <= n < s.len(),
    ensures
        forall|x: u64| in_prefix(s, n + 1, x) <==> (in_prefix(s, n, x) || s[n] == x),
{
    assert forall|x: u64| in_prefix(s, n + 1, x) implies (in_prefix(s, n, x) || s[n] == x) by {
        let p = choose|p: int| 0 <= p < n + 1 && p < s.len() && s[p] == x;
        if p < n {
            assert(in_prefix(s, n, x));
        }
    }
}

/// In a strictly ascending sequence, the members of a proper prefix are
/// exactly the members below the next element.
pub proof fn lemma_prefix_bound(s: Seq<u64>, n: int)
    requires
        strictly_sorted(s),
        0 <= n < s.len(),
    ensures
        forall|x: u64| in_prefix(s, n, x) ==> x < s[n],
        forall|x: u64| s.contains(x) && x < s[n] ==> in_prefix(s, n, x),
{
    assert forall|x: u64| in_prefix(s, n, x) implies x < s[n] by {
        let p = choose|p: int| 0 <= p < n && p < s.len() && s[p] == x;
        assert(s[p] < s[n]);
    }
    assert forall|x: u64| s.contains(x) && x < s[n] implies in_prefix(s, n, x) by {
        let p = choose|p: int| 0 <= p < s.len() && s[p] == x;
        if p >= n {
            if p > n {
                assert(s[n] < s[p]);
            }
            assert(false);
        }
    }
}

/// The first element of a strictly ascending sequence is its minimum.
pub proof fn lemma_sorted_first_min(s: Seq<u64>)
    requires
        strictly_sorted(s),
        s.len() > 0,
    ensures
        forall|x: u64| s.contains(x) ==> s[0] <= x,
{
    assert forall|x: u64| s.contains(x) implies s[0] <= x by {
        let i = choose|i: int| 0 <= i < s.len() && s[i] == x;
        if i > 0 {
            assert(s[0] < s[i]);
        }
    }
}

/// Dropping the head of a strictly ascending sequence keeps exactly the
/// members above the head.
pub proof fn lemma_sorted_tail_members(s: Seq<u64>)
    requires
        strictly_sorted(s),
        s.len() > 0,
    ensures
        strictly_sorted(s.drop_first()),
        forall|x: u64| s.drop_first().contains(x) <==> (s.contains(x) && x > s[0]),
{
    let t = s.drop_first();
    assert forall|x: u64| t.contains(x) implies s.contains(x) && x > s[0] by {
        let i = choose|i: int| 0 <= i < t.len() && t[i] == x;
        assert(s[i + 1] == x);
        assert(s[0] < s[i + 1]);
    }
    assert forall|x: u64| s.contains(x) && x > s[0] implies t.contains(x) by {
        let i = choose|i: int| 0 <= i < s.len() && s[i] == x;
        assert(i != 0);
        assert(t[i - 1] == x);
    }
}

/// Two strictly ascending sequences with the same members are the same
/// sequence: a sorted, deduplicated sequence is determined by its member set.
pub proof fn lemma_sorted_same_members(a: Seq<u64>, b: Seq<u64>)
    requires
        strictly_sorted(a),
        strictly_sorted(b),
        forall|x: u64| a.contains(x) <==> b.contains(x),
    ensures
        a == b,
    decreases a.len(),
{
    if a.len() == 0 {
        if b.len() > 0 {
            assert(b.contains(b[0]));
        }
        assert(a =~= b);
    } else {
        assert(a.contains(a[0]));
        assert(b.len() > 0) by {
            assert(b.contains(a[0]));
        }
        assert(b.contains(b[0]));
        lemma_sorted_first_min(a);
        lemma_sorted_first_min(b);
        assert(a[0] == b[0]);
        lemma_sorted_tail_members(a);
        lemma_sorted_tail_members(b);
        assert forall|x: u64| a.drop_first().contains(x) <==> b.drop_first().contains(x) by {
            assert(a.contains(x) <==> b.contains(x));
        }
        lemma_sorted_same_members(a.drop_first(), b.drop_first());
        assert(a.len() == b.len());
        assert forall|i: int| 0 <= i < a.len() implies a[i] == b[i] by {
            if i > 0 {
                assert(a.drop_first()[i - 1] == b.drop_first()[i - 1]);
            }
        }
        assert(a =~= b);
    }
}

/// Membership in a sequence extended by one element.
pub proof fn lemma_push_contains(s: Seq<u64>, v: u64, x: u64)
    ensures
        s.push(v).contains(x) <==> (s.contains(x) || x == v),
{
    if s.push(v).contains(x) {
        let p = choose|p: int| 0 <= p < s.push(v).len() && s.push(v)[p] == x;
        if p < s.len() {
            assert(s[p] == x);
        }
    }
    if s.contains(x) {
        let p = choose|p: int| 0 <= p < s.len() && s[p] == x;
        assert(s.push(v)[p] == x);
    }
    if x == v {
        assert(s.push(v)[s.len() as int] == x);
    }
}

/// Appending an element above everything in a strictly ascending sequence
/// keeps it strictly ascending.
pub proof fn lemma_sorted_push(s: Seq<u64>, v: u64)
    requires
        strictly_sorted(s),
        forall|x: u64| s.contains(x) ==> x < v,
    ensures
        strictly_sorted(s.push(v)),
        forall|x: u64| s.push(v).contains(x) <==> (s.contains(x) || x == v),
{
    let t = s.push(v);
    assert forall|i: int, j: int| 0 <= i < j < t.len() implies t[i] < t[j] by {
        if j < s.len() {
        } else {
            assert(s.contains(s[i]));
        }
    }
    assert forall|x: u64| t.contains(x) implies (s.contains(x) || x == v) by {
        let p = choose|p: int| 0 <= p < t.len() && t[p] == x;
        if p < s.len() {
            assert(s[p] == x);
        }
    }
    assert forall|x: u64| s.contains(x) || x == v implies t.contains(x) by {
        if s.contains(x) {
            let p = choose|p: int| 0 <= p < s.len() && s[p] == x;
            assert(t[p] == x);
        } else {
            assert(t[s.len() as int] == x);
        }
    }
}

/// Intersection is commutative: results computed from the two argument
/// orders are the same sequence.
pub proof fn lemma_intersection_commutative(a: Seq<u64>, b: Seq<u64>, r1: Seq<u64>, r2: Seq<u64>)
    requires
        is_intersection(a, b, r1),
        is_intersection(b, a, r2),
    ensures
        r1 == r2,
{
    lemma_sorted_same_members(r1, r2);
}

/// Intersection is associative: intersecting `a` and `b` first, then `c`,
/// gives the same sequence as intersecting `a` with the intersection of
/// `b` and `c`.
pub proof fn lemma_intersection_associative(
    a: Seq<u64>,
    b: Seq<u64>,
    c: Seq<u64>,
    ab: Seq<u64>,
    bc: Seq<u64>,
    l: Seq<u64>,
    r: Seq<u64>,
)
    requires
        is_intersection(a, b, ab),
        is_intersection(ab, c, l),
        is_intersection(b, c, bc),
        is_intersection(a, bc, r),
    ensures
        l == r,
{
    lemma_sorted_same_members(l, r);
}

/// Intersection is idempotent: a strictly ascending sequence is its own
/// intersection with itself.
pub proof fn lemma_intersection_idempotent(a: Seq<u64>)
    requires
        strictly_sorted(a),
    ensures
        is_intersection(a, a, a),
{
}

/// Intersection of strictly ascending sequences by one linear merge.
pub fn intersect(a: &Vec<u64>, b: &Vec<u64>) -> (r: Vec<u64>)
    requires
        strictly_sorted(a@),
        strictly_sorted(b@),
    ensures
        is_intersection(a@, b@, r@),
{
    let mut i: usize = 0;
    let mut j: usize = 0;
    let mut r: Vec<u64> = Vec::new();
    while i < a.len() && j < b.len()
        invariant
            strictly_sorted(a@),
            strictly_sorted(b@),
            strictly_sorted(r@),
            i <= a.len(),
            j <= b.len(),
            forall|x: u64| #[trigger] r@.contains(x) <==> (a@.contains(x) && b@.contains(x)
                && (in_prefix(a@, i as int, x) || in_prefix(b@, j as int, x))),
        decreases a.len() - i + b.len() - j,
    {
        proof {
            lemma_prefix_step(a@, i as int);
            lemma_prefix_step(b@, j as int);
            lemma_prefix_bound(a@, i as int);
            lemma_prefix_bound(b@, j as int);
        }
        if a[i] < b[j] {
            proof {
                let v = a@[i as int];
                if b@.contains(v) {
                    assert(in_prefix(b@, j as int, v));
                }
            }
            i = i + 1;
        } else if a[i] == b[j] {
            let v = a[i];
            let ghost prev = r@;
            proof {
                assert forall|x: u64| r@.contains(x) implies x < v by {
                    assert(a@.contains(x) && b@.contains(x)
                        && (in_prefix(a@, i as int, x) || in_prefix(b@, j as int, x)));
                }
                lemma_sorted_push(r@, v);
            }
            r.push(v);
            proof {
                assert forall|x: u64| #[trigger] r@.contains(x) <==> (a@.contains(x)
                    && b@.contains(x) && (in_prefix(a@, i + 1 as int, x)
                    || in_prefix(b@, j + 1 as int, x))) by {
                    lemma_push_contains(prev, v, x);
                    assert(r@ == prev.push(v));
                    assert(a@.contains(v));
                    assert(b@.contains(v));
                }
            }
            i = i + 1;
            j = j + 1;
        } else {
            proof {
                let v = b@[j as int];
                if a@.contains(v) {
                    assert(in_prefix(a@, i as int, v));
                }
            }
            j = j + 1;
        }
    }
    proof {
        lemma_prefix_full(a@);
        lemma_prefix_full(b@);
        if i == a.len() {
            assert forall|x: u64| a@.contains(x) && b@.contains(x) implies r@.contains(x) by {
                assert(in_prefix(a@, i as int, x));
            }
        } else {
            assert forall|x: u64| a@.contains(x) && b@.contains(x) implies r@.contains(x) by {
                assert(in_prefix(b@, j as int, x));
            }
        }
    }
    r
}

/// Union of strictly ascending sequences by one linear merge.
pub fn union_sorted(a: &Vec<u64>, b: &Vec<u64>) -> (r: Vec<u64>)
    requires
        strictly_sorted(a@),
        strictly_sorted(b@),
    ensures
        is_union(a@, b@, r@),
{
    let mut i: usize = 0;
    let mut j: usize = 0;
    let mut r: Vec<u64> = Vec::new();
    while i < a.len() || j < b.len()
        invariant
            strictly_sorted(a@),
            strictly_sorted(b@),
            strictly_sorted(r@),
            i <= a.len(),
            j <= b.len(),
            forall|x: u64| #[trigger] r@.contains(x) <==> (in_prefix(a@, i as int, x)
                || in_prefix(b@, j as int, x)),
            forall|x: u64| r@.contains(x) && i < a.len() ==> x < a@[i as int],
            forall|x: u64| r@.contains(x) && j < b.len() ==> x < b@[j as int],
        decreases a.len() - i + b.len() - j,
    {
        let take_a: bool = if i < a.len() {
            if j < b.len() {
                a[i] <= b[j]
            } else {
                true
            }
        } else {
            false
        };
        proof {
            if i < a.len() {
                lemma_prefix_step(a@, i as int);
                lemma_prefix_bound(a@, i as int);
            }
            if j < b.len() {
                lemma_prefix_step(b@, j as int);
                lemma_prefix_bound(b@, j as int);
            }
        }
        let ghost prev = r@;
        if take_a {
            let v = a[i];
            if j < b.len() && b[j] == v {
                proof {
                    lemma_sorted_push(r@, v);
                }
                r.push(v);
                proof {
                    assert forall|x: u64| #[trigger] r@.contains(x) <==> (in_prefix(a@,
                        i + 1 as int, x) || in_prefix(b@, j + 1 as int, x)) by {
                        lemma_push_contains(prev, v, x);
                        assert(r@ == prev.push(v));
                    }
                    assert forall|x: u64| r@.contains(x) && i + 1 < a.len()
                        implies x < a@[i + 1] by {
                        lemma_push_contains(prev, v, x);
                        if x != v {
                            assert(prev.contains(x));
                        }
                        assert(a@[i as int] < a@[i + 1]);
                    }
                    assert forall|x: u64| r@.contains(x) && j + 1 < b.len()
                        implies x < b@[j + 1] by {
                        lemma_push_contains(prev, v, x);
                        if x != v {
                            assert(prev.contains(x));
                        }
                        assert(b@[j as int] < b@[j + 1]);
                    }
                }
                i = i + 1;
                j = j + 1;
            } else {
                proof {
                    lemma_sorted_push(r@, v);
                }
                r.push(v);
                proof {
                    assert forall|x: u64| #[trigger] r@.contains(x) <==> (in_prefix(a@,
                        i + 1 as int, x) || in_prefix(b@, j as int, x)) by {
                        lemma_push_contains(prev, v, x);
                        assert(r@ == prev.push(v));
                    }
                    assert forall|x: u64| r@.contains(x) && i + 1 < a.len()
                        implies x < a@[i + 1] by {
                        lemma_push_contains(prev, v, x);
                        if x != v {
                            assert(prev.contains(x));
                        }
                        assert(a@[i as int] < a@[i + 1]);
                    }
                    assert forall|x: u64| r@.contains(x) && j < b.len()
                        implies x < b@[j as int] by {
                        lemma_push_contains(prev, v, x);
                        if x != v {
                            assert(prev.contains(x));
                        }
                    }
                }
                i = i + 1;
            }
        } else {
            let v = b[j];
            proof {
                lemma_sorted_push(r@, v);
            }
            r.push(v);
            proof {
                assert forall|x: u64| #[trigger] r@.contains(x) <==> (in_prefix(a@, i as int, x)
                    || in_prefix(b@, j + 1 as int, x)) by {
                    lemma_push_contains(prev, v, x);
                    assert(r@ == prev.push(v));
                }
                assert forall|x: u64| r@.contains(x) && i < a.len()
                    implies x < a@[i as int] by {
                    lemma_push_contains(prev, v, x);
                    if x != v {
                        assert(prev.contains(x));
                    }
                }
                assert forall|x: u64| r@.contains(x) && j + 1 < b.len()
                    implies x < b@[j + 1] by {
                    lemma_push_contains(prev, v, x);
                    if x != v {
                        assert(prev.contains(x));
                    }
                    assert(b@[j as int] < b@[j + 1]);
                }
            }
            j = j + 1;
        }
    }
    proof {
        lemma_prefix_full(a@);
        lemma_prefix_full(b@);
    }
    r
}

/// Insert `x` into a strictly ascending vector, keeping it strictly
/// ascending; inserting a present element changes nothing.
pub fn insert_sorted(v: &mut Vec<u64>, x: u64)
    requires
        strictly_sorted(old(v)@),
    ensures
        strictly_sorted(final(v)@),
        forall|y: u64| final(v)@.contains(y) <==> (old(v)@.contains(y) || y == x),
{
    let ghost orig = v@;
    let mut p: usize = 0;
    while p < v.len() && v[p] < x
        invariant
            v@ == orig,
            p <= v.len(),
            forall|q: int| 0 <= q < p ==> v@[q] < x,
        decreases v.len() - p,
    {
        p = p + 1;
    }
    if p < v.len() && v[p] == x {
        proof {
            assert(v@[p as int] == x);
            assert(v@.contains(x));
        }
        return;
    }
    v.insert(p, x);
    proof {
        assert(v@ == orig.insert(p as int, x));
        assert forall|i: int, j: int| 0 <= i < j < v@.len() implies v@[i] < v@[j] by {
            if i < p && j == p {
            } else if i == p && j > p {
                assert(v@[j] == orig[j - 1]);
                assert(orig[j - 1] >= x);
                if p < orig.len() {
                    assert(orig[p as int] != x);
                    if j - 1 > p {
                        assert(orig[p as int] < orig[j - 1]);
                    }
                    assert(orig[j - 1] > x);
                } else {
                    assert(false);
                }
            } else if i < p && j > p {
                assert(v@[i] == orig[i]);
                assert(v@[j] == orig[j - 1]);
                assert(orig[i] < x);
                if p < orig.len() {
                    if j - 1 > p {
                        assert(orig[p as int] < orig[j - 1]);
                    }
                    assert(orig[j - 1] > x || orig[j - 1] == x);
                    assert(orig[j - 1] >= x);
                } else {
                    assert(false);
                }
                assert(v@[i] < v@[j]);
            } else if i < p && j < p {
                assert(v@[i] == orig[i] && v@[j] == orig[j]);
            } else {
                assert(i > p && j > p);
                assert(v@[i] == orig[i - 1] && v@[j] == orig[j - 1]);
            }
        }
        assert forall|y: u64| #[trigger] v@.contains(y) <==> (orig.contains(y) || y == x) by {
            if v@.contains(y) {
                let q = choose|q: int| 0 <= q < v@.len() && v@[q] == y;
                if q < p {
                    assert(orig[q] == y);
                    assert(orig.contains(y));
                } else if q > p {
                    assert(orig[q - 1] == y);
                    assert(orig.contains(y));
                }
            }
            if orig.contains(y) {
                let q = choose|q: int| 0 <= q < orig.len() && orig[q] == y;
                if q < p {
                    assert(v@[q] == y);
                } else {
                    assert(v@[q + 1] == y);
                }
                assert(v@.contains(y));
            }
            if y == x {
                assert(v@[p as int] == y);
                assert(v@.contains(y));
            }
        }
    }
}

/// Whether `x` occurs in `v`.
pub fn contains_u64(v: &Vec<u64>, x: u64) -> (r: bool)
    ensures
        r == v@.contains(x),
{
    let mut i: usize = 0;
    while i < v.len()
        invariant
            i <= v.len(),
            forall|q: int| 0 <= q < i ==> v@[q] != x,
        decreases v.len() - i,
    {
        if v[i] == x {
            return true;
        }
        i = i + 1;
    }
    false
}

} // verus!
