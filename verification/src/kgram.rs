//! Character k-grams with `$` anchoring.  Indexed tokens are anchored on
//! both ends; wildcard fragments are anchored only on the side that touches
//! the start or the end of the token.

use vstd::prelude::*;
use crate::text::views;

verus! {

/// `t` with `$` on both ends.
pub open spec fn anchor_both(t: Seq<char>) -> Seq<char> {
    seq!['$'] + t + seq!['$']
}

/// `t` with `$` in front.
pub open spec fn anchor_left(t: Seq<char>) -> Seq<char> {
    seq!['$'] + t
}

/// `t` with `$` behind.
pub open spec fn anchor_right(t: Seq<char>) -> Seq<char> {
    t + seq!['$']
}

/// All length-`k` character windows of `t`, in order; empty when `t` is
/// shorter than `k`.
pub open spec fn kgrams(t: Seq<char>, k: int) -> Seq<Seq<char>> {
    if k <= 0 || t.len() < k {
        Seq::empty()
    } else {
        Seq::new((t.len() - k + 1) as nat, |i: int| t.subrange(i, i + k))
    }
}

/// `t` with `$` on both ends.
pub fn anchor_both_vec(t: &Vec<char>) -> (r: Vec<char>)
    ensures
        r@ == anchor_both(t@),
{
    let mut r: Vec<char> = Vec::new();
    r.push('$');
    let mut i: usize = 0;
    while i < t.len()
        invariant
            i <= t@.len(),
            r@ == seq!['$'] + t@.take(i as int),
        decreases t.len() - i,
    {
        let c = t[i];
        r.push(c);
        proof {
            assert(r@ =~= seq!['$'] + t@.take(i + 1));
        }
        i = i + 1;
    }
    r.push('$');
    proof {
        assert(t@.take(i as int) =~= t@);
        assert(r@ =~= anchor_both(t@));
    }
    r
}

/// `t` with `$` in front.
pub fn anchor_left_vec(t: &Vec<char>) -> (r: Vec<char>)
    ensures
        r@ == anchor_left(t@),
{
    let mut r: Vec<char> = Vec::new();
    r.push('$');
    let mut i: usize = 0;
    while i < t.len()
        invariant
            i <= t@.len(),
            r@ == seq!['$'] + t@.take(i as int),
        decreases t.len() - i,
    {
        let c = t[i];
        r.push(c);
        proof {
            assert(r@ =~= seq!['$'] + t@.take(i + 1));
        }
        i = i + 1;
    }
    proof {
        assert(t@.take(i as int) =~= t@);
        assert(r@ =~= anchor_left(t@));
    }
    r
}

/// `t` with `$` behind.
pub fn anchor_right_vec(t: &Vec<char>) -> (r: Vec<char>)
    ensures
        r@ == anchor_right(t@),
{
    let mut r: Vec<char> = Vec::new();
    let mut i: usize = 0;
    while i < t.len()
        invariant
            i <= t@.len(),
            r@ == t@.take(i as int),
        decreases t.len() - i,
    {
        let c = t[i];
        r.push(c);
        proof {
            assert(r@ =~= t@.take(i + 1));
        }
        i = i + 1;
    }
    r.push('$');
    proof {
        assert(t@.take(i as int) =~= t@);
        assert(r@ =~= anchor_right(t@));
    }
    r
}

/// The length-`k` window of `t` that starts at `i`.
fn window(t: &Vec<char>, i: usize, k: usize) -> (w: Vec<char>)
    requires
        i + k <= t@.len(),
    ensures
        w@ == t@.subrange(i as int, i as int + k as int),
{
    let n = t.len();
    let mut w: Vec<char> = Vec::new();
    let mut j: usize = 0;
    while j < k
        invariant
            n == t@.len(),
            i + k <= t@.len(),
            j <= k,
            w@ == t@.subrange(i as int, i as int + j as int),
        decreases k - j,
    {
        let c = t[i + j];
        w.push(c);
        proof {
            assert(w@ =~= t@.subrange(i as int, i as int + j + 1));
        }
        j = j + 1;
    }
    w
}

/// All length-`k` character windows of `t`, in order.
pub fn kgrams_vec(t: &Vec<char>, k: usize) -> (r: Vec<Vec<char>>)
    requires
        k >= 1,
    ensures
        views(r@) == kgrams(t@, k as int),
{
    let mut r: Vec<Vec<char>> = Vec::new();
    if t.len() < k {
        proof {
            assert(views(r@) =~= kgrams(t@, k as int));
        }
        return r;
    }
    let mut i: usize = 0;
    let last = t.len() - k;
    while i <= last
        invariant
            k >= 1,
            t@.len() >= k,
            last == t@.len() - k,
            i <= last + 1,
            views(r@) == kgrams(t@, k as int).take(i as int),
        decreases t.len() - i,
    {
        let ghost prev = r@;
        let w = window(t, i, k);
        r.push(w);
        proof {
            assert(views(r@) =~= views(prev).push(w@));
            assert(kgrams(t@, k as int)[i as int] == t@.subrange(i as int, i as int + k as int));
            assert(views(r@) =~= kgrams(t@, k as int).take(i + 1));
        }
        i = i + 1;
    }
    proof {
        assert(i == t@.len() - k + 1);
        assert(kgrams(t@, k as int).take(i as int) =~= kgrams(t@, k as int));
    }
    r
}

} // verus!
