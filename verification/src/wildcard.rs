//! Classification of query terms.  A term is either literal, a pattern
//! wrapped in wildcards on both ends, or a pattern with exactly one
//! wildcard; anything else is unsupported.

use vstd::prelude::*;
use crate::kgram::{anchor_left, anchor_left_vec, anchor_right, anchor_right_vec, kgrams, kgrams_vec};
use crate::text::views;

verus! {

/// `q` holds at least one wildcard.
pub open spec fn has_star(q: Seq<char>) -> bool {
    exists|i: int| 0 <= i < q.len() && q[i] == '*'
}

/// `q` is wildcards only.
pub open spec fn all_stars(q: Seq<char>) -> bool {
    forall|i: int| 0 <= i < q.len() ==> q[i] == '*'
}

/// `q` holds exactly one wildcard.
pub open spec fn one_star(q: Seq<char>) -> bool {
    exists|p: int|
        0 <= p < q.len() && q[p] == '*' && (forall|i: int|
            0 <= i < q.len() && i != p ==> q[i] != '*')
}

/// The position of the one wildcard of `q`.
pub open spec fn star_pos(q: Seq<char>) -> int {
    choose|p: int|
        0 <= p < q.len() && q[p] == '*' && (forall|i: int|
            0 <= i < q.len() && i != p ==> q[i] != '*')
}

/// `q` starts and ends with a wildcard and is long enough to wrap a body.
pub open spec fn both_ends(q: Seq<char>) -> bool {
    q.len() >= 3 && q[0] == '*' && q.last() == '*'
}

/// `q` without its leading wildcards.
pub open spec fn strip_lead(q: Seq<char>) -> Seq<char>
    decreases q.len(),
{
    if q.len() > 0 && q[0] == '*' {
        strip_lead(q.skip(1))
    } else {
        q
    }
}

/// `q` without its trailing wildcards.
pub open spec fn strip_trail(q: Seq<char>) -> Seq<char>
    decreases q.len(),
{
    if q.len() > 0 && q.last() == '*' {
        strip_trail(q.drop_last())
    } else {
        q
    }
}

/// `q` without leading and trailing wildcards.
pub open spec fn strip_stars(q: Seq<char>) -> Seq<char> {
    strip_trail(strip_lead(q))
}

/// A term that no query may hold: wildcards only, a wrapped pattern whose
/// body still holds a wildcard, or several wildcards not of the wrapped
/// form.
pub open spec fn q_bad(q: Seq<char>) -> bool {
    has_star(q) && (all_stars(q) || (both_ends(q) && has_star(strip_stars(q))) || (!both_ends(q)
        && !one_star(q)))
}

/// The part of a one-wildcard pattern before the wildcard.
pub open spec fn left_of(q: Seq<char>) -> Seq<char> {
    q.take(star_pos(q))
}

/// The part of a one-wildcard pattern after the wildcard.
pub open spec fn right_of(q: Seq<char>) -> Seq<char> {
    q.skip(star_pos(q) + 1)
}

/// The k-grams a wildcard pattern requires of every candidate term: the
/// windows of the stripped body for a wrapped pattern, else the windows of
/// the `$`-anchored left and right fragments.
pub open spec fn q_grams(q: Seq<char>, k: int) -> Seq<Seq<char>> {
    if both_ends(q) && !has_star(strip_stars(q)) {
        kgrams(strip_stars(q), k)
    } else {
        kgrams(anchor_left(left_of(q)), k) + kgrams(anchor_right(right_of(q)), k)
    }
}

/// Stripping the run of `a` leading wildcards is dropping them.
pub proof fn lemma_strip_lead(q: Seq<char>, a: int)
    requires
        0 <= a <= q.len(),
        forall|i: int| 0 <= i < a ==> q[i] == '*',
        a == q.len() || q[a] != '*',
    ensures
        strip_lead(q) == q.skip(a),
    decreases a,
{
    if a == 0 {
        assert(q.skip(0) =~= q);
        if q.len() > 0 && q[0] == '*' {
            assert(false);
        }
    } else {
        assert(q[0] == '*');
        assert(q.len() > 0);
        let q2 = q.skip(1);
        assert forall|i: int| 0 <= i < a - 1 implies q2[i] == '*' by {
            assert(q2[i] == q[i + 1]);
        }
        if a - 1 < q2.len() {
            assert(q2[a - 1] == q[a as int]);
        }
        lemma_strip_lead(q2, a - 1);
        assert(q2.skip(a - 1) =~= q.skip(a));
    }
}

/// Stripping the run of trailing wildcards after position `b` is cutting
/// there.
pub proof fn lemma_strip_trail(q: Seq<char>, b: int)
    requires
        0 <= b <= q.len(),
        forall|i: int| b <= i < q.len() ==> q[i] == '*',
        b == 0 || q[b - 1] != '*',
    ensures
        strip_trail(q) == q.take(b),
    decreases q.len() - b,
{
    if b == q.len() {
        assert(q.take(b) =~= q);
        if q.len() > 0 && q.last() == '*' {
            assert(q[q.len() - 1] != '*');
            assert(false);
        }
    } else {
        assert(q.last() == '*');
        let q2 = q.drop_last();
        assert forall|i: int| b <= i < q2.len() implies q2[i] == '*' by {
            assert(q2[i] == q[i]);
        }
        if b > 0 {
            assert(q2[b - 1] == q[b - 1]);
        }
        lemma_strip_trail(q2, b);
        assert(q2.take(b) =~= q.take(b));
    }
}

/// Copy the characters of `v` between `from` and `to`.
pub fn sub_chars(v: &Vec<char>, from: usize, to: usize) -> (r: Vec<char>)
    requires
        from <= to <= v@.len(),
    ensures
        r@ == v@.subrange(from as int, to as int),
{
    let mut r: Vec<char> = Vec::new();
    let mut i: usize = from;
    while i < to
        invariant
            from <= i <= to <= v@.len(),
            r@ == v@.subrange(from as int, i as int),
        decreases to - i,
    {
        let c = v[i];
        r.push(c);
        proof {
            assert(r@ =~= v@.subrange(from as int, i + 1));
        }
        i = i + 1;
    }
    r
}

/// Whether `q` holds a wildcard.
pub fn has_star_vec(q: &Vec<char>) -> (r: bool)
    ensures
        r == has_star(q@),
{
    let mut i: usize = 0;
    while i < q.len()
        invariant
            i <= q@.len(),
            forall|p: int| 0 <= p < i ==> q@[p] != '*',
        decreases q.len() - i,
    {
        if q[i] == '*' {
            return true;
        }
        i = i + 1;
    }
    proof {
        if has_star(q@) {
            let p = choose|p: int| 0 <= p < q@.len() && q@[p] == '*';
        }
    }
    false
}

/// How a query term is handled: its fragments' k-grams, or its rejection.
pub enum TermShape {
    /// No wildcard: look the token up directly.
    Literal,
    /// The k-grams every candidate term must contain.
    Grams(Vec<Vec<char>>),
    /// An unsupported pattern.
    Bad,
}

/// Classify one query term and, for a wildcard pattern, compute the
/// k-grams every candidate term must contain.
pub fn classify(q: &Vec<char>, k: usize) -> (r: TermShape)
    requires
        k >= 1,
    ensures
        match r {
            TermShape::Literal => !has_star(q@),
            TermShape::Bad => q_bad(q@),
            TermShape::Grams(g) => has_star(q@) && !q_bad(q@) && views(g@) == q_grams(
                q@,
                k as int,
            ),
        },
{
    if !has_star_vec(q) {
        return TermShape::Literal;
    }
    // length of the leading wildcard run
    let mut a: usize = 0;
    while a < q.len() && q[a] == '*'
        invariant
            a <= q@.len(),
            forall|i: int| 0 <= i < a ==> q@[i] == '*',
        decreases q.len() - a,
    {
        a = a + 1;
    }
    if a == q.len() {
        return TermShape::Bad;
    }
    // end of the part before the trailing wildcard run
    let mut b: usize = q.len();
    while b > 0 && q[b - 1] == '*'
        invariant
            b <= q@.len(),
            forall|i: int| b <= i < q@.len() ==> q@[i] == '*',
        decreases b,
    {
        b = b - 1;
    }
    proof {
        if b <= a {
            assert(q@[a as int] == '*');
            assert(false);
        }
        lemma_strip_lead(q@, a as int);
        let q2 = q@.skip(a as int);
        assert forall|i: int| b - a <= i < q2.len() implies q2[i] == '*' by {
            assert(q2[i] == q@[i + a]);
        }
        assert(q2[b - a - 1] == q@[b - 1]);
        lemma_strip_trail(q2, b - a);
        assert(q2.take(b - a) =~= q@.subrange(a as int, b as int));
        assert(strip_stars(q@) == q@.subrange(a as int, b as int));
    }
    let is_wrapped: bool = q.len() >= 3 && q[0] == '*' && q[q.len() - 1] == '*';
    proof {
        assert(is_wrapped == both_ends(q@));
    }
    if is_wrapped {
        let mid = sub_chars(q, a, b);
        if has_star_vec(&mid) {
            return TermShape::Bad;
        }
        let g = kgrams_vec(&mid, k);
        proof {
            assert(views(g@) == q_grams(q@, k as int));
        }
        return TermShape::Grams(g);
    }
    // exactly one wildcard, or unsupported
    let mut p: usize = 0;
    while p < q.len() && q[p] != '*'
        invariant
            p <= q@.len(),
            forall|i: int| 0 <= i < p ==> q@[i] != '*',
        decreases q.len() - p,
    {
        p = p + 1;
    }
    proof {
        if p == q@.len() {
            let w = choose|i: int| 0 <= i < q@.len() && q@[i] == '*';
            assert(false);
        }
    }
    let mut p2: usize = p + 1;
    while p2 < q.len() && q[p2] != '*'
        invariant
            p < p2 <= q@.len(),
            q@[p as int] == '*',
            forall|i: int| p < i < p2 ==> q@[i] != '*',
        decreases q.len() - p2,
    {
        p2 = p2 + 1;
    }
    if p2 < q.len() {
        // a second wildcard not of the wrapped form
        proof {
            assert(q@[p2 as int] == '*');
            if one_star(q@) {
                let po = choose|po: int|
                    0 <= po < q@.len() && q@[po] == '*' && (forall|i: int|
                        0 <= i < q@.len() && i != po ==> q@[i] != '*');
                if po != p {
                    assert(q@[p as int] != '*');
                } else {
                    assert(q@[p2 as int] != '*');
                }
                assert(false);
            }
        }
        return TermShape::Bad;
    }
    proof {
        assert(one_star(q@)) by {
            assert(q@[p as int] == '*');
            assert(forall|i: int| 0 <= i < q@.len() && i != p ==> q@[i] != '*');
        }
        assert(star_pos(q@) == p) by {
            let po = star_pos(q@);
            assert(0 <= po < q@.len() && q@[po] == '*');
            if po != p {
                assert(q@[po] != '*');
                assert(false);
            }
        }
    }
    let left = sub_chars(q, 0, p);
    let right = sub_chars(q, p + 1, q.len());
    proof {
        assert(left@ =~= left_of(q@));
        assert(right@ =~= right_of(q@));
    }
    let al = anchor_left_vec(&left);
    let ar = anchor_right_vec(&right);
    let mut g = kgrams_vec(&al, k);
    let mut g2 = kgrams_vec(&ar, k);
    let ghost ga = views(g@);
    let ghost gb = views(g2@);
    g.append(&mut g2);
    proof {
        assert(views(g@) =~= ga + gb);
        assert(views(g@) == q_grams(q@, k as int));
    }
    TermShape::Grams(g)
}

/// The maximal non-empty runs of non-wildcard characters of a pattern,
/// given the run `cur` accumulated so far: the pieces the post-filter
/// checks against document bodies.
pub open spec fn pieces_acc(s: Seq<char>, cur: Seq<char>) -> Seq<Seq<char>>
    decreases s.len(),
{
    if s.len() == 0 {
        if cur.len() == 0 {
            Seq::empty()
        } else {
            seq![cur]
        }
    } else if s[0] == '*' {
        if cur.len() == 0 {
            pieces_acc(s.skip(1), Seq::empty())
        } else {
            seq![cur] + pieces_acc(s.skip(1), Seq::empty())
        }
    } else {
        pieces_acc(s.skip(1), cur.push(s[0]))
    }
}

/// The non-empty pieces of a pattern between its wildcards.
pub open spec fn pieces(q: Seq<char>) -> Seq<Seq<char>> {
    pieces_acc(q, Seq::empty())
}

/// Split a pattern on its wildcards into its non-empty pieces.
pub fn pieces_vec(q: &Vec<char>) -> (r: Vec<Vec<char>>)
    ensures
        views(r@) == pieces(q@),
{
    let mut done: Vec<Vec<char>> = Vec::new();
    let mut cur: Vec<char> = Vec::new();
    let mut i: usize = 0;
    proof {
        assert(q@.skip(0) =~= q@);
        assert(cur@ =~= Seq::<char>::empty());
        assert(views(done@) + pieces_acc(q@, cur@) =~= pieces_acc(q@, Seq::empty()));
    }
    while i < q.len()
        invariant
            i <= q@.len(),
            pieces(q@) == views(done@) + pieces_acc(q@.skip(i as int), cur@),
        decreases q.len() - i,
    {
        let ghost rest = q@.skip(i as int);
        proof {
            assert(rest[0] == q@[i as int]);
            assert(rest.skip(1) =~= q@.skip(i + 1));
        }
        if q[i] == '*' {
            if cur.len() > 0 {
                let ghost prev = done@;
                done.push(cur);
                cur = Vec::new();
                proof {
                    assert(views(done@) =~= views(prev).push(done@[done@.len() - 1]@));
                    assert(views(done@) + pieces_acc(q@.skip(i + 1), cur@) =~= pieces(q@));
                }
            } else {
                proof {
                    assert(cur@ =~= Seq::<char>::empty());
                    assert(pieces_acc(rest, cur@) == pieces_acc(q@.skip(i + 1), cur@));
                    assert(views(done@) + pieces_acc(q@.skip(i + 1), cur@) =~= pieces(q@));
                }
            }
        } else {
            let c = q[i];
            cur.push(c);
            proof {
                assert(views(done@) + pieces_acc(q@.skip(i + 1), cur@) =~= pieces(q@));
            }
        }
        i = i + 1;
    }
    if cur.len() > 0 {
        let ghost prev = done@;
        done.push(cur);
        proof {
            assert(q@.skip(i as int) =~= Seq::<char>::empty());
            assert(views(done@) =~= views(prev).push(done@[done@.len() - 1]@));
            assert(views(done@) =~= pieces(q@));
        }
    } else {
        proof {
            assert(q@.skip(i as int) =~= Seq::<char>::empty());
            assert(views(done@) =~= pieces(q@));
        }
    }
    done
}

} // verus!
