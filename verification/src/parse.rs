//! The corpus row grammar: a tab-separated line holding a numeric id, a
//! user id, a user name and a body, in that order.  A line that does not
//! fit this four-field schema is malformed and skipped by the loader.

use vstd::prelude::*;
use crate::SearchError;
use crate::index::Document;
use crate::text::{chars_vec, is_space, is_space_char, string_from_chars, views};
use crate::wildcard::sub_chars;

verus! {

/// A decimal digit.
pub open spec fn is_digit(c: char) -> bool {
    '0' <= c && c <= '9'
}

/// The tab-separated fields of a line, with the field `cur` accumulated so
/// far.  Empty fields are kept: a line has one field more than it has
/// tabs.
pub open spec fn fields_acc(s: Seq<char>, cur: Seq<char>) -> Seq<Seq<char>>
    decreases s.len(),
{
    if s.len() == 0 {
        seq![cur]
    } else if s[0] == '\t' {
        seq![cur] + fields_acc(s.skip(1), Seq::empty())
    } else {
        fields_acc(s.skip(1), cur.push(s[0]))
    }
}

/// The tab-separated fields of a line.
pub open spec fn fields_of(s: Seq<char>) -> Seq<Seq<char>> {
    fields_acc(s, Seq::empty())
}

/// Every character is a decimal digit.
pub open spec fn all_digits(s: Seq<char>) -> bool {
    forall|i: int| 0 <= i < s.len() ==> is_digit(s[i])
}

/// The base-ten value of a digit string.
pub open spec fn digits_val(s: Seq<char>) -> int
    decreases s.len(),
{
    if s.len() == 0 {
        0
    } else {
        digits_val(s.drop_last()) * 10 + (s.last() as int - '0' as int)
    }
}

/// `s` without its leading whitespace.
pub open spec fn trim_lead(s: Seq<char>) -> Seq<char>
    decreases s.len(),
{
    if s.len() > 0 && is_space(s[0]) {
        trim_lead(s.skip(1))
    } else {
        s
    }
}

/// `s` without its trailing whitespace.
pub open spec fn trim_trail(s: Seq<char>) -> Seq<char>
    decreases s.len(),
{
    if s.len() > 0 && is_space(s.last()) {
        trim_trail(s.drop_last())
    } else {
        s
    }
}

/// `s` without leading and trailing whitespace.
pub open spec fn trim(s: Seq<char>) -> Seq<char> {
    trim_trail(trim_lead(s))
}

/// The line fits the schema: four fields; a non-empty, in-range decimal
/// id; a user id starting with `@`; a non-empty user name and body.
pub open spec fn row_ok(line: Seq<char>) -> bool {
    let f = fields_of(line);
    &&& f.len() == 4
    &&& f[0].len() > 0
    &&& all_digits(f[0])
    &&& digits_val(f[0]) <= u64::MAX
    &&& f[1].len() > 0
    &&& f[1][0] == '@'
    &&& f[2].len() > 0
    &&& f[3].len() > 0
}

/// The value of a digit string is non-negative.
proof fn lemma_digits_nonneg(s: Seq<char>)
    requires
        all_digits(s),
    ensures
        digits_val(s) >= 0,
    decreases s.len(),
{
    if s.len() > 0 {
        assert forall|i: int| 0 <= i < s.drop_last().len() implies is_digit(
            #[trigger] s.drop_last()[i],
        ) by {
            assert(s.drop_last()[i] == s[i]);
        }
        lemma_digits_nonneg(s.drop_last());
        assert(is_digit(s.last()));
        assert(digits_val(s.drop_last()) * 10 >= 0) by (nonlinear_arith)
            requires
                digits_val(s.drop_last()) >= 0,
        ;
    }
}

/// Appending digits never lowers the value: a prefix is worth at most the
/// whole string.
proof fn lemma_digits_prefix(s: Seq<char>, j: int)
    requires
        all_digits(s),
        0 <= j <= s.len(),
    ensures
        digits_val(s) >= digits_val(s.take(j)),
    decreases s.len() - j,
{
    if j == s.len() {
        assert(s.take(j) =~= s);
    } else {
        assert forall|i: int| 0 <= i < s.take(j + 1).len() implies is_digit(
            #[trigger] s.take(j + 1)[i],
        ) by {
            assert(s.take(j + 1)[i] == s[i]);
        }
        assert forall|i: int| 0 <= i < s.take(j).len() implies is_digit(
            #[trigger] s.take(j)[i],
        ) by {
            assert(s.take(j)[i] == s[i]);
        }
        assert(s.take(j + 1).drop_last() =~= s.take(j));
        assert(s.take(j + 1).last() == s[j]);
        assert(digits_val(s.take(j + 1)) == digits_val(s.take(j)) * 10 + (s[j] as int
            - '0' as int));
        lemma_digits_nonneg(s.take(j));
        assert(digits_val(s.take(j)) * 10 >= digits_val(s.take(j))) by (nonlinear_arith)
            requires
                digits_val(s.take(j)) >= 0,
        ;
        assert(is_digit(s[j]));
        assert(digits_val(s.take(j + 1)) >= digits_val(s.take(j)));
        lemma_digits_prefix(s, j + 1);
    }
}

/// Split a line on tabs, keeping empty fields.
fn fields_vec(s: &Vec<char>) -> (r: Vec<Vec<char>>)
    ensures
        views(r@) == fields_of(s@),
{
    let mut done: Vec<Vec<char>> = Vec::new();
    let mut cur: Vec<char> = Vec::new();
    let mut i: usize = 0;
    proof {
        assert(s@.skip(0) =~= s@);
        assert(cur@ =~= Seq::<char>::empty());
        assert(views(done@) + fields_acc(s@, cur@) =~= fields_acc(s@, Seq::empty()));
    }
    while i < s.len()
        invariant
            i <= s@.len(),
            fields_of(s@) == views(done@) + fields_acc(s@.skip(i as int), cur@),
        decreases s.len() - i,
    {
        let ghost rest = s@.skip(i as int);
        proof {
            assert(rest[0] == s@[i as int]);
            assert(rest.skip(1) =~= s@.skip(i + 1));
        }
        if s[i] == '\t' {
            let ghost prev = done@;
            done.push(cur);
            cur = Vec::new();
            proof {
                assert(views(done@) =~= views(prev).push(done@[done@.len() - 1]@));
                assert(cur@ =~= Seq::<char>::empty());
                assert(views(done@) + fields_acc(s@.skip(i + 1), cur@) =~= fields_of(s@));
            }
        } else {
            let c = s[i];
            cur.push(c);
            proof {
                assert(views(done@) + fields_acc(s@.skip(i + 1), cur@) =~= fields_of(s@));
            }
        }
        i = i + 1;
    }
    let ghost prev = done@;
    done.push(cur);
    proof {
        assert(s@.skip(i as int) =~= Seq::<char>::empty());
        assert(views(done@) =~= views(prev).push(done@[done@.len() - 1]@));
        assert(views(done@) =~= fields_of(s@));
    }
    done
}

/// Trim leading and trailing whitespace.
fn trim_vec(s: &Vec<char>) -> (r: Vec<char>)
    ensures
        r@ == trim(s@),
{
    let mut a: usize = 0;
    while a < s.len() && is_space_char(s[a])
        invariant
            a <= s@.len(),
            forall|i: int| 0 <= i < a ==> is_space(s@[i]),
        decreases s.len() - a,
    {
        a = a + 1;
    }
    proof {
        lemma_trim_lead(s@, a as int);
    }
    if a == s.len() {
        let r: Vec<char> = Vec::new();
        proof {
            assert(s@.skip(a as int) =~= Seq::<char>::empty());
            assert(trim(s@) =~= Seq::<char>::empty());
            assert(r@ =~= trim(s@));
        }
        return r;
    }
    let mut b: usize = s.len();
    while b > 0 && is_space_char(s[b - 1])
        invariant
            b <= s@.len(),
            forall|i: int| b <= i < s@.len() ==> is_space(s@[i]),
        decreases b,
    {
        b = b - 1;
    }
    proof {
        if b <= a {
            assert(is_space(s@[a as int]));
            assert(false);
        }
        let q2 = s@.skip(a as int);
        assert forall|i: int| b - a <= i < q2.len() implies is_space(q2[i]) by {
            assert(q2[i] == s@[i + a]);
        }
        assert(q2[b - a - 1] == s@[b - 1]);
        lemma_trim_trail(q2, b - a);
        assert(q2.take(b - a) =~= s@.subrange(a as int, b as int));
        assert(trim(s@) == s@.subrange(a as int, b as int));
    }
    sub_chars(s, a, b)
}

/// Dropping a run of leading whitespace is skipping it.
proof fn lemma_trim_lead(q: Seq<char>, a: int)
    requires
        0 <= a <= q.len(),
        forall|i: int| 0 <= i < a ==> is_space(q[i]),
        a == q.len() || !is_space(q[a]),
    ensures
        trim_lead(q) == q.skip(a),
    decreases a,
{
    if a == 0 {
        assert(q.skip(0) =~= q);
        if q.len() > 0 && is_space(q[0]) {
            assert(false);
        }
    } else {
        assert(is_space(q[0]));
        let q2 = q.skip(1);
        assert forall|i: int| 0 <= i < a - 1 implies is_space(q2[i]) by {
            assert(q2[i] == q[i + 1]);
        }
        if a - 1 < q2.len() {
            assert(q2[a - 1] == q[a as int]);
        }
        lemma_trim_lead(q2, a - 1);
        assert(q2.skip(a - 1) =~= q.skip(a));
    }
}

/// Cutting a run of trailing whitespace is taking the part before it.
proof fn lemma_trim_trail(q: Seq<char>, b: int)
    requires
        0 <= b <= q.len(),
        forall|i: int| b <= i < q.len() ==> is_space(q[i]),
        b == 0 || !is_space(q[b - 1]),
    ensures
        trim_trail(q) == q.take(b),
    decreases q.len() - b,
{
    if b == q.len() {
        assert(q.take(b) =~= q);
        if q.len() > 0 && is_space(q.last()) {
            assert(q[q.len() - 1] == q.last());
            assert(false);
        }
    } else {
        assert(is_space(q.last()));
        let q2 = q.drop_last();
        assert forall|i: int| b <= i < q2.len() implies is_space(q2[i]) by {
            assert(q2[i] == q[i]);
        }
        if b > 0 {
            assert(q2[b - 1] == q[b - 1]);
        }
        lemma_trim_trail(q2, b);
        assert(q2.take(b) =~= q.take(b));
    }
}

/// Parse one corpus line into a row.  Succeeds exactly on lines that fit
/// the four-field schema; the body is trimmed of surrounding whitespace.
pub fn parse_row(line: &str) -> (r: Result<Document, SearchError>)
    ensures
        match r {
            Ok(d) => {
                &&& row_ok(line@)
                &&& d.id == digits_val(fields_of(line@)[0])
                &&& d.user_id@ == fields_of(line@)[1]
                &&& d.user_name@ == fields_of(line@)[2]
                &&& d.body@ == trim(fields_of(line@)[3])
            },
            Err(e) => e == SearchError::CorpusMalformed && !row_ok(line@),
        },
{
    let cv = chars_vec(line);
    let fields = fields_vec(&cv);
    let ghost f = fields_of(line@);
    if fields.len() != 4 {
        return Err(SearchError::CorpusMalformed);
    }
    let f0 = &fields[0];
    proof {
        assert(f0@ == f[0]);
    }
    if f0.len() == 0 {
        return Err(SearchError::CorpusMalformed);
    }
    let mut id: u64 = 0;
    let mut i: usize = 0;
    proof {
        assert(f0@.take(0) =~= Seq::<char>::empty());
    }
    while i < f0.len()
        invariant
            i <= f0@.len(),
            f0@ == f[0],
            f == fields_of(line@),
            fields@.len() == 4,
            views(fields@) == f,
            forall|q: int| 0 <= q < i ==> is_digit(f0@[q]),
            id == digits_val(f0@.take(i as int)),
        decreases f0.len() - i,
    {
        let c = f0[i];
        if !('0' <= c && c <= '9') {
            proof {
                assert(!is_digit(f0@[i as int]));
                assert(!all_digits(f[0]));
            }
            return Err(SearchError::CorpusMalformed);
        }
        let dv: u64 = (c as u32 - 48) as u64;
        proof {
            assert(dv == c as int - '0' as int);
            assert(f0@.take(i + 1).drop_last() =~= f0@.take(i as int));
            assert(f0@.take(i + 1).last() == f0@[i as int]);
            assert(digits_val(f0@.take(i + 1)) == digits_val(f0@.take(i as int)) * 10 + (
            f0@[i as int] as int - '0' as int));
        }
        if id > (u64::MAX - dv) / 10 {
            proof {
                assert(digits_val(f0@.take(i + 1)) > u64::MAX) by (nonlinear_arith)
                    requires
                        digits_val(f0@.take(i + 1)) == id * 10 + dv,
                        id > (u64::MAX - dv) / 10,
                        0 <= dv <= 9,
                ;
                assert forall|q: int| 0 <= q < f0@.take(i + 1).len() implies is_digit(
                    #[trigger] f0@.take(i + 1)[q],
                ) by {
                    assert(f0@.take(i + 1)[q] == f0@[q]);
                }
                if all_digits(f[0]) {
                    lemma_digits_prefix(f[0], i + 1);
                    assert(digits_val(f[0]) > u64::MAX);
                }
                assert(!row_ok(line@));
            }
            return Err(SearchError::CorpusMalformed);
        }
        proof {
            assert(id * 10 + dv <= u64::MAX) by (nonlinear_arith)
                requires
                    id <= (u64::MAX - dv) / 10,
                    0 <= dv <= 9,
                    id >= 0,
            ;
        }
        id = id * 10 + dv;
        i = i + 1;
    }
    proof {
        assert(f0@.take(i as int) =~= f0@);
        assert(all_digits(f[0]));
        assert(id == digits_val(f[0]));
    }
    let f1 = &fields[1];
    proof {
        assert(f1@ == f[1]);
    }
    if f1.len() == 0 || f1[0] != '@' {
        return Err(SearchError::CorpusMalformed);
    }
    let f2 = &fields[2];
    proof {
        assert(f2@ == f[2]);
    }
    if f2.len() == 0 {
        return Err(SearchError::CorpusMalformed);
    }
    let f3 = &fields[3];
    proof {
        assert(f3@ == f[3]);
    }
    if f3.len() == 0 {
        return Err(SearchError::CorpusMalformed);
    }
    let body = trim_vec(f3);
    Ok(Document {
        id,
        user_id: string_from_chars(f1),
        user_name: string_from_chars(f2),
        body: string_from_chars(&body),
    })
}

} // verus!
