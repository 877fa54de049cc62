//! The row store used for the final projection: the corpus rows,
//! deduplicated by full-row equality, and the projector that maps a query
//! result to document bodies, applying the wildcard substring post-filter.

use vstd::prelude::*;
use crate::SearchError;
use crate::index::{str_views, Document, Index};
use crate::sorted::contains_u64;
use crate::text::{chars_vec, views};
use crate::wildcard::{has_star, has_star_vec, pieces, pieces_vec};

verus! {

/// Two rows hold the same values in every field.
pub open spec fn row_eq(a: Document, b: Document) -> bool {
    &&& a.id == b.id
    &&& a.user_id@ == b.user_id@
    &&& a.user_name@ == b.user_name@
    &&& a.body@ == b.body@
}

/// A row equal to `d` occurs in `s`.
pub open spec fn row_in(s: Seq<Document>, d: Document) -> bool {
    exists|i: int| 0 <= i < s.len() && row_eq(s[i], d)
}

/// The rows with every repetition of an already seen row removed, keeping
/// first occurrences in order.
pub open spec fn dedup_rows(rows: Seq<Document>, seen: Seq<Document>) -> Seq<Document>
    decreases rows.len(),
{
    if rows.len() == 0 {
        Seq::empty()
    } else if row_in(seen, rows[0]) {
        dedup_rows(rows.skip(1), seen)
    } else {
        seq![rows[0]] + dedup_rows(rows.skip(1), seen.push(rows[0]))
    }
}

/// `p` occurs in `s` as a contiguous substring.
pub open spec fn has_substring(s: Seq<char>, p: Seq<char>) -> bool {
    exists|i: int| 0 <= i <= s.len() - p.len() && #[trigger] s.subrange(i, i + p.len()) == p
}

/// Whether `needle` occurs in `hay` as a contiguous substring.
pub fn contains_sub(hay: &Vec<char>, needle: &Vec<char>) -> (r: bool)
    ensures
        r == has_substring(hay@, needle@),
{
    if needle.len() == 0 {
        proof {
            assert(hay@.subrange(0, 0 + needle@.len() as int) =~= needle@);
            assert(has_substring(hay@, needle@));
        }
        return true;
    }
    if needle.len() > hay.len() {
        proof {
            if has_substring(hay@, needle@) {
                let i = choose|i: int|
                    0 <= i <= hay@.len() - needle@.len() && #[trigger] hay@.subrange(
                        i,
                        i + needle@.len(),
                    ) == needle@;
            }
        }
        return false;
    }
    let n = hay.len();
    let last = hay.len() - needle.len();
    let mut i: usize = 0;
    while i <= last
        invariant
            n == hay@.len(),
            i <= last + 1,
            last == hay@.len() - needle@.len(),
            needle@.len() >= 1,
            forall|p: int| 0 <= p < i ==> #[trigger] hay@.subrange(p, p + needle@.len())
                != needle@,
        decreases last + 1 - i,
    {
        let w = crate::wildcard::sub_chars(hay, i, i + needle.len());
        if crate::text::eq_chars(&w, needle) {
            proof {
                assert(hay@.subrange(i as int, i as int + needle@.len()) == needle@);
            }
            return true;
        }
        proof {
            assert(hay@.subrange(i as int, i as int + needle@.len()) != needle@);
        }
        i = i + 1;
    }
    proof {
        if has_substring(hay@, needle@) {
            let p = choose|p: int|
                0 <= p <= hay@.len() - needle@.len() && #[trigger] hay@.subrange(
                    p,
                    p + needle@.len(),
                ) == needle@;
            assert(p < i);
        }
    }
    false
}

/// The deduplicated row store that the final projection reads.
pub struct DocStore {
    rows: Vec<Document>,
}

impl DocStore {
    /// The rows, in order.
    pub closed spec fn rows_view(self) -> Seq<Document> {
        self.rows@
    }

    /// Build the store: keep the first occurrence of every row, dropping
    /// repetitions by full-row equality.
    pub fn new(rows: Vec<Document>) -> (s: DocStore)
        ensures
            s.rows_view() == dedup_rows(rows@, Seq::empty()),
    {
        let mut out: Vec<Document> = Vec::new();
        let mut i: usize = 0;
        proof {
            assert(rows@.skip(0) =~= rows@);
            assert(out@ =~= Seq::<Document>::empty());
            assert(out@ + dedup_rows(rows@, out@) =~= dedup_rows(rows@, Seq::empty()));
        }
        while i < rows.len()
            invariant
                i <= rows@.len(),
                dedup_rows(rows@, Seq::empty()) == out@ + dedup_rows(rows@.skip(i as int), out@),
            decreases rows.len() - i,
        {
            let ghost rest = rows@.skip(i as int);
            proof {
                assert(rest[0] == rows@[i as int]);
                assert(rest.skip(1) =~= rows@.skip(i + 1));
            }
            let dup = row_in_vec(&out, &rows[i]);
            if !dup {
                let ghost prev = out@;
                let d = copy_row(&rows[i]);
                out.push(d);
                proof {
                    assert(out@ =~= prev.push(rows@[i as int]));
                    assert(dedup_rows(rest, prev) == seq![rows@[i as int]] + dedup_rows(
                        rest.skip(1),
                        prev.push(rows@[i as int]),
                    ));
                    assert(out@ + dedup_rows(rows@.skip(i + 1), out@) =~= dedup_rows(
                        rows@,
                        Seq::empty(),
                    ));
                }
            } else {
                proof {
                    assert(out@ + dedup_rows(rows@.skip(i + 1), out@) =~= dedup_rows(
                        rows@,
                        Seq::empty(),
                    ));
                }
            }
            i = i + 1;
        }
        proof {
            assert(rows@.skip(i as int) =~= Seq::<Document>::empty());
            assert(out@ =~= dedup_rows(rows@, Seq::empty()));
        }
        DocStore { rows: out }
    }

    /// How many rows the store holds.
    pub fn len(&self) -> (n: usize)
        ensures
            n == self.rows_view().len(),
    {
        self.rows.len()
    }
}

/// Whether a row equal to `d` is already in `out`.
fn row_in_vec(out: &Vec<Document>, d: &Document) -> (r: bool)
    ensures
        r == row_in(out@, *d),
{
    let mut i: usize = 0;
    while i < out.len()
        invariant
            i <= out@.len(),
            forall|q: int| 0 <= q < i ==> !row_eq(out@[q], *d),
        decreases out.len() - i,
    {
        if out[i].id == d.id && out[i].user_id == d.user_id && out[i].user_name == d.user_name
            && out[i].body == d.body {
            proof {
                assert(row_eq(out@[i as int], *d));
            }
            return true;
        }
        i = i + 1;
    }
    proof {
        if row_in(out@, *d) {
            let q = choose|q: int| 0 <= q < out@.len() && row_eq(out@[q], *d);
        }
    }
    false
}

/// Copy one row.
fn copy_row(d: &Document) -> (r: Document)
    ensures
        r == *d,
{
    Document {
        id: d.id,
        user_id: d.user_id.clone(),
        user_name: d.user_name.clone(),
        body: d.body.clone(),
    }
}

/// The pieces of every wildcard term of the query, in term order: what
/// the post-filter checks against each body.
pub open spec fn all_pieces(tv: Seq<Seq<char>>) -> Seq<Seq<char>>
    decreases tv.len(),
{
    if tv.len() == 0 {
        Seq::empty()
    } else if has_star(tv[0]) {
        pieces(tv[0]) + all_pieces(tv.skip(1))
    } else {
        all_pieces(tv.skip(1))
    }
}

/// Every piece of every wildcard term occurs in `body` as a substring.
pub open spec fn passes_filter(tv: Seq<Seq<char>>, body: Seq<char>) -> bool {
    forall|ci: int|
        0 <= ci < all_pieces(tv).len() ==> has_substring(body, #[trigger] all_pieces(tv)[ci])
}

/// Collect the pieces of every wildcard term of the query.
fn collect_pieces(terms: &Vec<Vec<char>>) -> (chunks: Vec<Vec<char>>)
    ensures
        views(chunks@) == all_pieces(views(terms@)),
{
    let ghost tv = views(terms@);
    let mut chunks: Vec<Vec<char>> = Vec::new();
    let mut ti: usize = 0;
    proof {
        assert(tv.skip(0) =~= tv);
        assert(views(chunks@) + all_pieces(tv) =~= all_pieces(tv));
    }
    while ti < terms.len()
        invariant
            ti <= terms@.len(),
            tv == views(terms@),
            all_pieces(tv) == views(chunks@) + all_pieces(tv.skip(ti as int)),
        decreases terms@.len() - ti,
    {
        let ghost rest = tv.skip(ti as int);
        proof {
            assert(rest[0] == tv[ti as int]);
            assert(rest.skip(1) =~= tv.skip(ti + 1));
        }
        let q = &terms[ti];
        proof {
            assert(q@ == tv[ti as int]);
        }
        if has_star_vec(q) {
            let ghost prevc = chunks@;
            let mut ps = pieces_vec(q);
            let ghost psv = views(ps@);
            chunks.append(&mut ps);
            proof {
                assert(views(chunks@) =~= views(prevc) + psv);
                assert(views(chunks@) + all_pieces(tv.skip(ti + 1)) =~= all_pieces(tv));
            }
        } else {
            proof {
                assert(views(chunks@) + all_pieces(tv.skip(ti + 1)) =~= all_pieces(tv));
            }
        }
        ti = ti + 1;
    }
    proof {
        assert(tv.skip(ti as int) =~= Seq::<Seq<char>>::empty());
        assert(views(chunks@) =~= all_pieces(tv));
    }
    chunks
}

/// Whether every chunk occurs in `body` as a substring.
fn all_chunks_in(chunks: &Vec<Vec<char>>, body: &Vec<char>) -> (r: bool)
    ensures
        r == (forall|ci: int|
            0 <= ci < views(chunks@).len() ==> has_substring(
                body@,
                #[trigger] views(chunks@)[ci],
            )),
{
    let mut ci: usize = 0;
    while ci < chunks.len()
        invariant
            ci <= chunks@.len(),
            forall|c2: int| 0 <= c2 < ci ==> has_substring(body@, #[trigger] views(chunks@)[c2]),
        decreases chunks.len() - ci,
    {
        if !contains_sub(body, &chunks[ci]) {
            proof {
                assert(views(chunks@)[ci as int] == chunks@[ci as int]@);
                assert(!has_substring(body@, views(chunks@)[ci as int]));
            }
            return false;
        }
        proof {
            assert(views(chunks@)[ci as int] == chunks@[ci as int]@);
        }
        ci = ci + 1;
    }
    true
}

impl Index {
    /// A store row survives the projection: its id satisfies the query and
    /// its body passes the wildcard substring post-filter.
    pub open spec fn spec_kept(self, tv: Seq<Seq<char>>, row: Document) -> bool {
        &&& self.any_constraint(tv)
        &&& self.q_matches(tv, row.id)
        &&& passes_filter(tv, row.body@)
    }

    /// The bodies the projection returns, in store order.
    pub open spec fn projection(self, tv: Seq<Seq<char>>, rows: Seq<Document>) -> Seq<Seq<char>>
        decreases rows.len(),
    {
        if rows.len() == 0 {
            Seq::empty()
        } else if self.spec_kept(tv, rows[0]) {
            seq![rows[0].body@] + self.projection(tv, rows.skip(1))
        } else {
            self.projection(tv, rows.skip(1))
        }
    }

    /// Map a query's result to document bodies: run the query, select the
    /// store rows whose id it returned, drop the rows whose body lacks a
    /// piece of some wildcard term, and return the surviving bodies in
    /// store order.
    pub fn retrieve_documents(&self, terms: &Vec<String>, store: &DocStore) -> (r: Result<
        Vec<String>,
        SearchError,
    >)
        requires
            self.wf(),
            self.kg_backed(),
        ensures
            ({
                let tv = str_views(terms@);
                match r {
                    Ok(bodies) => str_views(bodies@) == self.projection(tv, store.rows_view()),
                    Err(e) => exists|i: int|
                        0 <= i < tv.len() && self.term_error(#[trigger] tv[i]) == Some(e) && (
                        forall|i2: int| 0 <= i2 < i ==> self.term_error(tv[i2]) is None),
                }
            }),
    {
        let ghost tv = str_views(terms@);
        let ids = match self.query(terms) {
            Ok(v) => v,
            Err(e) => {
                return Err(e);
            },
        };
        proof {
            assert forall|id: u64|
                #[trigger] ids@.contains(id) <==> (self.any_constraint(tv) && self.q_matches(
                    tv,
                    id,
                )) by {
                if !self.any_constraint(tv) {
                    assert(ids@ == Seq::<u64>::empty());
                    if ids@.contains(id) {
                        let q = choose|q: int| 0 <= q < ids@.len() && ids@[q] == id;
                    }
                }
            }
        }
        let mut term_vecs: Vec<Vec<char>> = Vec::new();
        let mut ci: usize = 0;
        while ci < terms.len()
            invariant
                ci <= terms@.len(),
                views(term_vecs@) == str_views(terms@).take(ci as int),
            decreases terms.len() - ci,
        {
            let ghost prev = term_vecs@;
            let v = chars_vec(terms[ci].as_str());
            term_vecs.push(v);
            proof {
                assert(views(term_vecs@) =~= views(prev).push(terms@[ci as int]@));
                assert(views(term_vecs@) =~= str_views(terms@).take(ci + 1));
            }
            ci = ci + 1;
        }
        proof {
            assert(str_views(terms@).take(ci as int) =~= str_views(terms@));
            assert(views(term_vecs@) == tv);
        }
        let chunks = collect_pieces(&term_vecs);
        let mut bodies: Vec<String> = Vec::new();
        let mut ri: usize = 0;
        let ghost rows = store.rows_view();
        proof {
            assert(rows.skip(0) =~= rows);
            assert(str_views(bodies@) + self.projection(tv, rows) =~= self.projection(tv, rows));
        }
        while ri < store.rows.len()
            invariant
                ri <= store.rows_view().len(),
                rows == store.rows_view(),
                tv == str_views(terms@),
                self.wf(),
                views(chunks@) == all_pieces(tv),
                forall|id: u64|
                    #[trigger] ids@.contains(id) <==> (self.any_constraint(tv)
                        && self.q_matches(tv, id)),
                self.projection(tv, rows) == str_views(bodies@) + self.projection(
                    tv,
                    rows.skip(ri as int),
                ),
            decreases store.rows_view().len() - ri,
        {
            let ghost rest = rows.skip(ri as int);
            proof {
                assert(rest[0] == rows[ri as int]);
                assert(rest.skip(1) =~= rows.skip(ri + 1));
            }
            let row = &store.rows[ri];
            let mut keep = contains_u64(&ids, row.id);
            if keep {
                let bchars = chars_vec(row.body.as_str());
                keep = all_chunks_in(&chunks, &bchars);
            }
            proof {
                assert(keep == self.spec_kept(tv, rows[ri as int]));
            }
            if keep {
                let ghost prevb = bodies@;
                let b = row.body.clone();
                bodies.push(b);
                proof {
                    assert(str_views(bodies@) =~= str_views(prevb).push(rows[ri as int].body@));
                    assert(str_views(bodies@) + self.projection(tv, rows.skip(ri + 1))
                        =~= self.projection(tv, rows));
                }
            } else {
                proof {
                    assert(str_views(bodies@) + self.projection(tv, rows.skip(ri + 1))
                        =~= self.projection(tv, rows));
                }
            }
            ri = ri + 1;
        }
        proof {
            assert(rows.skip(ri as int) =~= Seq::<Document>::empty());
            assert(str_views(bodies@) =~= self.projection(tv, rows));
        }
        Ok(bodies)
    }
}

} // verus!
