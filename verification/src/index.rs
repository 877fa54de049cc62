//! The dual index: an inverted index from terms to sorted posting lists of
//! document ids, paired with a k-gram index from character k-grams to sorted
//! buckets of term ids.  Built once from a corpus, then queried.

use vstd::prelude::*;
use std::collections::hash_map::DefaultHasher;
use std::hash::Hasher;
use vstd::std_specs::hash::DefaultHasherAdditionalSpecFns;

use crate::SearchError;
use crate::kgram::{anchor_both, anchor_both_vec, kgrams, kgrams_vec};
use crate::sorted::{contains_u64, insert_sorted, intersect, strictly_sorted, union_sorted};
use crate::text::{chars_vec, clean_stops, clean_stops_vec, normalize, tokens_of, views};
use crate::wildcard::{classify, has_star, has_star_vec, q_bad, q_grams, TermShape};

verus! {

/// One corpus row.  Only `id` and `body` take part in the index; the other
/// fields are carried through unchanged.
#[derive(Debug)]
pub struct Document {
    pub id: u64,
    pub user_id: String,
    pub user_name: String,
    pub body: String,
}

/// Build-time settings: the k-gram width, the cap on the number of corpus
/// rows read, and whether a wildcard fragment whose k-gram is absent from
/// the index fails the query or merely empties that term's candidate set.
pub struct Config {
    pub k: usize,
    pub limit: usize,
    pub strict_kgrams: bool,
}

impl Default for Config {
    /// K-gram width 3, row cap 200000, and absent k-grams fail the query.
    fn default() -> (c: Config)
        ensures
            c.k == 3,
            c.limit == 200000,
            c.strict_kgrams,
    {
        Config { k: 3, limit: 200000, strict_kgrams: true }
    }
}

/// The view of a sequence of strings.
pub open spec fn str_views(v: Seq<String>) -> Seq<Seq<char>> {
    v.map_values(|s: String| s@)
}

/// The little-endian bytes of a character's scalar value.
pub open spec fn four_bytes(c: char) -> Seq<u8> {
    seq![
        (c as u32 % 256) as u8,
        (c as u32 / 256 % 256) as u8,
        (c as u32 / 65536 % 256) as u8,
        (c as u32 / 16777216 % 256) as u8,
    ]
}

/// The bytes a token is hashed through: each character as four
/// little-endian bytes.
pub open spec fn token_bytes(t: Seq<char>) -> Seq<u8>
    decreases t.len(),
{
    if t.len() == 0 {
        Seq::empty()
    } else {
        token_bytes(t.drop_last()) + four_bytes(t.last())
    }
}

/// The term id of a token: the fixed-seed hash of its character bytes.
/// `DefaultHasher::new()` always starts from the same state, so for a given
/// token the id is reproducible.
pub open spec fn term_hash(t: Seq<char>) -> u64 {
    DefaultHasher::spec_finish(seq![token_bytes(t)])
}

/// Hash a token to its term id with a freshly seeded `DefaultHasher`.
pub fn hash_token(t: &Vec<char>) -> (r: u64)
    ensures
        r == term_hash(t@),
{
    let mut bytes: Vec<u8> = Vec::new();
    let mut i: usize = 0;
    while i < t.len()
        invariant
            i <= t@.len(),
            bytes@ == token_bytes(t@.take(i as int)),
        decreases t.len() - i,
    {
        let x: u32 = t[i] as u32;
        bytes.push((x % 256) as u8);
        bytes.push((x / 256 % 256) as u8);
        bytes.push((x / 65536 % 256) as u8);
        bytes.push((x / 16777216 % 256) as u8);
        proof {
            assert(t@.take(i + 1).drop_last() =~= t@.take(i as int));
            assert(t@.take(i + 1).last() == t@[i as int]);
            assert(bytes@ =~= token_bytes(t@.take(i as int)) + four_bytes(t@[i as int]));
        }
        i = i + 1;
    }
    proof {
        assert(t@.take(i as int) =~= t@);
    }
    let mut h = DefaultHasher::new();
    h.write(bytes.as_slice());
    proof {
        assert(h@ =~= seq![token_bytes(t@)]);
    }
    h.finish()
}

/// The dual index.  `tokens`, `term_ids` and `postings` run in parallel:
/// entry `i` is one dictionary term.  `kgram_keys` and `kgram_buckets` run
/// in parallel: entry `b` maps one k-gram to the sorted term ids of the
/// tokens whose anchored form contains it.
pub struct Index {
    tokens: Vec<Vec<char>>,
    term_ids: Vec<u64>,
    postings: Vec<Vec<u64>>,
    kgram_keys: Vec<Vec<char>>,
    kgram_buckets: Vec<Vec<u64>>,
    k: usize,
    strict_kgrams: bool,
}

/// The tokens of one document's body.
pub open spec fn doc_toks(d: Document, stops: Seq<Seq<char>>) -> Seq<Seq<char>> {
    tokens_of(d.body@, stops)
}

/// How many corpus rows take part in the build.
pub open spec fn n_docs(docs: Seq<Document>, limit: int) -> int {
    if docs.len() <= limit {
        docs.len() as int
    } else {
        limit
    }
}

/// `t` is a token of one of the first `n` documents.
pub open spec fn vocab_contains(
    docs: Seq<Document>,
    stops: Seq<Seq<char>>,
    n: int,
    t: Seq<char>,
) -> bool {
    exists|j: int| 0 <= j < n && #[trigger] doc_toks(docs[j], stops).contains(t)
}

/// Among the first `n` documents, one with id `id` has token `t`.
pub open spec fn occurs(
    docs: Seq<Document>,
    stops: Seq<Seq<char>>,
    n: int,
    t: Seq<char>,
    id: u64,
) -> bool {
    exists|j: int|
        0 <= j < n && docs[j].id == id && #[trigger] doc_toks(docs[j], stops).contains(t)
}

/// The fixed-seed hash separates every pair of distinct tokens of the first
/// `n` documents.  A violation is the build-time `InternalInvariant` fault.
pub open spec fn hash_ok(docs: Seq<Document>, stops: Seq<Seq<char>>, n: int) -> bool {
    forall|t1: Seq<char>, t2: Seq<char>|
        vocab_contains(docs, stops, n, t1) && vocab_contains(docs, stops, n, t2) && t1 != t2
            ==> term_hash(t1) != term_hash(t2)
}

impl Index {
    /// The dictionary: the distinct tokens, in first-seen order.
    pub closed spec fn toks(self) -> Seq<Seq<char>> {
        views(self.tokens@)
    }

    /// The term ids, parallel to `toks()`.
    pub closed spec fn tids(self) -> Seq<u64> {
        self.term_ids@
    }

    /// The posting list of dictionary entry `i`.
    pub closed spec fn posting(self, i: int) -> Seq<u64> {
        self.postings@[i]@
    }

    /// The k-gram keys.
    pub closed spec fn keyseq(self) -> Seq<Seq<char>> {
        views(self.kgram_keys@)
    }

    /// The term-id bucket of k-gram entry `b`.
    pub closed spec fn bucket(self, b: int) -> Seq<u64> {
        self.kgram_buckets@[b]@
    }

    /// The k-gram width.
    pub closed spec fn spec_k(self) -> int {
        self.k as int
    }

    /// Whether absent wildcard k-grams fail the query.
    pub closed spec fn spec_strict(self) -> bool {
        self.strict_kgrams
    }

    /// Structural well-formedness: parallel tables, distinct tokens and
    /// keys, injective term ids tied to the hash, and sorted lists.
    pub closed spec fn wf(self) -> bool {
        &&& self.term_ids@.len() == self.tokens@.len()
        &&& self.postings@.len() == self.tokens@.len()
        &&& self.kgram_buckets@.len() == self.kgram_keys@.len()
        &&& self.k >= 1
        &&& forall|i: int, j: int|
            0 <= i < j < self.toks().len() ==> self.toks()[i] != self.toks()[j]
        &&& forall|i: int, j: int|
            0 <= i < j < self.tids().len() ==> self.tids()[i] != self.tids()[j]
        &&& forall|i: int| 0 <= i < self.toks().len()
            ==> #[trigger] self.tids()[i] == term_hash(self.toks()[i])
        &&& forall|i: int| 0 <= i < self.toks().len() ==> strictly_sorted(#[trigger] self.posting(i))
        &&& forall|b: int, c: int|
            0 <= b < c < self.keyseq().len() ==> self.keyseq()[b] != self.keyseq()[c]
        &&& forall|b: int|
            0 <= b < self.keyseq().len() ==> strictly_sorted(#[trigger] self.bucket(b))
    }

    /// Dictionary entry `i` has its term id in a bucket whose key is gram
    /// `gi` of its anchored form.
    pub open spec fn gram_covered(self, i: int, gi: int) -> bool {
        exists|b: int|
            0 <= b < self.keyseq().len() && self.keyseq()[b] == kgrams(
                anchor_both(self.toks()[i]),
                self.spec_k(),
            )[gi] && #[trigger] self.bucket(b).contains(self.tids()[i])
    }

    /// Every k-gram of every token's anchored form leads to that token's
    /// term id.
    pub open spec fn kg_sound(self) -> bool {
        forall|i: int, gi: int|
            0 <= i < self.toks().len() && 0 <= gi < kgrams(
                anchor_both(self.toks()[i]),
                self.spec_k(),
            ).len() ==> self.gram_covered(i, gi)
    }

    /// Every term id in a bucket belongs to a token whose anchored form has
    /// the bucket's key among its k-grams.
    pub open spec fn kg_backed(self) -> bool {
        forall|b: int, x: u64|
            0 <= b < self.keyseq().len() && #[trigger] self.bucket(b).contains(x) ==> exists|i: int|
                0 <= i < self.toks().len() && self.tids()[i] == x && kgrams(
                    anchor_both(self.toks()[i]),
                    self.spec_k(),
                ).contains(self.keyseq()[b])
    }

    /// `t` is in the dictionary.
    pub open spec fn has_token(self, t: Seq<char>) -> bool {
        exists|i: int| 0 <= i < self.toks().len() && self.toks()[i] == t
    }

    /// The dictionary entry of `t`.
    pub open spec fn token_index(self, t: Seq<char>) -> int {
        choose|i: int| 0 <= i < self.toks().len() && self.toks()[i] == t
    }

    /// The posting list of token `t`; empty when `t` is not a term.
    pub open spec fn posting_of(self, t: Seq<char>) -> Seq<u64> {
        if self.has_token(t) {
            self.posting(self.token_index(t))
        } else {
            Seq::empty()
        }
    }

    /// The index was built from the first `n` documents of `docs` under
    /// stopword set `stops`: the dictionary holds exactly the corpus
    /// tokens, posting lists hold exactly the ids of the documents a term
    /// occurs in, and the k-gram tables are sound and backed.
    pub open spec fn built_from(
        self,
        docs: Seq<Document>,
        stops: Seq<Seq<char>>,
        n: int,
    ) -> bool {
        &&& self.wf()
        &&& self.kg_sound()
        &&& self.kg_backed()
        &&& forall|t: Seq<char>| self.has_token(t) <==> vocab_contains(docs, stops, n, t)
        &&& forall|t: Seq<char>, id: u64|
            #[trigger] self.posting_of(t).contains(id) <==> occurs(docs, stops, n, t, id)
    }
}

/// An index built from the first `n` documents assigns distinct ids to
/// distinct tokens, so the hash separated the corpus vocabulary.
pub proof fn lemma_built_hash_ok(idx: Index, docs: Seq<Document>, stops: Seq<Seq<char>>, n: int)
    requires
        idx.built_from(docs, stops, n),
    ensures
        hash_ok(docs, stops, n),
{
    assert forall|t1: Seq<char>, t2: Seq<char>|
        vocab_contains(docs, stops, n, t1) && vocab_contains(docs, stops, n, t2) && t1 != t2
        implies term_hash(t1) != term_hash(t2) by {
        assert(idx.has_token(t1));
        assert(idx.has_token(t2));
        let i1 = choose|i: int| 0 <= i < idx.toks().len() && idx.toks()[i] == t1;
        let i2 = choose|i: int| 0 <= i < idx.toks().len() && idx.toks()[i] == t2;
        assert(idx.tids()[i1] == term_hash(t1));
        assert(idx.tids()[i2] == term_hash(t2));
        if i1 < i2 {
            assert(idx.tids()[i1] != idx.tids()[i2]);
        } else {
            assert(i2 < i1);
            assert(idx.tids()[i2] != idx.tids()[i1]);
        }
    }
}

/// With distinct tokens, any entry holding `t` is the entry of `t`.
proof fn lemma_token_index_unique(idx: Index, t: Seq<char>, i: int)
    requires
        idx.wf(),
        0 <= i < idx.toks().len(),
        idx.toks()[i] == t,
    ensures
        idx.has_token(t),
        idx.token_index(t) == i,
{
    assert(idx.has_token(t));
    let i2 = idx.token_index(t);
    if i2 != i {
        if i < i2 {
            assert(idx.toks()[i] != idx.toks()[i2]);
        } else {
            assert(idx.toks()[i2] != idx.toks()[i]);
        }
        assert(false);
    }
}

/// Find the entry holding character sequence `t` in a list of keys.
fn find_seq(keys: &Vec<Vec<char>>, t: &Vec<char>) -> (r: Option<usize>)
    ensures
        match r {
            Some(i) => i < keys@.len() && views(keys@)[i as int] == t@,
            None => forall|q: int| 0 <= q < keys@.len() ==> views(keys@)[q] != t@,
        },
{
    let mut i: usize = 0;
    while i < keys.len()
        invariant
            i <= keys@.len(),
            forall|q: int| 0 <= q < i ==> views(keys@)[q] != t@,
        decreases keys.len() - i,
    {
        if crate::text::eq_chars(&keys[i], t) {
            proof {
                assert(views(keys@)[i as int] == t@);
            }
            return Some(i);
        }
        i = i + 1;
    }
    None
}

/// Copy a vector of ids.
fn copy_ids(v: &Vec<u64>) -> (r: Vec<u64>)
    ensures
        r@ == v@,
{
    let mut r: Vec<u64> = Vec::new();
    let mut i: usize = 0;
    while i < v.len()
        invariant
            i <= v@.len(),
            r@ == v@.take(i as int),
        decreases v.len() - i,
    {
        let x = v[i];
        r.push(x);
        proof {
            assert(r@ =~= v@.take(i + 1));
        }
        i = i + 1;
    }
    proof {
        assert(v@.take(i as int) =~= v@);
    }
    r
}

/// Copy a vector of characters.
fn copy_chars(v: &Vec<char>) -> (r: Vec<char>)
    ensures
        r@ == v@,
{
    let mut r: Vec<char> = Vec::new();
    let mut i: usize = 0;
    while i < v.len()
        invariant
            i <= v@.len(),
            r@ == v@.take(i as int),
        decreases v.len() - i,
    {
        let c = v[i];
        r.push(c);
        proof {
            assert(r@ =~= v@.take(i + 1));
        }
        i = i + 1;
    }
    proof {
        assert(v@.take(i as int) =~= v@);
    }
    r
}

/// The k-gram coverage witness carries over between states with the same
/// dictionary and k-gram tables.
proof fn lemma_covered_transfer(a: Index, b: Index, i: int, gi: int)
    requires
        a.gram_covered(i, gi),
        0 <= i < a.toks().len(),
        i < b.toks().len(),
        b.toks()[i] == a.toks()[i],
        b.tids()[i] == a.tids()[i],
        b.keyseq() == a.keyseq(),
        b.spec_k() == a.spec_k(),
        forall|q: int| 0 <= q < a.keyseq().len() ==> #[trigger] b.bucket(q) == a.bucket(q),
    ensures
        b.gram_covered(i, gi),
{
    let w = choose|w: int|
        0 <= w < a.keyseq().len() && a.keyseq()[w] == kgrams(
            anchor_both(a.toks()[i]),
            a.spec_k(),
        )[gi] && #[trigger] a.bucket(w).contains(a.tids()[i]);
    assert(b.bucket(w) == a.bucket(w));
    assert(b.keyseq()[w] == kgrams(anchor_both(b.toks()[i]), b.spec_k())[gi]);
    assert(b.bucket(w).contains(b.tids()[i]));
}

impl Index {
    /// Record one (token, document id) occurrence: enter the token into the
    /// dictionary if it is new, add the id to its posting list, and enter
    /// its term id into the bucket of every k-gram of its anchored form.
    /// Fails with `InternalInvariant` when a fresh token hashes to an id
    /// already taken by a different token.
    fn record(&mut self, tok: &Vec<char>, doc_id: u64) -> (r: Result<(), SearchError>)
        requires
            old(self).wf(),
            old(self).kg_sound(),
            old(self).kg_backed(),
        ensures
            match r {
                Ok(()) => {
                    &&& final(self).wf()
                    &&& final(self).kg_sound()
                    &&& final(self).kg_backed()
                    &&& final(self).k == old(self).k
                    &&& final(self).strict_kgrams == old(self).strict_kgrams
                    &&& forall|t: Seq<char>|
                        final(self).has_token(t) <==> (old(self).has_token(t) || t == tok@)
                    &&& forall|t: Seq<char>, id: u64|
                        #[trigger] final(self).posting_of(t).contains(id) <==> (old(
                            self,
                        ).posting_of(t).contains(id) || (t == tok@ && id == doc_id))
                },
                Err(e) => {
                    &&& e == SearchError::InternalInvariant
                    &&& exists|i: int|
                        0 <= i < old(self).toks().len() && old(self).toks()[i] != tok@
                            && term_hash(old(self).toks()[i]) == term_hash(tok@)
                },
            },
    {
        let ghost pre = *self;
        let found = find_seq(&self.tokens, tok);
        let ti: usize;
        match found {
            Some(i) => {
                ti = i;
                proof {
                    lemma_token_index_unique(pre, tok@, ti as int);
                    assert forall|i2: int, gi2: int|
                        0 <= i2 < self.toks().len() && i2 != ti as int && 0 <= gi2 < kgrams(
                            anchor_both(self.toks()[i2]),
                            self.spec_k(),
                        ).len() implies #[trigger] self.gram_covered(i2, gi2) by {
                        assert(pre.gram_covered(i2, gi2));
                    }
                }
            },
            None => {
                let h = hash_token(tok);
                if contains_u64(&self.term_ids, h) {
                    proof {
                        let q = choose|q: int| 0 <= q < pre.tids().len() && pre.tids()[q] == h;
                        assert(pre.toks()[q] != tok@);
                        assert(term_hash(pre.toks()[q]) == term_hash(tok@));
                    }
                    return Err(SearchError::InternalInvariant);
                }
                ti = self.tokens.len();
                let tcopy = copy_chars(tok);
                self.tokens.push(tcopy);
                self.term_ids.push(h);
                self.postings.push(Vec::new());
                proof {
                    assert(self.toks() =~= pre.toks().push(tok@));
                    assert(self.tids() =~= pre.tids().push(h));
                    assert(self.keyseq() == pre.keyseq());
                    assert forall|b: int| 0 <= b < self.keyseq().len() implies #[trigger] self
                        .bucket(b) == pre.bucket(b) by {}
                    assert(self.spec_k() == pre.spec_k());
                    // distinct tokens
                    assert forall|i: int, j: int|
                        0 <= i < j < self.toks().len() implies self.toks()[i]
                        != self.toks()[j] by {
                        if j == self.toks().len() - 1 {
                            assert(views(pre.tokens@)[i] != tok@);
                        } else {
                            assert(pre.toks()[i] != pre.toks()[j]);
                        }
                    }
                    // injective ids
                    assert forall|i: int, j: int|
                        0 <= i < j < self.tids().len() implies self.tids()[i]
                        != self.tids()[j] by {
                        if j == self.tids().len() - 1 {
                            if self.tids()[i] == h {
                                assert(pre.tids()[i] == h);
                                assert(pre.tids().contains(h));
                            }
                        } else {
                            assert(pre.tids()[i] != pre.tids()[j]);
                        }
                    }
                    // ids are the hash of their token
                    assert forall|i: int| 0 <= i < self.toks().len() implies #[trigger] self
                        .tids()[i] == term_hash(self.toks()[i]) by {
                        if i < pre.toks().len() {
                            assert(self.tids()[i] == pre.tids()[i]);
                            assert(self.toks()[i] == pre.toks()[i]);
                            assert(pre.tids()[i] == term_hash(pre.toks()[i]));
                        }
                    }
                    // posting lists sorted
                    assert(self.posting(ti as int) =~= Seq::<u64>::empty());
                    assert forall|i: int| 0 <= i < self.toks().len() implies strictly_sorted(
                        #[trigger] self.posting(i),
                    ) by {
                        if i < pre.toks().len() {
                            assert(self.posting(i) == pre.posting(i));
                            assert(strictly_sorted(pre.posting(i)));
                        }
                    }
                    // distinct keys
                    assert forall|b: int, c: int|
                        0 <= b < c < self.keyseq().len() implies self.keyseq()[b]
                        != self.keyseq()[c] by {
                        assert(pre.keyseq()[b] != pre.keyseq()[c]);
                    }
                    // buckets sorted
                    assert forall|b: int| 0 <= b < self.keyseq().len() implies strictly_sorted(
                        #[trigger] self.bucket(b),
                    ) by {
                        assert(self.bucket(b) == pre.bucket(b));
                        assert(strictly_sorted(pre.bucket(b)));
                    }
                    assert(self.wf());
                    // buckets still backed: dictionary only grew
                    assert forall|b: int, x: u64|
                        0 <= b < self.keyseq().len() && #[trigger] self.bucket(b).contains(x)
                        implies exists|i: int|
                            0 <= i < self.toks().len() && self.tids()[i] == x && kgrams(
                                anchor_both(self.toks()[i]),
                                self.spec_k(),
                            ).contains(self.keyseq()[b]) by {
                        assert(pre.bucket(b).contains(x));
                        let i = choose|i: int|
                            0 <= i < pre.toks().len() && pre.tids()[i] == x && kgrams(
                                anchor_both(pre.toks()[i]),
                                pre.spec_k(),
                            ).contains(pre.keyseq()[b]);
                        assert(self.toks()[i] == pre.toks()[i]);
                        assert(self.tids()[i] == x);
                    }
                    assert(self.kg_backed());
                    // coverage for the old tokens
                    assert forall|i2: int, gi2: int|
                        0 <= i2 < self.toks().len() && i2 != ti as int && 0 <= gi2 < kgrams(
                            anchor_both(self.toks()[i2]),
                            self.spec_k(),
                        ).len() implies #[trigger] self.gram_covered(i2, gi2) by {
                        assert(i2 < pre.toks().len());
                        assert(self.toks()[i2] == pre.toks()[i2]);
                        assert(pre.gram_covered(i2, gi2));
                        lemma_covered_transfer(pre, *self, i2, gi2);
                    }
                }
            },
        }
        proof {
            assert(self.toks()[ti as int] == tok@);
            lemma_token_index_unique(*self, tok@, ti as int);
        }
        let ghost before_pl = *self;
        proof {
            assert(strictly_sorted(self.posting(ti as int)));
        }
        let mut pl = copy_ids(&self.postings[ti]);
        proof {
            assert(pl@ == before_pl.posting(ti as int));
        }
        insert_sorted(&mut pl, doc_id);
        self.postings[ti] = pl;
        proof {
            assert(self.postings@ == before_pl.postings@.update(ti as int, pl));
            assert(self.toks() == before_pl.toks());
            assert(self.tids() == before_pl.tids());
            assert(self.keyseq() == before_pl.keyseq());
            assert(self.spec_k() == before_pl.spec_k());
            assert forall|b: int| 0 <= b < self.keyseq().len() implies #[trigger] self.bucket(b)
                == before_pl.bucket(b) by {}
            assert(self.posting(ti as int) == pl@);
            assert forall|i: int| 0 <= i < self.toks().len() implies strictly_sorted(
                #[trigger] self.posting(i),
            ) by {
                if i != ti as int {
                    assert(self.posting(i) == before_pl.posting(i));
                    assert(strictly_sorted(before_pl.posting(i)));
                }
            }
            assert forall|b: int| 0 <= b < self.keyseq().len() implies strictly_sorted(
                #[trigger] self.bucket(b),
            ) by {
                assert(self.bucket(b) == before_pl.bucket(b));
                assert(strictly_sorted(before_pl.bucket(b)));
            }
            assert forall|b: int, c: int|
                0 <= b < c < self.keyseq().len() implies self.keyseq()[b]
                != self.keyseq()[c] by {
                assert(before_pl.keyseq()[b] != before_pl.keyseq()[c]);
            }
            assert(self.wf());
            assert forall|b: int, x: u64|
                0 <= b < self.keyseq().len() && #[trigger] self.bucket(b).contains(x)
                implies exists|i: int|
                    0 <= i < self.toks().len() && self.tids()[i] == x && kgrams(
                        anchor_both(self.toks()[i]),
                        self.spec_k(),
                    ).contains(self.keyseq()[b]) by {
                assert(before_pl.bucket(b).contains(x));
                let i = choose|i: int|
                    0 <= i < before_pl.toks().len() && before_pl.tids()[i] == x && kgrams(
                        anchor_both(before_pl.toks()[i]),
                        before_pl.spec_k(),
                    ).contains(before_pl.keyseq()[b]);
                assert(self.toks()[i] == before_pl.toks()[i]);
                assert(self.tids()[i] == x);
            }
            assert(self.kg_backed());
            assert forall|i2: int, gi2: int|
                0 <= i2 < self.toks().len() && i2 != ti as int && 0 <= gi2 < kgrams(
                    anchor_both(self.toks()[i2]),
                    self.spec_k(),
                ).len() implies #[trigger] self.gram_covered(i2, gi2) by {
                assert(before_pl.gram_covered(i2, gi2));
                lemma_covered_transfer(before_pl, *self, i2, gi2);
            }
        }
        let anchored = anchor_both_vec(tok);
        let grams = kgrams_vec(&anchored, self.k);
        let tid = self.term_ids[ti];
        let ghost mid = *self;
        let mut gi: usize = 0;
        while gi < grams.len()
            invariant
                gi <= grams@.len(),
                self.wf(),
                self.kg_backed(),
                ti < self.toks().len(),
                self.toks() == mid.toks(),
                self.tids() == mid.tids(),
                self.postings@ == mid.postings@,
                self.k == mid.k,
                self.strict_kgrams == mid.strict_kgrams,
                self.toks()[ti as int] == tok@,
                self.tids()[ti as int] == tid,
                views(grams@) == kgrams(anchor_both(tok@), self.spec_k()),
                forall|i: int, gi2: int|
                    0 <= i < self.toks().len() && 0 <= gi2 < kgrams(
                        anchor_both(self.toks()[i]),
                        self.spec_k(),
                    ).len() && (i != ti as int || gi2 < gi) ==> #[trigger] self.gram_covered(
                        i,
                        gi2,
                    ),
            decreases grams@.len() - gi,
        {
            let g = &grams[gi];
            proof {
                assert(g@ == views(grams@)[gi as int]);
                assert(g@ == kgrams(anchor_both(tok@), self.spec_k())[gi as int]);
            }
            let fk = find_seq(&self.kgram_keys, g);
            let ghost step = *self;
            match fk {
                Some(b) => {
                    proof {
                        assert(views(step.kgram_keys@)[b as int] == g@);
                        assert(strictly_sorted(self.bucket(b as int)));
                    }
                    let mut bk = copy_ids(&self.kgram_buckets[b]);
                    proof {
                        assert(bk@ == step.bucket(b as int));
                    }
                    insert_sorted(&mut bk, tid);
                    self.kgram_buckets[b] = bk;
                    proof {
                        assert(self.kgram_buckets@ == step.kgram_buckets@.update(b as int, bk));
                        assert(self.toks() == step.toks());
                        assert(self.tids() == step.tids());
                        assert(self.keyseq() == step.keyseq());
                        assert(self.spec_k() == step.spec_k());
                        assert(self.postings@ == step.postings@);
                        assert(self.bucket(b as int) == bk@);
                        assert forall|b2: int|
                            0 <= b2 < self.keyseq().len() && b2 != b as int implies #[trigger] self
                            .bucket(b2) == step.bucket(b2) by {}
                        assert forall|b2: int| 0 <= b2 < self.keyseq().len() implies
                            strictly_sorted(#[trigger] self.bucket(b2)) by {
                            if b2 != b as int {
                                assert(self.bucket(b2) == step.bucket(b2));
                                assert(strictly_sorted(step.bucket(b2)));
                            }
                        }
                        assert forall|b2: int, c2: int|
                            0 <= b2 < c2 < self.keyseq().len() implies self.keyseq()[b2]
                            != self.keyseq()[c2] by {
                            assert(step.keyseq()[b2] != step.keyseq()[c2]);
                        }
                        assert forall|i: int| 0 <= i < self.toks().len() implies strictly_sorted(
                            #[trigger] self.posting(i),
                        ) by {
                            assert(self.posting(i) == step.posting(i));
                            assert(strictly_sorted(step.posting(i)));
                        }
                        assert forall|i: int, j: int|
                            0 <= i < j < self.toks().len() implies self.toks()[i]
                            != self.toks()[j] by {
                            assert(step.toks()[i] != step.toks()[j]);
                        }
                        assert forall|i: int, j: int|
                            0 <= i < j < self.tids().len() implies self.tids()[i]
                            != self.tids()[j] by {
                            assert(step.tids()[i] != step.tids()[j]);
                        }
                        assert forall|i: int| 0 <= i < self.toks().len() implies #[trigger] self
                            .tids()[i] == term_hash(self.toks()[i]) by {
                            assert(step.tids()[i] == term_hash(step.toks()[i]));
                        }
                        assert(self.wf());
                        assert forall|b2: int, x: u64|
                            0 <= b2 < self.keyseq().len() && #[trigger] self.bucket(b2).contains(
                                x,
                            ) implies exists|i: int|
                                0 <= i < self.toks().len() && self.tids()[i] == x && kgrams(
                                    anchor_both(self.toks()[i]),
                                    self.spec_k(),
                                ).contains(self.keyseq()[b2]) by {
                            if b2 == b as int && x == tid {
                                assert(self.keyseq()[b2] == g@);
                                assert(kgrams(
                                    anchor_both(self.toks()[ti as int]),
                                    self.spec_k(),
                                )[gi as int] == g@);
                                assert(kgrams(
                                    anchor_both(self.toks()[ti as int]),
                                    self.spec_k(),
                                ).contains(g@));
                                assert(0 <= (ti as int) < self.toks().len() && self.tids()[
                                    ti as int] == x && kgrams(
                                    anchor_both(self.toks()[ti as int]),
                                    self.spec_k(),
                                ).contains(self.keyseq()[b2]));
                            } else {
                                assert(step.bucket(b2).contains(x)) by {
                                    if b2 == b as int {
                                        assert(bk@.contains(x));
                                        assert(step.bucket(b as int).contains(x) || x == tid);
                                    }
                                }
                                let i = choose|i: int|
                                    0 <= i < step.toks().len() && step.tids()[i] == x && kgrams(
                                        anchor_both(step.toks()[i]),
                                        step.spec_k(),
                                    ).contains(step.keyseq()[b2]);
                                assert(0 <= i < self.toks().len() && self.tids()[i] == x
                                    && kgrams(
                                    anchor_both(self.toks()[i]),
                                    self.spec_k(),
                                ).contains(self.keyseq()[b2]));
                            }
                        }
                        assert(self.kg_backed());
                        assert forall|i: int, gi2: int|
                            0 <= i < self.toks().len() && 0 <= gi2 < kgrams(
                                anchor_both(self.toks()[i]),
                                self.spec_k(),
                            ).len() && (i != ti as int || gi2 < gi + 1) implies #[trigger] self
                            .gram_covered(i, gi2) by {
                            if i == ti as int && gi2 == gi {
                                assert(self.keyseq()[b as int] == g@);
                                assert(self.bucket(b as int).contains(tid));
                                assert(kgrams(
                                    anchor_both(self.toks()[i]),
                                    self.spec_k(),
                                )[gi2] == g@);
                                assert(self.gram_covered(i, gi2));
                            } else {
                                assert(step.gram_covered(i, gi2));
                                let w = choose|w: int|
                                    0 <= w < step.keyseq().len() && step.keyseq()[w] == kgrams(
                                        anchor_both(step.toks()[i]),
                                        step.spec_k(),
                                    )[gi2] && #[trigger] step.bucket(w).contains(step.tids()[i]);
                                assert(self.keyseq()[w] == kgrams(
                                    anchor_both(self.toks()[i]),
                                    self.spec_k(),
                                )[gi2]);
                                assert(self.bucket(w).contains(self.tids()[i])) by {
                                    if w == b as int {
                                        assert(bk@.contains(step.tids()[i]));
                                    } else {
                                        assert(self.bucket(w) == step.bucket(w));
                                    }
                                }
                                assert(self.gram_covered(i, gi2));
                            }
                        }
                    }
                },
                None => {
                    let mut nb: Vec<u64> = Vec::new();
                    nb.push(tid);
                    let gcopy = copy_chars(g);
                    self.kgram_keys.push(gcopy);
                    self.kgram_buckets.push(nb);
                    proof {
                        let nlen = step.keyseq().len() as int;
                        assert(self.keyseq() =~= step.keyseq().push(g@));
                        assert(self.toks() == step.toks());
                        assert(self.tids() == step.tids());
                        assert(self.spec_k() == step.spec_k());
                        assert(self.postings@ == step.postings@);
                        assert(self.bucket(nlen) =~= seq![tid]);
                        assert(self.bucket(nlen)[0] == tid);
                        assert(self.bucket(nlen).contains(tid));
                        assert forall|b2: int| 0 <= b2 < nlen implies #[trigger] self.bucket(b2)
                            == step.bucket(b2) by {}
                        assert forall|b2: int, c2: int|
                            0 <= b2 < c2 < self.keyseq().len() implies self.keyseq()[b2]
                            != self.keyseq()[c2] by {
                            if c2 == nlen {
                                assert(views(step.kgram_keys@)[b2] != g@);
                            } else {
                                assert(step.keyseq()[b2] != step.keyseq()[c2]);
                            }
                        }
                        assert forall|b2: int| 0 <= b2 < self.keyseq().len() implies
                            strictly_sorted(#[trigger] self.bucket(b2)) by {
                            if b2 < nlen {
                                assert(self.bucket(b2) == step.bucket(b2));
                                assert(strictly_sorted(step.bucket(b2)));
                            } else {
                                assert(self.bucket(b2) =~= seq![tid]);
                            }
                        }
                        assert forall|i: int| 0 <= i < self.toks().len() implies strictly_sorted(
                            #[trigger] self.posting(i),
                        ) by {
                            assert(self.posting(i) == step.posting(i));
                            assert(strictly_sorted(step.posting(i)));
                        }
                        assert forall|i: int, j: int|
                            0 <= i < j < self.toks().len() implies self.toks()[i]
                            != self.toks()[j] by {
                            assert(step.toks()[i] != step.toks()[j]);
                        }
                        assert forall|i: int, j: int|
                            0 <= i < j < self.tids().len() implies self.tids()[i]
                            != self.tids()[j] by {
                            assert(step.tids()[i] != step.tids()[j]);
                        }
                        assert forall|i: int| 0 <= i < self.toks().len() implies #[trigger] self
                            .tids()[i] == term_hash(self.toks()[i]) by {
                            assert(step.tids()[i] == term_hash(step.toks()[i]));
                        }
                        assert(self.wf());
                        assert forall|b2: int, x: u64|
                            0 <= b2 < self.keyseq().len() && #[trigger] self.bucket(b2).contains(
                                x,
                            ) implies exists|i: int|
                                0 <= i < self.toks().len() && self.tids()[i] == x && kgrams(
                                    anchor_both(self.toks()[i]),
                                    self.spec_k(),
                                ).contains(self.keyseq()[b2]) by {
                            if b2 < nlen {
                                assert(self.bucket(b2) == step.bucket(b2));
                                assert(step.bucket(b2).contains(x));
                                let i = choose|i: int|
                                    0 <= i < step.toks().len() && step.tids()[i] == x && kgrams(
                                        anchor_both(step.toks()[i]),
                                        step.spec_k(),
                                    ).contains(step.keyseq()[b2]);
                                assert(self.keyseq()[b2] == step.keyseq()[b2]);
                                assert(0 <= i < self.toks().len() && self.tids()[i] == x
                                    && kgrams(
                                    anchor_both(self.toks()[i]),
                                    self.spec_k(),
                                ).contains(self.keyseq()[b2]));
                            } else {
                                assert(self.bucket(b2) =~= seq![tid]);
                                assert(x == tid) by {
                                    let q = choose|q: int|
                                        0 <= q < self.bucket(b2).len() && self.bucket(b2)[q] == x;
                                }
                                assert(self.keyseq()[b2] == g@);
                                assert(kgrams(
                                    anchor_both(self.toks()[ti as int]),
                                    self.spec_k(),
                                )[gi as int] == g@);
                                assert(kgrams(
                                    anchor_both(self.toks()[ti as int]),
                                    self.spec_k(),
                                ).contains(g@));
                                assert(0 <= (ti as int) < self.toks().len() && self.tids()[
                                    ti as int] == x && kgrams(
                                    anchor_both(self.toks()[ti as int]),
                                    self.spec_k(),
                                ).contains(self.keyseq()[b2]));
                            }
                        }
                        assert(self.kg_backed());
                        assert forall|i: int, gi2: int|
                            0 <= i < self.toks().len() && 0 <= gi2 < kgrams(
                                anchor_both(self.toks()[i]),
                                self.spec_k(),
                            ).len() && (i != ti as int || gi2 < gi + 1) implies #[trigger] self
                            .gram_covered(i, gi2) by {
                            if i == ti as int && gi2 == gi {
                                assert(self.keyseq()[nlen] == g@);
                                assert(self.bucket(nlen).contains(tid));
                                assert(kgrams(
                                    anchor_both(self.toks()[i]),
                                    self.spec_k(),
                                )[gi2] == g@);
                                assert(self.gram_covered(i, gi2));
                            } else {
                                assert(step.gram_covered(i, gi2));
                                let w = choose|w: int|
                                    0 <= w < step.keyseq().len() && step.keyseq()[w] == kgrams(
                                        anchor_both(step.toks()[i]),
                                        step.spec_k(),
                                    )[gi2] && #[trigger] step.bucket(w).contains(step.tids()[i]);
                                assert(self.keyseq()[w] == step.keyseq()[w]);
                                assert(self.bucket(w) == step.bucket(w));
                                assert(self.gram_covered(i, gi2));
                            }
                        }
                    }
                },
            }
            gi = gi + 1;
        }
        proof {
            assert forall|i: int, gi2: int|
                0 <= i < self.toks().len() && 0 <= gi2 < kgrams(
                    anchor_both(self.toks()[i]),
                    self.spec_k(),
                ).len() implies #[trigger] self.gram_covered(i, gi2) by {
                if i == ti as int {
                    assert(kgrams(anchor_both(self.toks()[i]), self.spec_k()).len()
                        == grams@.len());
                }
            }
            assert(self.kg_sound());
            // dictionary membership after the call
            assert forall|t: Seq<char>|
                self.has_token(t) <==> (pre.has_token(t) || t == tok@) by {
                if self.has_token(t) {
                    let i = choose|i: int| 0 <= i < self.toks().len() && self.toks()[i] == t;
                    if i < pre.toks().len() && pre.toks()[i] == t {
                        assert(pre.has_token(t));
                    } else {
                        assert(t == tok@);
                    }
                }
                if pre.has_token(t) {
                    let i = choose|i: int| 0 <= i < pre.toks().len() && pre.toks()[i] == t;
                    assert(self.toks()[i] == t);
                    assert(self.has_token(t));
                }
                if t == tok@ {
                    assert(self.toks()[ti as int] == t);
                    assert(self.has_token(t));
                }
            }
            // posting lists after the call
            assert forall|t: Seq<char>, id: u64|
                #[trigger] self.posting_of(t).contains(id) <==> (pre.posting_of(t).contains(id)
                || (t == tok@ && id == doc_id)) by {
                if t == tok@ {
                    lemma_token_index_unique(*self, t, ti as int);
                    assert(self.posting_of(t) == self.posting(ti as int));
                    assert(self.posting(ti as int) == pl@);
                    if pre.has_token(t) {
                        lemma_token_index_unique(pre, t, ti as int);
                        assert(pre.posting_of(t) == pre.posting(ti as int));
                        assert(pre.posting(ti as int) == before_pl.posting(ti as int));
                        assert(forall|y: u64|
                            pl@.contains(y) <==> (before_pl.posting(ti as int).contains(y) || y
                                == doc_id));
                    } else {
                        assert(pre.posting_of(t) == Seq::<u64>::empty());
                        assert(before_pl.posting(ti as int) =~= Seq::<u64>::empty());
                        assert(forall|y: u64|
                            pl@.contains(y) <==> (before_pl.posting(ti as int).contains(y) || y
                                == doc_id));
                    }
                } else {
                    if self.has_token(t) {
                        let i = choose|i: int|
                            0 <= i < self.toks().len() && self.toks()[i] == t;
                        lemma_token_index_unique(*self, t, i);
                        assert(i != ti as int);
                        assert(i < pre.toks().len() && pre.toks()[i] == t);
                        lemma_token_index_unique(pre, t, i);
                        assert(self.posting(i) == before_pl.posting(i));
                        assert(before_pl.posting(i) == pre.posting(i));
                        assert(self.posting_of(t) == pre.posting_of(t));
                    } else {
                        assert(!pre.has_token(t)) by {
                            if pre.has_token(t) {
                                let i = choose|i: int|
                                    0 <= i < pre.toks().len() && pre.toks()[i] == t;
                                assert(self.toks()[i] == t);
                            }
                        }
                        assert(self.posting_of(t) == Seq::<u64>::empty());
                        assert(pre.posting_of(t) == Seq::<u64>::empty());
                    }
                }
            }
        }
        Ok(())
    }
}

/// `t` is a token of the first `j` documents, or of the first `m` tokens of
/// the current document `j`.
pub open spec fn vocab_p(
    docs: Seq<Document>,
    stops: Seq<Seq<char>>,
    j: int,
    tl: Seq<Seq<char>>,
    m: int,
    t: Seq<char>,
) -> bool {
    vocab_contains(docs, stops, j, t) || tl.take(m).contains(t)
}

/// Occurrence within the first `j` documents, or within the first `m`
/// tokens of the current document, whose id is `dj_id`.
pub open spec fn occurs_p(
    docs: Seq<Document>,
    stops: Seq<Seq<char>>,
    j: int,
    dj_id: u64,
    tl: Seq<Seq<char>>,
    m: int,
    t: Seq<char>,
    id: u64,
) -> bool {
    occurs(docs, stops, j, t, id) || (dj_id == id && tl.take(m).contains(t))
}

impl Index {
    /// Build the index from the first `limit` documents of `docs`, with the
    /// stopword lines as read from the stopwords file.  Fails with
    /// `InternalInvariant` exactly when the fixed-seed hash maps two
    /// distinct corpus tokens to the same term id.
    #[verifier::rlimit(100)]
    pub fn new(docs: &Vec<Document>, stopword_lines: &Vec<String>, cfg: &Config) -> (r: Result<
        Index,
        SearchError,
    >)
        requires
            cfg.k >= 1,
        ensures
            ({
                let stops = clean_stops(str_views(stopword_lines@));
                let n = n_docs(docs@, cfg.limit as int);
                match r {
                    Ok(idx) => {
                        &&& idx.built_from(docs@, stops, n)
                        &&& idx.spec_k() == cfg.k
                        &&& idx.spec_strict() == cfg.strict_kgrams
                        &&& hash_ok(docs@, stops, n)
                    },
                    Err(e) => e == SearchError::InternalInvariant && !hash_ok(docs@, stops, n),
                }
            }),
    {
        let ghost st = clean_stops(str_views(stopword_lines@));
        let mut line_vecs: Vec<Vec<char>> = Vec::new();
        let mut li: usize = 0;
        while li < stopword_lines.len()
            invariant
                li <= stopword_lines@.len(),
                views(line_vecs@) == str_views(stopword_lines@).take(li as int),
            decreases stopword_lines.len() - li,
        {
            let ghost prev = line_vecs@;
            let v = chars_vec(stopword_lines[li].as_str());
            line_vecs.push(v);
            proof {
                assert(views(line_vecs@) =~= views(prev).push(stopword_lines@[li as int]@));
                assert(views(line_vecs@) =~= str_views(stopword_lines@).take(li + 1));
            }
            li = li + 1;
        }
        proof {
            assert(str_views(stopword_lines@).take(li as int) =~= str_views(stopword_lines@));
        }
        let stops = clean_stops_vec(&line_vecs);
        proof {
            assert(views(stops@) == st);
        }
        let mut idx = Index {
            tokens: Vec::new(),
            term_ids: Vec::new(),
            postings: Vec::new(),
            kgram_keys: Vec::new(),
            kgram_buckets: Vec::new(),
            k: cfg.k,
            strict_kgrams: cfg.strict_kgrams,
        };
        let n: usize = if docs.len() < cfg.limit {
            docs.len()
        } else {
            cfg.limit
        };
        proof {
            assert(n as int == n_docs(docs@, cfg.limit as int));
            assert forall|t: Seq<char>| !idx.has_token(t) by {}
            assert forall|t: Seq<char>, id: u64| !(#[trigger] idx.posting_of(t).contains(
                id,
            )) by {}
        }
        let mut j: usize = 0;
        while j < n
            invariant
                j <= n,
                n <= docs@.len(),
                n as int == n_docs(docs@, cfg.limit as int),
                views(stops@) == st,
                st == clean_stops(str_views(stopword_lines@)),
                idx.wf(),
                idx.kg_sound(),
                idx.kg_backed(),
                idx.k == cfg.k,
                idx.strict_kgrams == cfg.strict_kgrams,
                forall|t: Seq<char>|
                    #[trigger] idx.has_token(t) <==> vocab_contains(docs@, st, j as int, t),
                forall|t: Seq<char>, id: u64|
                    #[trigger] idx.posting_of(t).contains(id) <==> occurs(
                        docs@,
                        st,
                        j as int,
                        t,
                        id,
                    ),
            decreases n - j,
        {
            let body_chars = chars_vec(docs[j].body.as_str());
            let toks = normalize(&body_chars, &stops);
            let ghost tl = views(toks@);
            proof {
                assert(tl == doc_toks(docs@[j as int], st));
                assert(tl.take(0) =~= Seq::<Seq<char>>::empty());
            }
            let d_id = docs[j].id;
            let mut m: usize = 0;
            while m < toks.len()
                invariant
                    m <= toks@.len(),
                    j < n <= docs@.len(),
                    n as int == n_docs(docs@, cfg.limit as int),
                    views(stops@) == st,
                    tl == views(toks@),
                    tl == doc_toks(docs@[j as int], st),
                    st == clean_stops(str_views(stopword_lines@)),
                    d_id == docs@[j as int].id,
                    idx.wf(),
                    idx.kg_sound(),
                    idx.kg_backed(),
                    idx.k == cfg.k,
                    idx.strict_kgrams == cfg.strict_kgrams,
                    forall|t: Seq<char>|
                        #[trigger] idx.has_token(t) <==> vocab_p(docs@, st, j as int, tl, m as int, t),
                    forall|t: Seq<char>, id: u64|
                        #[trigger] idx.posting_of(t).contains(id) <==> occurs_p(
                            docs@,
                            st,
                            j as int,
                            d_id,
                            tl,
                            m as int,
                            t,
                            id,
                        ),
                decreases toks@.len() - m,
            {
                let ghost old_idx = idx;
                let res = idx.record(&toks[m], d_id);
                match res {
                    Ok(()) => {
                        proof {
                            assert(toks@[m as int]@ == tl[m as int]);
                            assert forall|t: Seq<char>|
                                #[trigger] idx.has_token(t) <==> vocab_p(
                                    docs@,
                                    st,
                                    j as int,
                                    tl,
                                    m + 1 as int,
                                    t,
                                ) by {
                                assert(idx.has_token(t) <==> (old_idx.has_token(t) || t
                                    == tl[m as int]));
                                assert(old_idx.has_token(t) <==> vocab_p(
                                    docs@,
                                    st,
                                    j as int,
                                    tl,
                                    m as int,
                                    t,
                                ));
                                if tl.take(m as int).contains(t) {
                                    let p = choose|p: int|
                                        0 <= p < tl.take(m as int).len() && #[trigger] tl.take(
                                            m as int,
                                        )[p] == t;
                                    assert(tl.take(m + 1)[p] == t);
                                    assert(tl.take(m + 1).contains(t));
                                }
                                if t == tl[m as int] {
                                    assert(tl.take(m + 1)[m as int] == t);
                                    assert(tl.take(m + 1).contains(t));
                                }
                                if tl.take(m + 1).contains(t) {
                                    let p = choose|p: int|
                                        0 <= p < tl.take(m + 1).len() && #[trigger] tl.take(m + 1)[p] == t;
                                    if p < m {
                                        assert(tl.take(m as int)[p] == t);
                                        assert(tl.take(m as int).contains(t));
                                    } else {
                                        assert(t == tl[m as int]);
                                    }
                                }
                            }
                            assert forall|t: Seq<char>, id: u64|
                                #[trigger] idx.posting_of(t).contains(id) <==> occurs_p(
                                    docs@,
                                    st,
                                    j as int,
                                    d_id,
                                    tl,
                                    m + 1 as int,
                                    t,
                                    id,
                                ) by {
                                assert(idx.posting_of(t).contains(id) <==> (old_idx.posting_of(
                                    t,
                                ).contains(id) || (t == tl[m as int] && id == d_id)));
                                assert(old_idx.posting_of(t).contains(id) <==> occurs_p(
                                    docs@,
                                    st,
                                    j as int,
                                    d_id,
                                    tl,
                                    m as int,
                                    t,
                                    id,
                                ));
                                if tl.take(m as int).contains(t) {
                                    let p = choose|p: int|
                                        0 <= p < tl.take(m as int).len() && #[trigger] tl.take(
                                            m as int,
                                        )[p] == t;
                                    assert(tl.take(m + 1)[p] == t);
                                    assert(tl.take(m + 1).contains(t));
                                }
                                if t == tl[m as int] {
                                    assert(tl.take(m + 1)[m as int] == t);
                                    assert(tl.take(m + 1).contains(t));
                                }
                                if tl.take(m + 1).contains(t) {
                                    let p = choose|p: int|
                                        0 <= p < tl.take(m + 1).len() && #[trigger] tl.take(m + 1)[p] == t;
                                    if p < m {
                                        assert(tl.take(m as int)[p] == t);
                                        assert(tl.take(m as int).contains(t));
                                    } else {
                                        assert(t == tl[m as int]);
                                    }
                                }
                            }
                        }
                    },
                    Err(e) => {
                        proof {
                            let i = choose|i: int|
                                0 <= i < old_idx.toks().len() && old_idx.toks()[i] != toks@[m as int]@ && term_hash(old_idx.toks()[i]) == term_hash(
                                    toks@[m as int]@,
                                );
                            let t1 = old_idx.toks()[i];
                            let t2 = tl[m as int];
                            assert(old_idx.has_token(t1));
                            assert(vocab_p(docs@, st, j as int, tl, m as int, t1));
                            assert(vocab_contains(docs@, st, n as int, t1)) by {
                                if vocab_contains(docs@, st, j as int, t1) {
                                    let j2 = choose|j2: int|
                                        0 <= j2 < j && #[trigger] doc_toks(docs@[j2], st).contains(
                                            t1,
                                        );
                                    assert(doc_toks(docs@[j2], st).contains(t1));
                                } else {
                                    let p = choose|p: int|
                                        0 <= p < m && p < tl.len() && tl.take(m as int)[p] == t1;
                                    assert(tl[p] == t1);
                                    assert(doc_toks(docs@[j as int], st).contains(t1));
                                }
                            }
                            assert(tl.contains(t2)) by {
                                assert(tl[m as int] == t2);
                            }
                            assert(vocab_contains(docs@, st, n as int, t2)) by {
                                assert(doc_toks(docs@[j as int], st).contains(t2));
                            }
                            assert(!hash_ok(docs@, st, n as int)) by {
                                if hash_ok(docs@, st, n as int) {
                                    assert(term_hash(t1) != term_hash(t2));
                                }
                            }
                            assert(e == SearchError::InternalInvariant);
                            assert(st == clean_stops(str_views(stopword_lines@)));
                            assert(n as int == n_docs(docs@, cfg.limit as int));
                        }
                        return Err(e);
                    },
                }
                m = m + 1;
            }
            proof {
                assert(tl.take(toks@.len() as int) =~= tl);
                assert forall|t: Seq<char>|
                    #[trigger] idx.has_token(t) <==> vocab_contains(docs@, st, j + 1, t) by {
                    assert(idx.has_token(t) <==> vocab_p(docs@, st, j as int, tl, tl.len() as int, t));
                    if vocab_contains(docs@, st, j as int, t) {
                        let j2 = choose|j2: int|
                            0 <= j2 < j && #[trigger] doc_toks(docs@[j2], st).contains(t);
                        assert(doc_toks(docs@[j2], st).contains(t));
                        assert(vocab_contains(docs@, st, j + 1, t));
                    }
                    if tl.contains(t) {
                        assert(doc_toks(docs@[j as int], st).contains(t));
                        assert(vocab_contains(docs@, st, j + 1, t));
                    }
                    if vocab_contains(docs@, st, j + 1, t) {
                        let j2 = choose|j2: int|
                            0 <= j2 < j + 1 && #[trigger] doc_toks(docs@[j2], st).contains(t);
                        if j2 < j {
                            assert(vocab_contains(docs@, st, j as int, t));
                        } else {
                            assert(tl.contains(t));
                        }
                    }
                }
                assert forall|t: Seq<char>, id: u64|
                    #[trigger] idx.posting_of(t).contains(id) <==> occurs(
                        docs@,
                        st,
                        j + 1,
                        t,
                        id,
                    ) by {
                    assert(idx.posting_of(t).contains(id) <==> occurs_p(
                        docs@,
                        st,
                        j as int,
                        d_id,
                        tl,
                        tl.len() as int,
                        t,
                        id,
                    ));
                    if occurs(docs@, st, j as int, t, id) {
                        let j2 = choose|j2: int|
                            0 <= j2 < j && docs@[j2].id == id && #[trigger] doc_toks(
                                docs@[j2],
                                st,
                            ).contains(t);
                        assert(doc_toks(docs@[j2], st).contains(t));
                        assert(occurs(docs@, st, j + 1, t, id));
                    }
                    if d_id == id && tl.contains(t) {
                        assert(doc_toks(docs@[j as int], st).contains(t));
                        assert(occurs(docs@, st, j + 1, t, id));
                    }
                    if occurs(docs@, st, j + 1, t, id) {
                        let j2 = choose|j2: int|
                            0 <= j2 < j + 1 && docs@[j2].id == id && #[trigger] doc_toks(
                                docs@[j2],
                                st,
                            ).contains(t);
                        if j2 < j {
                            assert(occurs(docs@, st, j as int, t, id));
                        } else {
                            assert(d_id == id && tl.contains(t));
                        }
                    }
                }
            }
            j = j + 1;
        }
        proof {
            assert(idx.built_from(docs@, st, n as int));
            lemma_built_hash_ok(idx, docs@, st, n as int);
        }
        Ok(idx)
    }
}

impl Index {
    /// `g` is a key of the k-gram index.
    pub open spec fn has_gram(self, g: Seq<char>) -> bool {
        exists|b: int| 0 <= b < self.keyseq().len() && self.keyseq()[b] == g
    }

    /// The entry of key `g`.
    pub open spec fn gram_index(self, g: Seq<char>) -> int {
        choose|b: int| 0 <= b < self.keyseq().len() && self.keyseq()[b] == g
    }

    /// The term ids recorded under k-gram `g`; empty when `g` is no key.
    pub open spec fn gram_bucket(self, g: Seq<char>) -> Seq<u64> {
        if self.has_gram(g) {
            self.bucket(self.gram_index(g))
        } else {
            Seq::empty()
        }
    }

    /// `x` is a term id carried by every one of the k-grams `gs`.
    pub open spec fn cand_of(self, gs: Seq<Seq<char>>, x: u64) -> bool {
        forall|gi: int| 0 <= gi < gs.len() ==> self.gram_bucket(gs[gi]).contains(x)
    }

    /// Some candidate term of the k-grams `gs` occurs in document `id`.
    pub open spec fn wild_docs_of(self, gs: Seq<Seq<char>>, id: u64) -> bool {
        exists|i: int|
            0 <= i < self.toks().len() && self.cand_of(gs, self.tids()[i])
                && #[trigger] self.posting(i).contains(id)
    }

    /// A k-gram of the pattern is no key of the index.
    pub open spec fn missing_gram(self, gs: Seq<Seq<char>>) -> bool {
        exists|gi: int| 0 <= gi < gs.len() && !self.has_gram(gs[gi])
    }

    /// Why query term `q` fails, if it does: an unsupported pattern; a
    /// literal term outside the vocabulary; or, in strict mode, a wildcard
    /// fragment k-gram that no indexed token contains.
    pub open spec fn term_error(self, q: Seq<char>) -> Option<SearchError> {
        if q_bad(q) {
            Some(SearchError::UnsupportedPattern)
        } else if !has_star(q) && !self.has_token(q) {
            Some(SearchError::OOVTerm)
        } else if has_star(q) && self.spec_strict() && self.missing_gram(
            q_grams(q, self.spec_k()),
        ) {
            Some(SearchError::OOVKgram)
        } else {
            None
        }
    }

    /// `q` narrows the result: a literal term always does; a wildcard term
    /// does when it yields at least one k-gram.
    pub open spec fn constraining(self, q: Seq<char>) -> bool {
        if has_star(q) {
            q_grams(q, self.spec_k()).len() > 0
        } else {
            true
        }
    }

    /// Document `id` satisfies every term of the query: it is in the
    /// posting list of every literal term and in the candidate-docs set of
    /// every constraining wildcard term.
    pub open spec fn q_matches(self, tv: Seq<Seq<char>>, id: u64) -> bool {
        forall|i: int|
            0 <= i < tv.len() ==> (if !has_star(#[trigger] tv[i]) {
                self.posting_of(tv[i]).contains(id)
            } else if q_grams(tv[i], self.spec_k()).len() > 0 {
                self.wild_docs_of(q_grams(tv[i], self.spec_k()), id)
            } else {
                true
            })
    }

    /// Some term of the query narrows the result.
    pub open spec fn any_constraint(self, tv: Seq<Seq<char>>) -> bool {
        exists|i: int| 0 <= i < tv.len() && self.constraining(#[trigger] tv[i])
    }
}

/// With distinct keys, any entry holding `g` is the entry of `g`.
proof fn lemma_gram_index_unique(idx: Index, g: Seq<char>, b: int)
    requires
        idx.wf(),
        0 <= b < idx.keyseq().len(),
        idx.keyseq()[b] == g,
    ensures
        idx.has_gram(g),
        idx.gram_index(g) == b,
        idx.gram_bucket(g) == idx.bucket(b),
{
    assert(idx.has_gram(g));
    let b2 = idx.gram_index(g);
    if b2 != b {
        if b < b2 {
            assert(idx.keyseq()[b] != idx.keyseq()[b2]);
        } else {
            assert(idx.keyseq()[b2] != idx.keyseq()[b]);
        }
        assert(false);
    }
}

/// With injective ids, any entry holding id `x` is the entry of `x`.
proof fn lemma_tid_index_unique(idx: Index, x: u64, i: int)
    requires
        idx.wf(),
        0 <= i < idx.tids().len(),
        idx.tids()[i] == x,
    ensures
        idx.tid_index(x) == i,
{
    let i2 = idx.tid_index(x);
    assert(0 <= i2 < idx.tids().len() && idx.tids()[i2] == x);
    if i2 != i {
        if i < i2 {
            assert(idx.tids()[i] != idx.tids()[i2]);
        } else {
            assert(idx.tids()[i2] != idx.tids()[i]);
        }
        assert(false);
    }
}

impl Index {
    /// The dictionary entry of term id `x`.
    pub open spec fn tid_index(self, x: u64) -> int {
        choose|i: int| 0 <= i < self.tids().len() && self.tids()[i] == x
    }
}

/// Find the dictionary entry of a term id.
fn find_tid(ids: &Vec<u64>, x: u64) -> (r: Option<usize>)
    ensures
        match r {
            Some(i) => i < ids@.len() && ids@[i as int] == x,
            None => forall|q: int| 0 <= q < ids@.len() ==> ids@[q] != x,
        },
{
    let mut i: usize = 0;
    while i < ids.len()
        invariant
            i <= ids@.len(),
            forall|q: int| 0 <= q < i ==> ids@[q] != x,
        decreases ids.len() - i,
    {
        if ids[i] == x {
            return Some(i);
        }
        i = i + 1;
    }
    None
}

impl Index {
    /// The documents a wildcard pattern with k-grams `grams` can match: the
    /// union of the posting lists of the terms that carry every one of the
    /// k-grams.  In strict mode an absent k-gram fails with `OOVKgram`;
    /// otherwise it empties the candidate set.
    fn wild_term_docs(&self, grams: &Vec<Vec<char>>) -> (r: Result<Vec<u64>, SearchError>)
        requires
            self.wf(),
            self.kg_backed(),
            grams@.len() > 0,
        ensures
            match r {
                Ok(docs) => {
                    &&& strictly_sorted(docs@)
                    &&& forall|id: u64|
                        #[trigger] docs@.contains(id) <==> self.wild_docs_of(views(grams@), id)
                    &&& !(self.spec_strict() && self.missing_gram(views(grams@)))
                },
                Err(e) => {
                    &&& e == SearchError::OOVKgram
                    &&& self.spec_strict()
                    &&& self.missing_gram(views(grams@))
                },
            },
    {
        let ghost gs = views(grams@);
        let mut cands: Vec<u64>;
        match find_seq(&self.kgram_keys, &grams[0]) {
            Some(b) => {
                proof {
                    lemma_gram_index_unique(*self, gs[0], b as int);
                }
                cands = copy_ids(&self.kgram_buckets[b]);
            },
            None => {
                proof {
                    assert(!self.has_gram(gs[0])) by {
                        if self.has_gram(gs[0]) {
                            let b = choose|b: int|
                                0 <= b < self.keyseq().len() && self.keyseq()[b] == gs[0];
                        }
                    }
                    assert(self.missing_gram(gs));
                }
                if self.strict_kgrams {
                    return Err(SearchError::OOVKgram);
                }
                let docs: Vec<u64> = Vec::new();
                proof {
                    assert forall|id: u64| !self.wild_docs_of(gs, id) by {
                        if self.wild_docs_of(gs, id) {
                            let i = choose|i: int|
                                0 <= i < self.toks().len() && self.cand_of(gs, self.tids()[i])
                                    && #[trigger] self.posting(i).contains(id);
                            assert(self.gram_bucket(gs[0]).contains(self.tids()[i]));
                        }
                    }
                }
                return Ok(docs);
            },
        }
        let mut gi: usize = 1;
        while gi < grams.len()
            invariant
                1 <= gi <= grams@.len(),
                gs == views(grams@),
                self.wf(),
                self.kg_backed(),
                strictly_sorted(cands@),
                forall|x: u64|
                    #[trigger] cands@.contains(x) <==> (forall|g2: int|
                        0 <= g2 < gi ==> self.gram_bucket(gs[g2]).contains(x)),
                forall|g2: int| 0 <= g2 < gi ==> self.has_gram(#[trigger] gs[g2]),
            decreases grams@.len() - gi,
        {
            match find_seq(&self.kgram_keys, &grams[gi]) {
                Some(b) => {
                    proof {
                        lemma_gram_index_unique(*self, gs[gi as int], b as int);
                    }
                    let next = intersect(&cands, &self.kgram_buckets[b]);
                    proof {
                        assert forall|x: u64|
                            #[trigger] next@.contains(x) <==> (forall|g2: int|
                                0 <= g2 < gi + 1 ==> self.gram_bucket(gs[g2]).contains(x)) by {
                            if next@.contains(x) {
                                assert(cands@.contains(x));
                                assert(self.bucket(b as int).contains(x));
                                assert forall|g2: int|
                                    0 <= g2 < gi + 1 implies self.gram_bucket(gs[g2]).contains(
                                    x,
                                ) by {
                                    if g2 < gi {
                                        assert(cands@.contains(x));
                                    }
                                }
                            } else {
                                if forall|g2: int|
                                    0 <= g2 < gi + 1 ==> self.gram_bucket(gs[g2]).contains(x) {
                                    assert forall|g2: int|
                                        0 <= g2 < gi implies self.gram_bucket(gs[g2]).contains(
                                        x,
                                    ) by {}
                                    assert(cands@.contains(x));
                                    assert(self.gram_bucket(gs[gi as int]).contains(x));
                                    assert(false);
                                }
                            }
                        }
                    }
                    cands = next;
                },
                None => {
                    proof {
                        assert(!self.has_gram(gs[gi as int])) by {
                            if self.has_gram(gs[gi as int]) {
                                let b = choose|b: int|
                                    0 <= b < self.keyseq().len() && self.keyseq()[b] == gs[gi as int];
                            }
                        }
                        assert(self.missing_gram(gs));
                    }
                    if self.strict_kgrams {
                        return Err(SearchError::OOVKgram);
                    }
                    let docs: Vec<u64> = Vec::new();
                    proof {
                        assert forall|id: u64| !self.wild_docs_of(gs, id) by {
                            if self.wild_docs_of(gs, id) {
                                let i = choose|i: int|
                                    0 <= i < self.toks().len() && self.cand_of(
                                        gs,
                                        self.tids()[i],
                                    ) && #[trigger] self.posting(i).contains(id);
                                assert(self.gram_bucket(gs[gi as int]).contains(self.tids()[i]));
                            }
                        }
                    }
                    return Ok(docs);
                },
            }
            gi = gi + 1;
        }
        proof {
            assert forall|x: u64| #[trigger] cands@.contains(x) <==> self.cand_of(gs, x) by {}
            assert(!self.missing_gram(gs)) by {
                if self.missing_gram(gs) {
                    let g2 = choose|g2: int| 0 <= g2 < gs.len() && !self.has_gram(gs[g2]);
                    assert(self.has_gram(gs[g2]));
                }
            }
        }
        // union of the candidates' posting lists
        let mut docs: Vec<u64> = Vec::new();
        let mut ci: usize = 0;
        while ci < cands.len()
            invariant
                ci <= cands@.len(),
                gs == views(grams@),
                gs.len() > 0,
                self.wf(),
                self.kg_backed(),
                strictly_sorted(cands@),
                strictly_sorted(docs@),
                forall|x: u64| #[trigger] cands@.contains(x) <==> self.cand_of(gs, x),
                forall|id: u64|
                    #[trigger] docs@.contains(id) <==> (exists|p: int|
                        0 <= p < ci && self.posting(self.tid_index(cands@[p])).contains(id)),
            decreases cands@.len() - ci,
        {
            let x = cands[ci];
            proof {
                assert(cands@.contains(x));
                assert(self.gram_bucket(gs[0]).contains(x));
                assert(self.has_gram(gs[0]));
                assert(self.bucket(self.gram_index(gs[0])).contains(x));
            }
            let oi = find_tid(&self.term_ids, x);
            let ti: usize;
            match oi {
                Some(i) => {
                    ti = i;
                    proof {
                        lemma_tid_index_unique(*self, x, ti as int);
                    }
                },
                None => {
                    proof {
                        let i = choose|i: int|
                            0 <= i < self.toks().len() && self.tids()[i] == x && kgrams(
                                anchor_both(self.toks()[i]),
                                self.spec_k(),
                            ).contains(self.keyseq()[self.gram_index(gs[0])]);
                        assert(self.tids()[i] == x);
                        assert(false);
                    }
                    ti = 0;
                },
            }
            let ghost prev = docs@;
            proof {
                assert(self.postings@[ti as int]@ == self.posting(ti as int));
                assert(strictly_sorted(self.posting(ti as int)));
            }
            let next = union_sorted(&docs, &self.postings[ti]);
            docs = next;
            proof {
                assert forall|id: u64|
                    #[trigger] docs@.contains(id) <==> (exists|p: int|
                        0 <= p < ci + 1 && self.posting(self.tid_index(cands@[p])).contains(
                            id,
                        )) by {
                    if docs@.contains(id) {
                        if prev.contains(id) {
                            let p = choose|p: int|
                                0 <= p < ci && self.posting(self.tid_index(cands@[p])).contains(
                                    id,
                                );
                            assert(0 <= p < ci + 1 && self.posting(
                                self.tid_index(cands@[p]),
                            ).contains(id));
                        } else {
                            assert(self.posting(ti as int).contains(id));
                            assert(self.tid_index(cands@[ci as int]) == ti as int);
                            assert(0 <= ci < ci + 1 && self.posting(
                                self.tid_index(cands@[ci as int]),
                            ).contains(id));
                        }
                    } else {
                        if exists|p: int|
                            0 <= p < ci + 1 && self.posting(self.tid_index(cands@[p])).contains(
                                id,
                            ) {
                            let p = choose|p: int|
                                0 <= p < ci + 1 && self.posting(self.tid_index(cands@[p])).contains(
                                    id,
                                );
                            if p < ci {
                                assert(prev.contains(id));
                            } else {
                                assert(self.posting(ti as int).contains(id));
                            }
                            assert(false);
                        }
                    }
                }
            }
            ci = ci + 1;
        }
        proof {
            assert forall|id: u64| #[trigger] docs@.contains(id) <==> self.wild_docs_of(
                gs,
                id,
            ) by {
                if docs@.contains(id) {
                    let p = choose|p: int|
                        0 <= p < cands@.len() && self.posting(self.tid_index(cands@[p])).contains(
                            id,
                        );
                    assert(cands@.contains(cands@[p]));
                    assert(self.cand_of(gs, cands@[p]));
                    assert(self.gram_bucket(gs[0]).contains(cands@[p]));
                    let i = self.tid_index(cands@[p]);
                    assert(self.has_gram(gs[0]));
                    let b0 = self.gram_index(gs[0]);
                    assert(self.bucket(b0).contains(cands@[p]));
                    let iw = choose|iw: int|
                        0 <= iw < self.toks().len() && self.tids()[iw] == cands@[p] && kgrams(
                            anchor_both(self.toks()[iw]),
                            self.spec_k(),
                        ).contains(self.keyseq()[b0]);
                    lemma_tid_index_unique(*self, cands@[p], iw);
                    assert(i == iw);
                    assert(self.cand_of(gs, self.tids()[i]));
                    assert(self.posting(i).contains(id));
                    assert(self.wild_docs_of(gs, id));
                } else {
                    if self.wild_docs_of(gs, id) {
                        let i = choose|i: int|
                            0 <= i < self.toks().len() && self.cand_of(gs, self.tids()[i])
                                && #[trigger] self.posting(i).contains(id);
                        assert(cands@.contains(self.tids()[i]));
                        let p = choose|p: int| 0 <= p < cands@.len() && cands@[p] == self.tids()[i];
                        lemma_tid_index_unique(*self, self.tids()[i], i);
                        assert(self.posting(self.tid_index(cands@[p])).contains(id));
                        assert(false);
                    }
                }
            }
        }
        Ok(docs)
    }
}

/// Entry `e` of the dictionary is the entry of some literal query term.
pub open spec fn lit_entry_ok(idx: Index, tv: Seq<Seq<char>>, e: int) -> bool {
    exists|i: int| 0 <= i < tv.len() && !has_star(tv[i]) && idx.toks()[e] == #[trigger] tv[i]
}

/// Literal query term `i` has a dictionary entry among `lits`.
pub open spec fn lit_covered(idx: Index, tv: Seq<Seq<char>>, lits: Seq<usize>, i: int) -> bool {
    exists|p: int| 0 <= p < lits.len() && idx.toks()[#[trigger] lits[p] as int] == tv[i]
}

impl Index {
    /// Whether some k-gram of the pattern is absent from the index.
    fn some_gram_missing(&self, grams: &Vec<Vec<char>>) -> (r: bool)
        ensures
            r == self.missing_gram(views(grams@)),
    {
        let ghost gs = views(grams@);
        let mut gi: usize = 0;
        while gi < grams.len()
            invariant
                gi <= grams@.len(),
                gs == views(grams@),
                forall|g2: int| 0 <= g2 < gi ==> self.has_gram(#[trigger] gs[g2]),
            decreases grams@.len() - gi,
        {
            match find_seq(&self.kgram_keys, &grams[gi]) {
                Some(b) => {
                    proof {
                        assert(self.keyseq()[b as int] == gs[gi as int]);
                        assert(self.has_gram(gs[gi as int]));
                    }
                },
                None => {
                    proof {
                        assert(!self.has_gram(gs[gi as int])) by {
                            if self.has_gram(gs[gi as int]) {
                                let b = choose|b: int|
                                    0 <= b < self.keyseq().len() && self.keyseq()[b] == gs[
                                        gi as int];
                            }
                        }
                        assert(self.missing_gram(gs));
                    }
                    return true;
                },
            }
            gi = gi + 1;
        }
        proof {
            if self.missing_gram(gs) {
                let g2 = choose|g2: int| 0 <= g2 < gs.len() && !self.has_gram(gs[g2]);
                assert(self.has_gram(gs[g2]));
            }
        }
        false
    }

    /// Examine the terms in order and report the first failing one.
    #[verifier::rlimit(100)]
    fn check_terms(&self, terms: &Vec<Vec<char>>) -> (r: Result<(), SearchError>)
        requires
            self.wf(),
        ensures
            ({
                let tv = views(terms@);
                match r {
                    Ok(()) => forall|i: int|
                        0 <= i < tv.len() ==> self.term_error(#[trigger] tv[i]) is None,
                    Err(e) => exists|i: int|
                        0 <= i < tv.len() && self.term_error(#[trigger] tv[i]) == Some(e) && (
                        forall|i2: int| 0 <= i2 < i ==> self.term_error(tv[i2]) is None),
                }
            }),
    {
        let ghost tv = views(terms@);
        let mut ti: usize = 0;
        while ti < terms.len()
            invariant
                ti <= terms@.len(),
                tv == views(terms@),
                self.wf(),
                forall|i: int| 0 <= i < ti ==> self.term_error(#[trigger] tv[i]) is None,
            decreases terms@.len() - ti,
        {
            let q = &terms[ti];
            proof {
                assert(q@ == tv[ti as int]);
            }
            match classify(q, self.k) {
                TermShape::Literal => {
                    match find_seq(&self.tokens, q) {
                        Some(i) => {
                            proof {
                                assert(self.toks()[i as int] == tv[ti as int]);
                                assert(self.has_token(tv[ti as int]));
                                assert(self.term_error(tv[ti as int]) is None);
                            }
                        },
                        None => {
                            proof {
                                assert(!self.has_token(tv[ti as int])) by {
                                    if self.has_token(tv[ti as int]) {
                                        let i = choose|i: int|
                                            0 <= i < self.toks().len() && self.toks()[i] == tv[
                                                ti as int];
                                    }
                                }
                                assert(self.term_error(tv[ti as int]) == Some(
                                    SearchError::OOVTerm,
                                ));
                            }
                            return Err(SearchError::OOVTerm);
                        },
                    }
                },
                TermShape::Bad => {
                    proof {
                        assert(self.term_error(tv[ti as int]) == Some(
                            SearchError::UnsupportedPattern,
                        ));
                    }
                    return Err(SearchError::UnsupportedPattern);
                },
                TermShape::Grams(g) => {
                    if self.strict_kgrams {
                        if self.some_gram_missing(&g) {
                            proof {
                                assert(self.term_error(tv[ti as int]) == Some(
                                    SearchError::OOVKgram,
                                ));
                            }
                            return Err(SearchError::OOVKgram);
                        }
                    }
                    proof {
                        assert(self.term_error(tv[ti as int]) is None);
                    }
                },
            }
            ti = ti + 1;
        }
        Ok(())
    }

    /// Collect the dictionary entries of the literal terms, in order.
    #[verifier::rlimit(100)]
    fn collect_literals(&self, terms: &Vec<Vec<char>>) -> (lits: Vec<usize>)
        requires
            self.wf(),
            forall|i: int|
                0 <= i < views(terms@).len() ==> self.term_error(
                    #[trigger] views(terms@)[i],
                ) is None,
        ensures
            forall|p: int| 0 <= p < lits@.len() ==> 0 <= #[trigger] lits@[p] < self.toks().len(),
            forall|p: int|
                0 <= p < lits@.len() ==> lit_entry_ok(
                    *self,
                    views(terms@),
                    #[trigger] lits@[p] as int,
                ),
            forall|i: int|
                0 <= i < views(terms@).len() && !has_star(#[trigger] views(terms@)[i])
                    ==> lit_covered(*self, views(terms@), lits@, i),
    {
        let ghost tv = views(terms@);
        proof {
            assert forall|i: int| 0 <= i < tv.len() && !has_star(#[trigger] tv[i])
                implies self.has_token(tv[i]) by {
                assert(self.term_error(tv[i]) is None);
            }
        }
        let mut lits: Vec<usize> = Vec::new();
        // ghost tables: `wit[p]` is the term that entry `p` came from, and
        // `pos[i]` is the entry of term `i` when that term is literal
        let ghost mut wit: Seq<int> = Seq::empty();
        let ghost mut pos: Seq<int> = Seq::empty();
        let mut ti: usize = 0;
        while ti < terms.len()
            invariant
                ti <= terms@.len(),
                tv == views(terms@),
                self.wf(),
                forall|i: int|
                    0 <= i < tv.len() && !has_star(#[trigger] tv[i]) ==> self.has_token(tv[i]),
                wit.len() == lits@.len(),
                pos.len() == ti,
                forall|p: int|
                    0 <= p < lits@.len() ==> 0 <= #[trigger] lits@[p] < self.toks().len(),
                forall|p: int|
                    0 <= p < wit.len() ==> 0 <= #[trigger] wit[p] < ti && !has_star(tv[wit[p]])
                        && self.toks()[lits@[p] as int] == tv[wit[p]],
                forall|i: int|
                    0 <= i < ti && !has_star(#[trigger] tv[i]) ==> 0 <= pos[i] < lits@.len()
                        && self.toks()[lits@[pos[i]] as int] == tv[i],
            decreases terms@.len() - ti,
        {
            let q = &terms[ti];
            proof {
                assert(q@ == tv[ti as int]);
            }
            if !has_star_vec(q) {
                match find_seq(&self.tokens, q) {
                    Some(i) => {
                        let ghost prev = lits@;
                        lits.push(i);
                        proof {
                            assert(self.toks()[i as int] == tv[ti as int]);
                            assert(lits@ == prev.push(i as usize));
                            wit = wit.push(ti as int);
                            pos = pos.push(prev.len() as int);
                        }
                    },
                    None => {
                        proof {
                            assert(self.has_token(tv[ti as int]));
                            let i = choose|i: int|
                                0 <= i < self.toks().len() && self.toks()[i] == tv[ti as int];
                            assert(views(self.tokens@)[i] == tv[ti as int]);
                            assert(false);
                        }
                    },
                }
            } else {
                proof {
                    pos = pos.push(0);
                }
            }
            ti = ti + 1;
        }
        proof {
            assert forall|p: int|
                0 <= p < lits@.len() implies lit_entry_ok(
                *self,
                tv,
                #[trigger] lits@[p] as int,
            ) by {
                assert(0 <= wit[p] < tv.len() && !has_star(tv[wit[p]]) && self.toks()[lits@[
                    p] as int] == tv[wit[p]]);
            }
            assert forall|i: int|
                0 <= i < tv.len() && !has_star(#[trigger] tv[i]) implies lit_covered(
                *self,
                tv,
                lits@,
                i,
            ) by {
                assert(0 <= pos[i] < lits@.len() && self.toks()[lits@[pos[i]] as int] == tv[i]);
            }
        }
        lits
    }

    /// Intersect the candidate-document sets of the constraining wildcard
    /// terms; `None` when there is no such term.
    #[verifier::rlimit(100)]
    fn collect_wild(&self, terms: &Vec<Vec<char>>) -> (wild: Option<Vec<u64>>)
        requires
            self.wf(),
            self.kg_backed(),
            forall|i: int|
                0 <= i < views(terms@).len() ==> self.term_error(
                    #[trigger] views(terms@)[i],
                ) is None,
        ensures
            ({
                let tv = views(terms@);
                match wild {
                    None => forall|i: int|
                        0 <= i < tv.len() && has_star(#[trigger] tv[i]) ==> q_grams(
                            tv[i],
                            self.spec_k(),
                        ).len() == 0,
                    Some(w) => {
                        &&& strictly_sorted(w@)
                        &&& exists|i: int|
                            0 <= i < tv.len() && has_star(#[trigger] tv[i]) && q_grams(
                                tv[i],
                                self.spec_k(),
                            ).len() > 0
                        &&& forall|id: u64|
                            #[trigger] w@.contains(id) <==> (forall|i: int|
                                0 <= i < tv.len() && has_star(#[trigger] tv[i]) && q_grams(
                                    tv[i],
                                    self.spec_k(),
                                ).len() > 0 ==> self.wild_docs_of(
                                    q_grams(tv[i], self.spec_k()),
                                    id,
                                ))
                    },
                }
            }),
    {
        let ghost tv = views(terms@);
        let mut wild: Option<Vec<u64>> = None;
        let mut ti: usize = 0;
        while ti < terms.len()
            invariant
                ti <= terms@.len(),
                tv == views(terms@),
                self.wf(),
                self.kg_backed(),
                forall|i: int|
                    0 <= i < tv.len() ==> self.term_error(#[trigger] tv[i]) is None,
                match wild {
                    None => forall|i: int|
                        0 <= i < ti && has_star(#[trigger] tv[i]) ==> q_grams(
                            tv[i],
                            self.spec_k(),
                        ).len() == 0,
                    Some(w) => {
                        &&& strictly_sorted(w@)
                        &&& exists|i: int|
                            0 <= i < ti && has_star(#[trigger] tv[i]) && q_grams(
                                tv[i],
                                self.spec_k(),
                            ).len() > 0
                        &&& forall|id: u64|
                            #[trigger] w@.contains(id) <==> (forall|i: int|
                                0 <= i < ti && has_star(#[trigger] tv[i]) && q_grams(
                                    tv[i],
                                    self.spec_k(),
                                ).len() > 0 ==> self.wild_docs_of(
                                    q_grams(tv[i], self.spec_k()),
                                    id,
                                ))
                    },
                },
            decreases terms@.len() - ti,
        {
            let q = &terms[ti];
            proof {
                assert(q@ == tv[ti as int]);
            }
            match classify(q, self.k) {
                TermShape::Literal => {},
                TermShape::Bad => {
                    proof {
                        assert(self.term_error(tv[ti as int]) == Some(
                            SearchError::UnsupportedPattern,
                        ));
                        assert(false);
                    }
                },
                TermShape::Grams(g) => {
                    if g.len() > 0 {
                        match self.wild_term_docs(&g) {
                            Err(e) => {
                                proof {
                                    assert(self.term_error(tv[ti as int]) == Some(
                                        SearchError::OOVKgram,
                                    ));
                                    assert(false);
                                }
                            },
                            Ok(d) => {
                                match wild {
                                    None => {
                                        proof {
                                            assert forall|id: u64|
                                                #[trigger] d@.contains(id) <==> (forall|i: int|
                                                    0 <= i < ti + 1 && has_star(
                                                        #[trigger] tv[i],
                                                    ) && q_grams(tv[i], self.spec_k()).len() > 0
                                                        ==> self.wild_docs_of(
                                                        q_grams(tv[i], self.spec_k()),
                                                        id,
                                                    )) by {
                                                if d@.contains(id) {
                                                    assert forall|i: int|
                                                        0 <= i < ti + 1 && has_star(
                                                            #[trigger] tv[i],
                                                        ) && q_grams(tv[i], self.spec_k()).len()
                                                            > 0 implies self.wild_docs_of(
                                                        q_grams(tv[i], self.spec_k()),
                                                        id,
                                                    ) by {
                                                        if i < ti {
                                                            assert(q_grams(
                                                                tv[i],
                                                                self.spec_k(),
                                                            ).len() == 0);
                                                        }
                                                    }
                                                }
                                            }
                                        }
                                        wild = Some(d);
                                    },
                                    Some(w) => {
                                        let both = intersect(&w, &d);
                                        proof {
                                            assert forall|id: u64|
                                                #[trigger] both@.contains(id) <==> (forall|i: int|
                                                    0 <= i < ti + 1 && has_star(
                                                        #[trigger] tv[i],
                                                    ) && q_grams(tv[i], self.spec_k()).len() > 0
                                                        ==> self.wild_docs_of(
                                                        q_grams(tv[i], self.spec_k()),
                                                        id,
                                                    )) by {
                                                if both@.contains(id) {
                                                    assert(w@.contains(id));
                                                    assert(d@.contains(id));
                                                    assert forall|i: int|
                                                        0 <= i < ti + 1 && has_star(
                                                            #[trigger] tv[i],
                                                        ) && q_grams(tv[i], self.spec_k()).len()
                                                            > 0 implies self.wild_docs_of(
                                                        q_grams(tv[i], self.spec_k()),
                                                        id,
                                                    ) by {
                                                        if i < ti {
                                                            assert(w@.contains(id));
                                                        } else {
                                                            assert(d@.contains(id));
                                                        }
                                                    }
                                                } else {
                                                    if forall|i: int|
                                                        0 <= i < ti + 1 && has_star(
                                                            #[trigger] tv[i],
                                                        ) && q_grams(tv[i], self.spec_k()).len()
                                                            > 0 ==> self.wild_docs_of(
                                                        q_grams(tv[i], self.spec_k()),
                                                        id,
                                                    ) {
                                                        assert(w@.contains(id));
                                                        assert(self.wild_docs_of(
                                                            q_grams(tv[ti as int], self.spec_k()),
                                                            id,
                                                        ));
                                                        assert(d@.contains(id));
                                                        assert(false);
                                                    }
                                                }
                                            }
                                        }
                                        wild = Some(both);
                                    },
                                }
                            },
                        }
                    }
                },
            }
            ti = ti + 1;
        }
        wild
    }


    /// Evaluate a conjunctive query: the sorted ids of the documents that
    /// satisfy every term.  A query with no constraining term returns no
    /// documents.  The first failing term decides the error: an
    /// unsupported pattern, a literal term outside the vocabulary, or (in
    /// strict mode) a wildcard fragment whose k-gram no indexed token
    /// contains.
    #[verifier::rlimit(100)]
    pub fn query(&self, terms: &Vec<String>) -> (r: Result<Vec<u64>, SearchError>)
        requires
            self.wf(),
            self.kg_backed(),
        ensures
            ({
                let tv = str_views(terms@);
                match r {
                    Ok(ids) => {
                        &&& strictly_sorted(ids@)
                        &&& forall|i: int|
                            0 <= i < tv.len() ==> self.term_error(#[trigger] tv[i]) is None
                        &&& self.any_constraint(tv) ==> (forall|id: u64|
                            #[trigger] ids@.contains(id) <==> self.q_matches(tv, id))
                        &&& !self.any_constraint(tv) ==> ids@ == Seq::<u64>::empty()
                    },
                    Err(e) => exists|i: int|
                        0 <= i < tv.len() && self.term_error(#[trigger] tv[i]) == Some(e) && (
                        forall|i2: int| 0 <= i2 < i ==> self.term_error(tv[i2]) is None),
                }
            }),
    {
        let ghost tv = str_views(terms@);
        let mut term_vecs: Vec<Vec<char>> = Vec::new();
        let mut ci: usize = 0;
        while ci < terms.len()
            invariant
                ci <= terms@.len(),
                views(term_vecs@) == str_views(terms@).take(ci as int),
            decreases terms.len() - ci,
        {
            let ghost prev = term_vecs@;
            let v = chars_vec(terms[ci].as_str());
            term_vecs.push(v);
            proof {
                assert(views(term_vecs@) =~= views(prev).push(terms@[ci as int]@));
                assert(views(term_vecs@) =~= str_views(terms@).take(ci + 1));
            }
            ci = ci + 1;
        }
        proof {
            assert(str_views(terms@).take(ci as int) =~= str_views(terms@));
            assert(views(term_vecs@) == tv);
        }
        match self.check_terms(&term_vecs) {
            Err(e) => {
                return Err(e);
            },
            Ok(()) => {},
        }
        let lits = self.collect_literals(&term_vecs);
        let wild = self.collect_wild(&term_vecs);
        let ghost has_w = wild is Some;
        let ghost ws: Seq<u64> = match &wild {
            Some(w) => w@,
            None => Seq::empty(),
        };
        let mut acc: Option<Vec<u64>> = wild;
        let mut li: usize = 0;
        while li < lits.len()
            invariant
                li <= lits@.len(),
                tv == views(term_vecs@),
                self.wf(),
                forall|p: int|
                    0 <= p < lits@.len() ==> 0 <= #[trigger] lits@[p] < self.toks().len(),
                acc is Some ==> (has_w || li > 0),
                match acc {
                    None => !has_w && li == 0,
                    Some(v) => {
                        &&& strictly_sorted(v@)
                        &&& forall|id: u64|
                            #[trigger] v@.contains(id) <==> ((has_w ==> ws.contains(id)) && (
                            forall|p: int|
                                0 <= p < li ==> self.posting(#[trigger] lits@[p] as int).contains(
                                    id,
                                )))
                    },
                },
                has_w ==> acc is Some,
            decreases lits@.len() - li,
        {
            let e = lits[li];
            proof {
                assert(lits@[li as int] == e);
                assert(self.postings@[e as int]@ == self.posting(e as int));
                assert(strictly_sorted(self.posting(e as int)));
            }
            let next: Vec<u64>;
            match acc {
                None => {
                    next = copy_ids(&self.postings[e]);
                    proof {
                        assert forall|id: u64|
                            #[trigger] next@.contains(id) <==> ((has_w ==> ws.contains(id)) && (
                            forall|p: int|
                                0 <= p < li + 1 ==> self.posting(
                                    #[trigger] lits@[p] as int,
                                ).contains(id))) by {
                            if next@.contains(id) {
                                assert forall|p: int|
                                    0 <= p < li + 1 implies self.posting(
                                    #[trigger] lits@[p] as int,
                                ).contains(id) by {
                                    assert(p == li as int);
                                }
                            }
                        }
                    }
                },
                Some(v) => {
                    next = intersect(&v, &self.postings[e]);
                    proof {
                        assert forall|id: u64|
                            #[trigger] next@.contains(id) <==> ((has_w ==> ws.contains(id)) && (
                            forall|p: int|
                                0 <= p < li + 1 ==> self.posting(
                                    #[trigger] lits@[p] as int,
                                ).contains(id))) by {
                            if next@.contains(id) {
                                assert(v@.contains(id));
                                assert forall|p: int|
                                    0 <= p < li + 1 implies self.posting(
                                    #[trigger] lits@[p] as int,
                                ).contains(id) by {
                                    if p < li {
                                        assert(v@.contains(id));
                                    } else {
                                        assert(self.posting(e as int).contains(id));
                                    }
                                }
                            } else {
                                if (has_w ==> ws.contains(id)) && (forall|p: int|
                                    0 <= p < li + 1 ==> self.posting(
                                        #[trigger] lits@[p] as int,
                                    ).contains(id)) {
                                    assert(self.posting(lits@[li as int] as int).contains(id));
                                    assert(v@.contains(id));
                                    assert(false);
                                }
                            }
                        }
                    }
                },
            }
            acc = Some(next);
            li = li + 1;
        }
        match acc {
            None => {
                let ids: Vec<u64> = Vec::new();
                proof {
                    assert(!self.any_constraint(tv)) by {
                        if self.any_constraint(tv) {
                            let i = choose|i: int|
                                0 <= i < tv.len() && self.constraining(#[trigger] tv[i]);
                            if !has_star(tv[i]) {
                                let p = choose|p: int|
                                    0 <= p < lits@.len() && self.toks()[lits@[p] as int] == tv[i];
                                assert(false);
                            } else {
                                assert(q_grams(tv[i], self.spec_k()).len() == 0);
                                assert(false);
                            }
                        }
                    }
                    assert(ids@ =~= Seq::<u64>::empty());
                }
                Ok(ids)
            },
            Some(v) => {
                proof {
                    lemma_query_assemble(*self, tv, lits@, has_w, ws, v@);
                }
                Ok(v)
            },
        }
    }
}

/// Assembling the query result: a vector that holds exactly the documents
/// in every chosen posting list and, if present, in the wildcard document
/// set, holds exactly the documents matching the whole query.
#[verifier::rlimit(100)]
proof fn lemma_query_assemble(
    idx: Index,
    tv: Seq<Seq<char>>,
    lits: Seq<usize>,
    has_w: bool,
    ws: Seq<u64>,
    v: Seq<u64>,
)
    requires
        idx.wf(),
        forall|p: int| 0 <= p < lits.len() ==> 0 <= #[trigger] lits[p] < idx.toks().len(),
        forall|p: int|
            0 <= p < lits.len() ==> lit_entry_ok(idx, tv, #[trigger] lits[p] as int),
        forall|i: int|
            0 <= i < tv.len() && !has_star(#[trigger] tv[i]) ==> lit_covered(idx, tv, lits, i),
        has_w ==> forall|id: u64|
            #[trigger] ws.contains(id) <==> (forall|i: int|
                0 <= i < tv.len() && has_star(#[trigger] tv[i]) && q_grams(
                    tv[i],
                    idx.spec_k(),
                ).len() > 0 ==> idx.wild_docs_of(q_grams(tv[i], idx.spec_k()), id)),
        !has_w ==> forall|i: int|
            0 <= i < tv.len() && has_star(#[trigger] tv[i]) ==> q_grams(
                tv[i],
                idx.spec_k(),
            ).len() == 0,
        has_w ==> exists|i: int|
            0 <= i < tv.len() && has_star(#[trigger] tv[i]) && q_grams(
                tv[i],
                idx.spec_k(),
            ).len() > 0,
        has_w || lits.len() > 0,
        forall|id: u64|
            #[trigger] v.contains(id) <==> ((has_w ==> ws.contains(id)) && (forall|p: int|
                0 <= p < lits.len() ==> idx.posting(#[trigger] lits[p] as int).contains(id))),
    ensures
        idx.any_constraint(tv),
        forall|id: u64| #[trigger] v.contains(id) <==> idx.q_matches(tv, id),
{
    assert(idx.any_constraint(tv)) by {
        if has_w {
            let i = choose|i: int|
                0 <= i < tv.len() && has_star(#[trigger] tv[i]) && q_grams(
                    tv[i],
                    idx.spec_k(),
                ).len() > 0;
            assert(idx.constraining(tv[i]));
        } else {
            assert(lit_entry_ok(idx, tv, lits[0] as int));
            let i = choose|i: int|
                0 <= i < tv.len() && !has_star(tv[i]) && idx.toks()[lits[0] as int]
                    == #[trigger] tv[i];
            assert(idx.constraining(tv[i]));
        }
    }
    assert forall|id: u64| #[trigger] v.contains(id) <==> idx.q_matches(tv, id) by {
        if v.contains(id) {
            assert forall|i: int|
                0 <= i < tv.len() implies (if !has_star(#[trigger] tv[i]) {
                idx.posting_of(tv[i]).contains(id)
            } else if q_grams(tv[i], idx.spec_k()).len() > 0 {
                idx.wild_docs_of(q_grams(tv[i], idx.spec_k()), id)
            } else {
                true
            }) by {
                if !has_star(tv[i]) {
                    assert(lit_covered(idx, tv, lits, i));
                    let p = choose|p: int|
                        0 <= p < lits.len() && idx.toks()[#[trigger] lits[p] as int] == tv[i];
                    assert(idx.posting(lits[p] as int).contains(id));
                    lemma_token_index_unique(idx, tv[i], lits[p] as int);
                    assert(idx.posting_of(tv[i]) == idx.posting(lits[p] as int));
                } else if q_grams(tv[i], idx.spec_k()).len() > 0 {
                    assert(has_w);
                    assert(ws.contains(id));
                }
            }
        } else {
            if idx.q_matches(tv, id) {
                if has_w {
                    assert(ws.contains(id)) by {
                        assert forall|i: int|
                            0 <= i < tv.len() && has_star(#[trigger] tv[i]) && q_grams(
                                tv[i],
                                idx.spec_k(),
                            ).len() > 0 implies idx.wild_docs_of(
                            q_grams(tv[i], idx.spec_k()),
                            id,
                        ) by {}
                    }
                }
                assert forall|p: int|
                    0 <= p < lits.len() implies idx.posting(#[trigger] lits[p] as int).contains(
                    id,
                ) by {
                    assert(lit_entry_ok(idx, tv, lits[p] as int));
                    let i = choose|i: int|
                        0 <= i < tv.len() && !has_star(tv[i]) && idx.toks()[lits[p] as int]
                            == #[trigger] tv[i];
                    lemma_token_index_unique(idx, tv[i], lits[p] as int);
                    assert(idx.posting_of(tv[i]).contains(id));
                }
                assert(v.contains(id));
                assert(false);
            }
        }
    }
}

/// Every posting list of a dictionary term is strictly ascending.
pub proof fn lemma_posting_lists_sorted(idx: Index)
    requires
        idx.wf(),
    ensures
        forall|t: Seq<char>|
            idx.has_token(t) ==> strictly_sorted(#[trigger] idx.posting_of(t)),
{
    assert forall|t: Seq<char>| idx.has_token(t) implies strictly_sorted(
        #[trigger] idx.posting_of(t),
    ) by {
        let i = idx.token_index(t);
        assert(0 <= i < idx.toks().len() && idx.toks()[i] == t);
        assert(strictly_sorted(idx.posting(i)));
    }
}

/// Every (token, document) occurrence of the corpus is indexed: the
/// document's id stands in the token's posting list.
pub proof fn lemma_occurrence_indexed(
    idx: Index,
    docs: Seq<Document>,
    stops: Seq<Seq<char>>,
    n: int,
    j: int,
    x: Seq<char>,
)
    requires
        idx.built_from(docs, stops, n),
        0 <= j < n,
        doc_toks(docs[j], stops).contains(x),
    ensures
        idx.posting_of(x).contains(docs[j].id),
{
    assert(occurs(docs, stops, n, x, docs[j].id));
}

/// Every k-gram of a dictionary token's anchored form leads to that
/// token's term id in the k-gram index.
pub proof fn lemma_kgram_indexed(idx: Index, t: Seq<char>, gi: int)
    requires
        idx.wf(),
        idx.kg_sound(),
        idx.has_token(t),
        0 <= gi < kgrams(anchor_both(t), idx.spec_k()).len(),
    ensures
        idx.gram_bucket(kgrams(anchor_both(t), idx.spec_k())[gi]).contains(term_hash(t)),
{
    let i = idx.token_index(t);
    assert(0 <= i < idx.toks().len() && idx.toks()[i] == t);
    assert(idx.gram_covered(i, gi));
    let b = choose|b: int|
        0 <= b < idx.keyseq().len() && idx.keyseq()[b] == kgrams(
            anchor_both(idx.toks()[i]),
            idx.spec_k(),
        )[gi] && #[trigger] idx.bucket(b).contains(idx.tids()[i]);
    lemma_gram_index_unique(idx, kgrams(anchor_both(t), idx.spec_k())[gi], b);
    assert(idx.tids()[i] == term_hash(t));
}

/// A query of literal terms alone matches exactly the documents in the
/// posting list of every term: the result is the intersection of the
/// terms' posting lists, in ascending order.
pub proof fn lemma_literal_query_intersection(idx: Index, tv: Seq<Seq<char>>, ids: Seq<u64>)
    requires
        idx.wf(),
        tv.len() > 0,
        forall|i: int| 0 <= i < tv.len() ==> !has_star(#[trigger] tv[i]),
        strictly_sorted(ids),
        forall|id: u64| #[trigger] ids.contains(id) <==> idx.q_matches(tv, id),
    ensures
        forall|id: u64|
            #[trigger] ids.contains(id) <==> (forall|i: int|
                0 <= i < tv.len() ==> idx.posting_of(#[trigger] tv[i]).contains(id)),
{
    assert forall|id: u64|
        #[trigger] ids.contains(id) <==> (forall|i: int|
            0 <= i < tv.len() ==> idx.posting_of(#[trigger] tv[i]).contains(id)) by {
        if ids.contains(id) {
            assert(idx.q_matches(tv, id));
            assert forall|i: int| 0 <= i < tv.len() implies idx.posting_of(
                #[trigger] tv[i],
            ).contains(id) by {
                assert(!has_star(tv[i]));
            }
        } else {
            if forall|i: int| 0 <= i < tv.len() ==> idx.posting_of(#[trigger] tv[i]).contains(
                id,
            ) {
                assert(idx.q_matches(tv, id)) by {
                    assert forall|i: int|
                        0 <= i < tv.len() implies (if !has_star(#[trigger] tv[i]) {
                        idx.posting_of(tv[i]).contains(id)
                    } else if q_grams(tv[i], idx.spec_k()).len() > 0 {
                        idx.wild_docs_of(q_grams(tv[i], idx.spec_k()), id)
                    } else {
                        true
                    }) by {
                        assert(idx.posting_of(tv[i]).contains(id));
                    }
                }
                assert(false);
            }
        }
    }
}

} // verus!
