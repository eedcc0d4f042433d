use vstd::prelude::*;

use crate::word_analyzer::CorpusWordAnalyzer;
use vstd::utf8::encode_utf8;

verus! {

/// A tagged token as a mathematical value: (surface form, grammatical category).
pub type TokenView = (Seq<char>, Seq<char>);

pub open spec fn token_view(t: (String, String)) -> TokenView {
    (t.0@, t.1@)
}

pub open spec fn tokens_view(ts: Seq<(String, String)>) -> Seq<TokenView> {
    ts.map_values(|t: (String, String)| token_view(t))
}

/// How many times `key` occurs in `s`.
pub open spec fn occurrences(s: Seq<TokenView>, key: TokenView) -> nat
    decreases s.len(),
{
    if s.len() == 0 {
        0
    } else {
        occurrences(s.drop_last(), key) + if s.last() == key { 1nat } else { 0nat }
    }
}

/// All tokens of all documents, in document order.
pub open spec fn all_tokens(docs: Seq<Seq<TokenView>>) -> Seq<TokenView>
    decreases docs.len(),
{
    if docs.len() == 0 {
        Seq::empty()
    } else {
        all_tokens(docs.drop_last()) + docs.last()
    }
}

/// The distinct elements of `s`, each at the position where it first appears.
pub open spec fn first_seen(s: Seq<TokenView>) -> Seq<TokenView>
    decreases s.len(),
{
    if s.len() == 0 {
        Seq::empty()
    } else {
        let prefix = first_seen(s.drop_last());
        if prefix.contains(s.last()) {
            prefix
        } else {
            prefix.push(s.last())
        }
    }
}

/// The token sequence of document `d`; a document not yet read has none.
pub open spec fn document_at(docs: Seq<Seq<TokenView>>, d: int) -> Seq<TokenView> {
    if 0 <= d < docs.len() {
        docs[d]
    } else {
        Seq::empty()
    }
}

pub open spec fn sum_u64(v: Seq<u64>) -> nat
    decreases v.len(),
{
    if v.len() == 0 {
        0
    } else {
        sum_u64(v.drop_last()) + v.last() as nat
    }
}

// Keys are found through an index of our own rather than a `HashMap`: vstd's
// specification of `HashMap` holds only for key types known to obey its key
// model (integers, `bool`, boxes of them), and for a `(String, String)` key
// that could only be assumed, which would leave every lookup unproved.

/// The modulus of the key hash: the largest prime below 2^32.
pub const HASH_MODULUS: u64 = 4294967291;

/// Number of buckets of the key index.
pub const BUCKETS: usize = 65536;

/// Polynomial hash of `b`, continuing from `seed`.
pub open spec fn byte_hash(b: Seq<u8>, seed: nat) -> nat
    decreases b.len(),
{
    if b.len() == 0 {
        seed
    } else {
        ((byte_hash(b.drop_last(), seed) * 31 + b.last() as nat) % (HASH_MODULUS as nat)) as nat
    }
}

/// The bucket of the key index where a key is filed, by the UTF-8 bytes of
/// its surface form and then of its category.
pub open spec fn bucket_of(t: TokenView) -> int {
    (byte_hash(encode_utf8(t.1), byte_hash(encode_utf8(t.0), 0)) % (BUCKETS as nat)) as int
}

/// Every key is filed in its bucket, and every filed position is a key.
pub open spec fn index_wf(keys: Seq<TokenView>, index: Seq<Seq<usize>>) -> bool {
    &&& index.len() == BUCKETS
    &&& forall|b: int, m: int|
        0 <= b < index.len() && 0 <= m < index[b].len() ==> #[trigger] index[b][m] < keys.len()
    &&& forall|j: int| 0 <= j < keys.len() ==> #[trigger] index[bucket_of(keys[j])].contains(j as usize)
}

pub proof fn lemma_first_seen(s: Seq<TokenView>)
    ensures
        first_seen(s).no_duplicates(),
        forall|x: TokenView| #[trigger] first_seen(s).contains(x) <==> s.contains(x),
    decreases s.len(),
{
    if s.len() > 0 {
        lemma_first_seen(s.drop_last());
        let p = first_seen(s.drop_last());
        assert forall|x: TokenView| #[trigger] first_seen(s).contains(x) <==> s.contains(x) by {
            lemma_contains_split(s, x);
            if !p.contains(s.last()) {
                lemma_contains_push(p, s.last(), x);
            }
        }
    }
}

proof fn lemma_contains_push<A>(p: Seq<A>, y: A, x: A)
    ensures
        p.push(y).contains(x) <==> (p.contains(x) || x == y),
{
    if p.push(y).contains(x) {
        let k = choose|k: int| 0 <= k < p.len() + 1 && p.push(y)[k] == x;
        if k < p.len() {
            assert(p[k] == x);
        }
    }
    if p.contains(x) {
        let k = choose|k: int| 0 <= k < p.len() && p[k] == x;
        assert(p.push(y)[k] == x);
    }
    if x == y {
        assert(p.push(y)[p.len() as int] == x);
    }
}

proof fn lemma_contains_split(s: Seq<TokenView>, x: TokenView)
    requires
        s.len() > 0,
    ensures
        s.contains(x) <==> (s.drop_last().contains(x) || x == s.last()),
{
    assert(s =~= s.drop_last().push(s.last()));
    lemma_contains_push(s.drop_last(), s.last(), x);
}

pub proof fn lemma_occurrences_absent(s: Seq<TokenView>, key: TokenView)
    requires
        !s.contains(key),
    ensures
        occurrences(s, key) == 0,
    decreases s.len(),
{
    if s.len() > 0 {
        assert(s[s.len() - 1] == s.last());
        assert forall|k: int| 0 <= k < s.len() - 1 implies s.drop_last()[k] != key by {
            assert(s[k] == s.drop_last()[k]);
        }
        lemma_occurrences_absent(s.drop_last(), key);
    }
}

pub proof fn lemma_all_tokens_contains(docs: Seq<Seq<TokenView>>, d: int, x: TokenView)
    requires
        0 <= d < docs.len(),
        docs[d].contains(x),
    ensures
        all_tokens(docs).contains(x),
    decreases docs.len(),
{
    let k = choose|k: int| 0 <= k < docs[d].len() && docs[d][k] == x;
    if d == docs.len() - 1 {
        let pre = all_tokens(docs.drop_last());
        assert((pre + docs.last())[pre.len() + k] == x);
    } else {
        lemma_all_tokens_contains(docs.drop_last(), d, x);
        let pre = all_tokens(docs.drop_last());
        let j = choose|j: int| 0 <= j < pre.len() && pre[j] == x;
        assert((pre + docs.last())[j] == x);
    }
}


/// Pass one of a run: the frequency table, filled one document at a time.
///
/// Every key gets a vector with one slot per document of the run; a document
/// that has not been read yet contributes zero to every slot.
pub struct FrequencyTable {
    documents: usize,
    keys: Vec<(String, String)>,
    vectors: Vec<Vec<u64>>,
    index: Vec<Vec<usize>>,
    part_sizes: Vec<u64>,
    total: u64,
    seen: Ghost<Seq<Seq<TokenView>>>,
}

impl FrequencyTable {
    /// The token sequences of the documents read so far, in order.
    pub closed spec fn seen(&self) -> Seq<Seq<TokenView>> {
        self.seen@
    }

    /// Number of documents in the run.
    pub closed spec fn documents(&self) -> nat {
        self.documents as nat
    }

    pub closed spec fn key_views(&self) -> Seq<TokenView> {
        self.keys@.map_values(|k: (String, String)| token_view(k))
    }

    pub closed spec fn vector_views(&self) -> Seq<Seq<u64>> {
        self.vectors@.map_values(|v: Vec<u64>| v@)
    }

    pub closed spec fn size_view(&self) -> Seq<u64> {
        self.part_sizes@
    }

    pub closed spec fn total_view(&self) -> nat {
        self.total as nat
    }

    pub closed spec fn index_view(&self) -> Seq<Seq<usize>> {
        self.index@.map_values(|b: Vec<usize>| b@)
    }

    /// The table holds exactly what the documents read so far determine.
    pub open spec fn wf(&self) -> bool {
        let docs = self.seen();
        &&& docs.len() <= self.documents()
        &&& self.key_views() == first_seen(all_tokens(docs))
        &&& self.vector_views().len() == self.key_views().len()
        &&& forall|j: int|
            0 <= j < self.vector_views().len() ==> (#[trigger] self.vector_views()[j]).len()
                == self.documents()
        &&& forall|j: int, d: int|
            0 <= j < self.vector_views().len() && 0 <= d < self.documents() ==> #[trigger] self.vector_views()[j][d]
                == occurrences(document_at(docs, d), self.key_views()[j])
        &&& self.size_view().len() == docs.len()
        &&& forall|d: int| 0 <= d < docs.len() ==> #[trigger] self.size_view()[d] == docs[d].len()
        &&& self.total_view() == sum_u64(self.size_view())
        &&& index_wf(self.key_views(), self.index_view())
    }

    /// A table for a run over `documents` documents, none read yet.
    pub fn new(documents: usize) -> (r: Self)
        ensures
            r.wf(),
            r.documents() == documents,
            r.seen() == Seq::<Seq<TokenView>>::empty(),
    {
        let index = empty_buckets();
        let r = FrequencyTable {
            documents,
            keys: Vec::new(),
            vectors: Vec::new(),
            index,
            part_sizes: Vec::new(),
            total: 0,
            seen: Ghost(Seq::empty()),
        };
        assert(r.key_views() =~= first_seen(all_tokens(r.seen())));
        assert(r.index_view().len() == BUCKETS);
        assert forall|b: int, m: int|
            0 <= b < r.index_view().len() && 0 <= m < r.index_view()[b].len() implies #[trigger] r.index_view()[b][m]
                < r.key_views().len() by {
            assert(r.index_view()[b] == r.index@[b]@);
        }
        r
    }

    pub fn documents_read(&self) -> (r: usize)
        requires
            self.wf(),
        ensures
            r == self.seen().len(),
    {
        self.part_sizes.len()
    }

    pub fn total_documents(&self) -> (r: usize)
        ensures
            r == self.documents(),
    {
        self.documents
    }

    pub fn tokens_so_far(&self) -> (r: u64)
        ensures
            r == self.total_view(),
    {
        self.total
    }

    /// Reads the next document: counts each (surface form, category) key in
    /// its token sequence, creating the keys seen for the first time, and
    /// records the document's size.
    pub fn add_document(&mut self, tokens: &Vec<(String, String)>)
        requires
            old(self).wf(),
            old(self).seen().len() < old(self).documents(),
            old(self).total_view() + tokens@.len() <= u64::MAX,
        ensures
            final(self).wf(),
            final(self).documents() == old(self).documents(),
            final(self).seen() == old(self).seen().push(tokens_view(tokens@)),
    {
        let d = self.part_sizes.len();
        let ghost old_seen = self.seen@;
        let ghost tv = tokens_view(tokens@);
        self.seen = Ghost(old_seen.push(tv.take(0)));
        proof {
            lemma_all_tokens_push(old_seen, tv.take(0));
            assert(all_tokens(self.seen@) =~= all_tokens(old_seen));
            assert forall|dd: int| #[trigger] document_at(self.seen@, dd) == document_at(old_seen, dd) by {
                if dd == d {
                    assert(tv.take(0) =~= Seq::<TokenView>::empty());
                }
            }
        }
        let mut i: usize = 0;
        while i < tokens.len()
            invariant
                self.documents == old(self).documents,
                d == old_seen.len(),
                d < self.documents,
                0 <= i <= tokens.len(),
                tv == tokens_view(tokens@),
                self.seen@ == old_seen.push(tv.take(i as int)),
                self.key_views() == first_seen(all_tokens(self.seen@)),
                self.vector_views().len() == self.key_views().len(),
                forall|j: int|
                    0 <= j < self.vector_views().len() ==> (#[trigger] self.vector_views()[j]).len()
                        == self.documents(),
                forall|j: int, dd: int|
                    0 <= j < self.vector_views().len() && 0 <= dd < self.documents() ==> #[trigger] self.vector_views()[j][dd]
                        == occurrences(document_at(self.seen@, dd), self.key_views()[j]),
                self.part_sizes@ == old(self).part_sizes@,
                self.total == old(self).total,
                index_wf(self.key_views(), self.index_view()),
            decreases tokens.len() - i,
        {
            let ghost prev = self.seen@;
            let ghost t = tv[i as int];
            let ghost next = old_seen.push(tv.take(i + 1));
            proof {
                lemma_all_tokens_push(old_seen, tv.take(i as int));
                lemma_all_tokens_push(old_seen, tv.take(i + 1));
                assert(all_tokens(next).drop_last() =~= all_tokens(prev));
                assert(all_tokens(next).last() == t);
                assert(tv.take(i + 1).drop_last() =~= tv.take(i as int));
                assert(tv.take(i + 1).last() == t);
                lemma_first_seen(all_tokens(prev));
            }
            match find_key(&self.keys, &self.index, &tokens[i]) {
                Some(j) => {
                    let ghost old_vv = self.vector_views();
                    proof {
                        assert(old_vv[j as int] == self.vectors@[j as int]@);
                        assert(old_vv[j as int].len() == self.documents());
                    }
                    let c = self.vectors[j][d];
                    proof {
                        assert(self.vector_views()[j as int][d as int] == c);
                        assert(document_at(prev, d as int) == tv.take(i as int));
                        assert(occurrences(tv.take(i as int), t) <= i) by {
                            lemma_occurrences_bound(tv.take(i as int), t);
                        }
                    }
                    self.vectors[j][d] = c + 1;
                    self.seen = Ghost(next);
                    proof {
                        let kv = self.key_views();
                        assert(self.vector_views() =~= old_vv.update(
                            j as int,
                            old_vv[j as int].update(d as int, (c + 1) as u64),
                        ));
                        assert(kv[j as int] == t);
                        assert forall|jj: int, dd: int|
                            0 <= jj < self.vector_views().len() && 0 <= dd < self.documents() implies #[trigger] self.vector_views()[jj][dd]
                                == occurrences(document_at(next, dd), kv[jj]) by {
                            if dd != d {
                                assert(document_at(next, dd) == document_at(prev, dd));
                            } else if jj != j {
                                assert(kv[jj] != kv[j as int]);
                            }
                        }
                    }
                },
                None => {
                    let row = zeros_with_one(self.documents, d);
                    let key = (tokens[i].0.clone(), tokens[i].1.clone());
                    let h = bucket(&tokens[i]);
                    let j = self.keys.len();
                    let ghost old_kv = self.key_views();
                    let ghost old_vv = self.vector_views();
                    let ghost old_iv = self.index_view();
                    proof {
                        assert(old_iv[h as int] == self.index@[h as int]@);
                    }
                    self.keys.push(key);
                    self.vectors.push(row);
                    self.index[h].push(j);
                    self.seen = Ghost(next);
                    proof {
                        let kv = self.key_views();
                        let n = old_kv.len() as int;
                        assert(kv =~= old_kv.push(t));
                        assert(self.index_view() =~= old_iv.update(h as int, old_iv[h as int].push(j)));
                        let iv = self.index_view();
                        assert forall|jj: int| 0 <= jj < kv.len() implies #[trigger] iv[bucket_of(kv[jj])].contains(jj as usize) by {
                            if jj < n {
                                assert(kv[jj] == old_kv[jj]);
                                if bucket_of(kv[jj]) == h {
                                    lemma_contains_push(old_iv[h as int], j, jj as usize);
                                }
                            } else {
                                lemma_contains_push(old_iv[h as int], j, jj as usize);
                            }
                        }
                        assert forall|b: int, m: int|
                            0 <= b < iv.len() && 0 <= m < iv[b].len() implies #[trigger] iv[b][m] < kv.len() by {
                            if b == h && m == old_iv[b].len() {
                            } else {
                                assert(iv[b][m] == old_iv[b][m]);
                            }
                        }
                        assert(kv =~= old_kv.push(t));
                        assert(self.vector_views() =~= old_vv.push(row@));
                        assert(!all_tokens(prev).contains(t));
                        assert forall|jj: int, dd: int|
                            0 <= jj < self.vector_views().len() && 0 <= dd < self.documents() implies #[trigger] self.vector_views()[jj][dd]
                                == occurrences(document_at(next, dd), kv[jj]) by {
                            if jj == n {
                                if 0 <= dd < prev.len() {
                                    if prev[dd].contains(t) {
                                        lemma_all_tokens_contains(prev, dd, t);
                                    }
                                    lemma_occurrences_absent(prev[dd], t);
                                }
                                if dd != d {
                                    assert(document_at(next, dd) == document_at(prev, dd));
                                }
                            } else {
                                assert(kv[jj] == old_kv[jj]);
                                if dd != d {
                                    assert(document_at(next, dd) == document_at(prev, dd));
                                } else {
                                    assert(old_kv.contains(kv[jj]));
                                }
                            }
                        }
                    }
                },
            }
            i = i + 1;
        }
        proof {
            assert(tv.take(tokens@.len() as int) =~= tv);
            assert(self.part_sizes@.push(tokens.len() as u64).drop_last() =~= self.part_sizes@);
        }
        self.part_sizes.push(tokens.len() as u64);
        self.total = self.total + tokens.len() as u64;
    }
}


/// Pass two of a run: the frequency table once every document has been read.
/// Nothing changes it any more; it hands each key's vector to the engine.
pub struct Corpus {
    table: FrequencyTable,
}

impl FrequencyTable {
    /// Ends pass one; every document of the run must have been read.
    pub fn freeze(self) -> (r: Corpus)
        requires
            self.wf(),
            self.seen().len() == self.documents(),
        ensures
            r.wf(),
            r.documents() == self.seen(),
            r.key_views() == self.key_views(),
            r.vector_views() == self.vector_views(),
            r.size_view() == self.size_view(),
            r.total_view() == self.total_view(),
    {
        Corpus { table: self }
    }
}

impl Corpus {
    /// The token sequences of the corpus' documents.
    pub closed spec fn documents(&self) -> Seq<Seq<TokenView>> {
        self.table.seen()
    }

    pub closed spec fn key_views(&self) -> Seq<TokenView> {
        self.table.key_views()
    }

    pub closed spec fn vector_views(&self) -> Seq<Seq<u64>> {
        self.table.vector_views()
    }

    pub closed spec fn size_view(&self) -> Seq<u64> {
        self.table.size_view()
    }

    pub closed spec fn total_view(&self) -> nat {
        self.table.total_view()
    }

    pub closed spec fn wf(&self) -> bool {
        &&& self.table.wf()
        &&& self.table.seen().len() == self.table.documents()
    }

    /// The keys in the order of their first occurrence, the vector of each
    /// counting its occurrences in each document, and the size of each document.
    pub proof fn lemma_contents(&self)
        requires
            self.wf(),
        ensures
            self.key_views() == first_seen(all_tokens(self.documents())),
            self.key_views().no_duplicates(),
            self.vector_views().len() == self.key_views().len(),
            forall|j: int|
                0 <= j < self.vector_views().len() ==> (#[trigger] self.vector_views()[j]).len()
                    == self.documents().len(),
            forall|j: int, d: int|
                0 <= j < self.vector_views().len() && 0 <= d < self.documents().len() ==> #[trigger] self.vector_views()[j][d]
                    == occurrences(self.documents()[d], self.key_views()[j]),
            self.size_view().len() == self.documents().len(),
            forall|d: int|
                0 <= d < self.documents().len() ==> #[trigger] self.size_view()[d]
                    == self.documents()[d].len(),
            self.total_view() == sum_u64(self.size_view()),
    {
        lemma_first_seen(all_tokens(self.documents()));
    }

    /// Number of distinct keys.
    pub fn len(&self) -> (r: usize)
        requires
            self.wf(),
        ensures
            r == self.key_views().len(),
    {
        self.table.keys.len()
    }

    /// The `j`-th key: (surface form, category).
    pub fn key(&self, j: usize) -> (r: (String, String))
        requires
            self.wf(),
            j < self.key_views().len(),
        ensures
            token_view(r) == self.key_views()[j as int],
    {
        let k = &self.table.keys[j];
        (k.0.clone(), k.1.clone())
    }

    pub fn part_sizes(&self) -> (r: &Vec<u64>)
        ensures
            r@ == self.size_view(),
    {
        &self.table.part_sizes
    }

    pub fn corpus_total(&self) -> (r: u64)
        ensures
            r == self.total_view(),
    {
        self.table.total
    }

    /// The engine for the `j`-th key: its vector, the part sizes and the
    /// corpus total.
    pub fn analyzer(&self, j: usize) -> (r: CorpusWordAnalyzer)
        requires
            self.wf(),
            j < self.key_views().len(),
        ensures
            r.wf(),
            r.freq() == self.vector_views()[j as int],
            r.part_sizes_view() == self.size_view(),
            r.total_view() == self.total_view(),
    {
        let ghost docs = self.table.seen();
        let ghost key = self.key_views()[j as int];
        assert(self.vector_views()[j as int] == self.table.vectors@[j as int]@);
        let v = copy_u64s(&self.table.vectors[j]);
        proof {
            assert forall|d: int| 0 <= d < v@.len() implies #[trigger] v@[d] <= self.table.part_sizes@[d] by {
                lemma_occurrences_bound(docs[d], key);
            }
            lemma_sum_pointwise_le(v@, self.table.part_sizes@);
        }
        let sizes = copy_u64s(&self.table.part_sizes);
        CorpusWordAnalyzer::new(v, sizes, self.table.total)
    }
}

fn copy_u64s(v: &Vec<u64>) -> (r: Vec<u64>)
    ensures
        r@ == v@,
{
    let mut r: Vec<u64> = Vec::new();
    let mut i: usize = 0;
    while i < v.len()
        invariant
            0 <= i <= v@.len(),
            r@ == v@.take(i as int),
        decreases v.len() - i,
    {
        r.push(v[i]);
        i = i + 1;
        assert(r@ =~= v@.take(i as int));
    }
    assert(v@.take(i as int) =~= v@);
    r
}

proof fn lemma_sum_pointwise_le(a: Seq<u64>, b: Seq<u64>)
    requires
        a.len() == b.len(),
        forall|i: int| 0 <= i < a.len() ==> #[trigger] a[i] <= b[i],
    ensures
        sum_u64(a) <= sum_u64(b),
    decreases a.len(),
{
    if a.len() > 0 {
        assert(a.last() == a[a.len() - 1]);
        lemma_sum_pointwise_le(a.drop_last(), b.drop_last());
    }
}

pub proof fn lemma_all_tokens_push(docs: Seq<Seq<TokenView>>, doc: Seq<TokenView>)
    ensures
        all_tokens(docs.push(doc)) == all_tokens(docs) + doc,
{
    assert(docs.push(doc).drop_last() =~= docs);
}

proof fn lemma_occurrences_bound(s: Seq<TokenView>, key: TokenView)
    ensures
        occurrences(s, key) <= s.len(),
    decreases s.len(),
{
    if s.len() > 0 {
        lemma_occurrences_bound(s.drop_last(), key);
    }
}

/// Polynomial hash of `b` from `seed`.
fn hash_bytes(b: &[u8], seed: u64) -> (r: u64)
    requires
        seed < HASH_MODULUS,
    ensures
        r == byte_hash(b@, seed as nat),
        r < HASH_MODULUS,
{
    let mut h: u64 = seed;
    let mut i: usize = 0;
    while i < b.len()
        invariant
            0 <= i <= b@.len(),
            h == byte_hash(b@.take(i as int), seed as nat),
            h < HASH_MODULUS,
        decreases b@.len() - i,
    {
        assert(b@.take(i + 1).drop_last() =~= b@.take(i as int));
        h = (h * 31 + b[i] as u64) % HASH_MODULUS;
        i = i + 1;
    }
    assert(b@.take(i as int) =~= b@);
    h
}

/// The bucket of the key index for `tok`.
fn bucket(tok: &(String, String)) -> (r: usize)
    ensures
        r == bucket_of(token_view(*tok)),
        r < BUCKETS,
{
    let h0 = hash_bytes(tok.0.as_str().as_bytes(), 0);
    let h = hash_bytes(tok.1.as_str().as_bytes(), h0);
    (h % (BUCKETS as u64)) as usize
}

/// `BUCKETS` empty buckets.
fn empty_buckets() -> (r: Vec<Vec<usize>>)
    ensures
        r@.len() == BUCKETS,
        forall|b: int| 0 <= b < BUCKETS ==> (#[trigger] r@[b])@.len() == 0,
{
    let mut r: Vec<Vec<usize>> = Vec::new();
    let mut b: usize = 0;
    while b < BUCKETS
        invariant
            0 <= b <= BUCKETS,
            r@.len() == b,
            forall|k: int| 0 <= k < b ==> (#[trigger] r@[k])@.len() == 0,
        decreases BUCKETS - b,
    {
        r.push(Vec::new());
        b = b + 1;
    }
    r
}

/// Position of `tok` among `keys`, looked up in its bucket of `index`.
fn find_key(keys: &Vec<(String, String)>, index: &Vec<Vec<usize>>, tok: &(String, String)) -> (r:
    Option<usize>)
    requires
        index_wf(
            keys@.map_values(|k: (String, String)| token_view(k)),
            index@.map_values(|b: Vec<usize>| b@),
        ),
    ensures
        match r {
            Some(j) => j < keys@.len() && token_view(keys@[j as int]) == token_view(*tok),
            None => !keys@.map_values(|k: (String, String)| token_view(k)).contains(token_view(*tok)),
        },
{
    let ghost kv = keys@.map_values(|k: (String, String)| token_view(k));
    let ghost iv = index@.map_values(|b: Vec<usize>| b@);
    let h = bucket(tok);
    let entries = &index[h];
    assert(iv[h as int] == entries@);
    let mut m: usize = 0;
    while m < entries.len()
        invariant
            0 <= m <= entries@.len(),
            iv[h as int] == entries@,
            index_wf(kv, iv),
            kv == keys@.map_values(|k: (String, String)| token_view(k)),
            h < BUCKETS,
            forall|k: int| 0 <= k < m ==> token_view(keys@[#[trigger] entries@[k] as int]) != token_view(*tok),
        decreases entries@.len() - m,
    {
        let e = entries[m];
        assert(e < kv.len());
        if keys[e].0 == tok.0 && keys[e].1 == tok.1 {
            return Some(e);
        }
        m = m + 1;
    }
    proof {
        if kv.contains(token_view(*tok)) {
            let k = choose|k: int| 0 <= k < kv.len() && kv[k] == token_view(*tok);
            assert(token_view(keys@[k]) == kv[k]);
            assert(k < keys.len());
            assert(bucket_of(kv[k]) == h);
            assert(iv[bucket_of(kv[k])].contains(k as usize));
            let mm = choose|mm: int| 0 <= mm < entries@.len() && entries@[mm] == k as usize;
            assert(entries@[mm] as int == k);
            assert(token_view(keys@[entries@[mm] as int]) != token_view(*tok));
        }
    }
    None
}

/// A vector of `n` zeros but for a one at `d`.
fn zeros_with_one(n: usize, d: usize) -> (r: Vec<u64>)
    requires
        d < n,
    ensures
        r@.len() == n,
        forall|k: int| 0 <= k < n ==> #[trigger] r@[k] == if k == d { 1u64 } else { 0u64 },
{
    let mut r: Vec<u64> = Vec::new();
    let mut k: usize = 0;
    while k < n
        invariant
            0 <= k <= n,
            r@.len() == k,
            forall|m: int| 0 <= m < k ==> #[trigger] r@[m] == if m == d { 1u64 } else { 0u64 },
        decreases n - k,
    {
        if k == d {
            r.push(1);
        } else {
            r.push(0);
        }
        k = k + 1;
    }
    r
}

} // verus!
