use vstd::prelude::*;

use crate::table::{sum_u64, tokens_view, token_view, Corpus, FrequencyTable, TokenView};

verus! {

/// What a progress observer is told once a document has been processed.
pub struct ProgressEvent {
    pub current: usize,
    pub total: usize,
    pub file: String,
}

impl ProgressEvent {
    /// The notification for the document at position `index` (from zero) of
    /// a run over `total` documents.
    pub fn after_document(index: usize, total: usize, file: &String) -> (r: Self)
        requires
            index < total,
        ensures
            r.current == index + 1,
            r.total == total,
            r.file@ == file@,
    {
        ProgressEvent { current: index + 1, total, file: file.clone() }
    }
}

/// Pairs each token with the category at the same position; a token or a
/// category without a partner is dropped.
pub fn pair_tags(words: &Vec<String>, tags: &Vec<String>) -> (r: Vec<(String, String)>)
    ensures
        r@.len() == if words@.len() <= tags@.len() { words@.len() } else { tags@.len() },
        forall|i: int| 0 <= i < r@.len() ==> #[trigger] token_view(r@[i]) == (words@[i]@, tags@[i]@),
{
    let n = if words.len() <= tags.len() { words.len() } else { tags.len() };
    let mut r: Vec<(String, String)> = Vec::new();
    let mut i: usize = 0;
    while i < n
        invariant
            n <= words@.len(),
            n <= tags@.len(),
            0 <= i <= n,
            r@.len() == i,
            forall|k: int| 0 <= k < i ==> #[trigger] token_view(r@[k]) == (words@[k]@, tags@[k]@),
        decreases n - i,
    {
        r.push((words[i].clone(), tags[i].clone()));
        i = i + 1;
    }
    r
}

/// The documents' token sequences as mathematical values.
pub open spec fn documents_view(docs: Seq<Vec<(String, String)>>) -> Seq<Seq<TokenView>> {
    docs.map_values(|d: Vec<(String, String)>| tokens_view(d@))
}

/// Total number of tokens over all documents.
pub open spec fn token_count(docs: Seq<Seq<TokenView>>) -> nat
    decreases docs.len(),
{
    if docs.len() == 0 {
        0
    } else {
        token_count(docs.drop_last()) + docs.last().len()
    }
}

/// Pass one over documents that are already tagged: builds the frequency
/// table document by document and freezes it for pass two.
pub fn analyze_tagged(docs: &Vec<Vec<(String, String)>>) -> (r: Corpus)
    requires
        token_count(documents_view(docs@)) <= u64::MAX,
    ensures
        r.wf(),
        r.documents() == documents_view(docs@),
{
    let ghost dv = documents_view(docs@);
    let mut table = FrequencyTable::new(docs.len());
    let mut i: usize = 0;
    while i < docs.len()
        invariant
            0 <= i <= docs@.len(),
            dv == documents_view(docs@),
            token_count(dv) <= u64::MAX,
            table.wf(),
            table.documents() == docs@.len(),
            table.seen() == dv.take(i as int),
        decreases docs.len() - i,
    {
        proof {
            lemma_total_is_token_count(table.seen(), table.size_view());
            assert(dv.take(i + 1).drop_last() =~= dv.take(i as int));
            lemma_token_count_prefix(dv, i + 1);
        }
        table.add_document(&docs[i]);
        i = i + 1;
        assert(table.seen() =~= dv.take(i as int));
    }
    assert(dv.take(i as int) =~= dv);
    table.freeze()
}

proof fn lemma_total_is_token_count(docs: Seq<Seq<TokenView>>, sizes: Seq<u64>)
    requires
        sizes.len() == docs.len(),
        forall|d: int| 0 <= d < docs.len() ==> #[trigger] sizes[d] == docs[d].len(),
    ensures
        sum_u64(sizes) == token_count(docs),
    decreases docs.len(),
{
    if docs.len() > 0 {
        assert(sizes.last() == sizes[sizes.len() - 1]);
        lemma_total_is_token_count(docs.drop_last(), sizes.drop_last());
    }
}

proof fn lemma_token_count_prefix(docs: Seq<Seq<TokenView>>, i: int)
    requires
        0 <= i <= docs.len(),
    ensures
        token_count(docs.take(i)) <= token_count(docs),
    decreases docs.len() - i,
{
    if i < docs.len() {
        assert(docs.take(i + 1).drop_last() =~= docs.take(i));
        lemma_token_count_prefix(docs, i + 1);
    } else {
        assert(docs.take(i) =~= docs);
    }
}

} // verus!
