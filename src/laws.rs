use vstd::prelude::*;

use crate::word_analyzer::{
    nonzero_count, part_share, prefix_sum, lemma_prefix_sum_full, CorpusWordAnalyzer, Ratio, Rule,
};
use crate::table::{
    all_tokens, document_at, occurrences, lemma_all_tokens_push, sum_u64, Corpus, FrequencyTable, TokenView,
};

verus! {

/// Sum of the numerators of the first `k` part shares.
pub open spec fn share_numerator_sum(sizes: Seq<u64>, total: int, k: int) -> int
    decreases k,
{
    if k <= 0 {
        0
    } else {
        share_numerator_sum(sizes, total, k - 1) + part_share(sizes, total, k - 1).num
    }
}

/// The parts' shares of a non-empty corpus add up to one: they all have the
/// corpus total as denominator, and their numerators add up to it.
pub proof fn law_part_shares_sum_to_one(sizes: Seq<u64>, total: u64)
    requires
        total as nat == sum_u64(sizes),
        total > 0,
    ensures
        forall|i: int| 0 <= i < sizes.len() ==> (#[trigger] part_share(sizes, total as int, i)).den == total,
        share_numerator_sum(sizes, total as int, sizes.len() as int) == total,
{
    lemma_prefix_sum_full(sizes);
    lemma_share_sum_is_prefix(sizes, total as int, sizes.len() as int);
}

proof fn lemma_share_sum_is_prefix(sizes: Seq<u64>, total: int, k: int)
    requires
        total > 0,
        total <= u64::MAX,
        0 <= k <= sizes.len(),
    ensures
        share_numerator_sum(sizes, total, k) == prefix_sum(sizes, k),
    decreases k,
{
    if k > 0 {
        lemma_share_sum_is_prefix(sizes, total, k - 1);
    }
}

/// A run is deterministic: two corpora built from the same tagged documents
/// hold the same keys in the same order, the same vectors, the same part
/// sizes and the same total, so every metric computed from them agrees.
pub proof fn law_run_is_deterministic(a: &Corpus, b: &Corpus)
    requires
        a.wf(),
        b.wf(),
        a.documents() == b.documents(),
    ensures
        a.key_views() == b.key_views(),
        a.vector_views() == b.vector_views(),
        a.size_view() == b.size_view(),
        a.total_view() == b.total_view(),
{
    a.lemma_contents();
    b.lemma_contents();
    assert forall|j: int| 0 <= j < a.vector_views().len() implies a.vector_views()[j]
        =~= b.vector_views()[j] by {}
    assert(a.vector_views() =~= b.vector_views());
    assert(a.size_view() =~= b.size_view());
}

/// A document that could not be read, and so counts as one without tokens,
/// adds a part of size zero and changes nothing else: the same keys, the same
/// vectors (its slot stays zero), the same total.
pub proof fn law_unreadable_document(before: &FrequencyTable, after: &FrequencyTable)
    requires
        before.wf(),
        after.wf(),
        after.documents() == before.documents(),
        after.seen() == before.seen().push(Seq::<TokenView>::empty()),
    ensures
        after.key_views() == before.key_views(),
        after.vector_views() == before.vector_views(),
        after.size_view() == before.size_view().push(0),
        after.total_view() == before.total_view(),
{
    lemma_all_tokens_push(before.seen(), Seq::<TokenView>::empty());
    assert(all_tokens(after.seen()) =~= all_tokens(before.seen()));
    assert forall|d: int| #[trigger] document_at(after.seen(), d) == document_at(before.seen(), d) by {
        if d == before.seen().len() {
            assert(document_at(after.seen(), d) =~= Seq::<TokenView>::empty());
        }
    }
    assert forall|j: int| 0 <= j < after.vector_views().len() implies after.vector_views()[j]
        =~= before.vector_views()[j] by {
        assert forall|d: int| 0 <= d < after.vector_views()[j].len() implies after.vector_views()[j][d]
            == before.vector_views()[j][d] by {
            assert(document_at(after.seen(), d) == document_at(before.seen(), d));
        }
    }
    assert(after.vector_views() =~= before.vector_views());
    assert(after.size_view() =~= before.size_view().push(0));
    assert(after.size_view().drop_last() =~= before.size_view());
}

/// A document that could not be read, wherever it stands in the run, only
/// adds a part of size zero at its position: the corpus has the same keys in
/// the same order, each vector gets a zero at that position, the part sizes get
/// a zero there, and the total stays the same.
pub proof fn law_unreadable_document_anywhere(a: &Corpus, b: &Corpus, k: int)
    requires
        a.wf(),
        b.wf(),
        0 <= k <= a.documents().len(),
        b.documents() == a.documents().insert(k, Seq::<TokenView>::empty()),
    ensures
        b.key_views() == a.key_views(),
        forall|j: int|
            0 <= j < b.vector_views().len() ==> #[trigger] b.vector_views()[j] == a.vector_views()[j].insert(
                k,
                0,
            ),
        b.vector_views().len() == a.vector_views().len(),
        b.size_view() == a.size_view().insert(k, 0),
        b.total_view() == a.total_view(),
{
    let ad = a.documents();
    let bd = b.documents();
    a.lemma_contents();
    b.lemma_contents();
    ad.insert_ensures(k, Seq::<TokenView>::empty());
    lemma_all_tokens_insert_empty(ad, k);
    assert forall|j: int| 0 <= j < b.vector_views().len() implies #[trigger] b.vector_views()[j]
        == a.vector_views()[j].insert(k, 0) by {
        let av = a.vector_views()[j];
        av.insert_ensures(k, 0);
        assert forall|d: int| 0 <= d < bd.len() implies b.vector_views()[j][d] == av.insert(k, 0)[d] by {
            if d < k {
                assert(bd[d] == ad[d]);
            } else if d == k {
                assert(occurrences(bd[d], b.key_views()[j]) == 0);
            } else {
                assert(bd[(d - 1) + 1] == ad[d - 1]);
                assert(av.insert(k, 0)[(d - 1) + 1] == av[d - 1]);
            }
        }
        assert(b.vector_views()[j] =~= av.insert(k, 0));
    }
    let asz = a.size_view();
    asz.insert_ensures(k, 0);
    assert forall|d: int| 0 <= d < bd.len() implies b.size_view()[d] == asz.insert(k, 0)[d] by {
        if d > k {
            assert(bd[(d - 1) + 1] == ad[d - 1]);
            assert(asz.insert(k, 0)[(d - 1) + 1] == asz[d - 1]);
        }
    }
    assert(b.size_view() =~= asz.insert(k, 0));
    lemma_sum_insert_zero(asz, k);
}

proof fn lemma_all_tokens_insert_empty(docs: Seq<Seq<TokenView>>, k: int)
    requires
        0 <= k <= docs.len(),
    ensures
        all_tokens(docs.insert(k, Seq::<TokenView>::empty())) == all_tokens(docs),
    decreases docs.len(),
{
    let e = Seq::<TokenView>::empty();
    let d2 = docs.insert(k, e);
    docs.insert_ensures(k, e);
    if k == docs.len() {
        assert(d2 =~= docs.push(e));
        lemma_all_tokens_push(docs, e);
        assert(all_tokens(docs) + e =~= all_tokens(docs));
    } else {
        let dl = docs.drop_last();
        dl.insert_ensures(k, e);
        assert forall|i: int| 0 <= i < d2.len() - 1 implies d2.drop_last()[i] == dl.insert(k, e)[i] by {
            if i > k {
                assert(d2[(i - 1) + 1] == docs[i - 1]);
                assert(dl.insert(k, e)[(i - 1) + 1] == dl[i - 1]);
            }
        }
        assert(d2.drop_last() =~= dl.insert(k, e));
        assert(d2.last() == d2[(docs.len() - 1) + 1]);
        lemma_all_tokens_insert_empty(dl, k);
    }
}

proof fn lemma_sum_insert_zero(s: Seq<u64>, k: int)
    requires
        0 <= k <= s.len(),
    ensures
        sum_u64(s.insert(k, 0)) == sum_u64(s),
    decreases s.len(),
{
    let s2 = s.insert(k, 0);
    s.insert_ensures(k, 0);
    if k == s.len() {
        assert(s2.drop_last() =~= s);
    } else {
        let sl = s.drop_last();
        sl.insert_ensures(k, 0);
        assert forall|i: int| 0 <= i < s2.len() - 1 implies s2.drop_last()[i] == sl.insert(k, 0)[i] by {
            if i > k {
                assert(s2[(i - 1) + 1] == s[i - 1]);
                assert(sl.insert(k, 0)[(i - 1) + 1] == sl[i - 1]);
            }
        }
        assert(s2.drop_last() =~= sl.insert(k, 0));
        assert(s2.last() == s2[(s.len() - 1) + 1]);
        lemma_sum_insert_zero(sl, k);
    }
}

/// In a corpus of one part, Juilland's D and Carroll's D2 are one if the item
/// occurs and zero if not, and DA is one.
pub proof fn law_single_part(a: &CorpusWordAnalyzer)
    requires
        a.n() == 1,
    ensures
        a.juilland_rule_spec() == if a.item_total() > 0 { Rule::One } else { Rule::Zero },
        a.carroll_rule_spec() == if a.item_total() > 0 { Rule::One } else { Rule::Zero },
        a.da_rule_spec() == Rule::One,
{
}

/// An item that never occurs in a corpus with parts has range zero and falls
/// back to zero for every ratio-based metric (DA too, once there are two
/// parts or more); none is left to a formula but the mean text frequency,
/// which is zero there too.
pub proof fn law_item_never_occurs(a: &CorpusWordAnalyzer)
    requires
        a.n() > 0,
        a.item_total() == 0,
    ensures
        nonzero_count(a.freq()) == 0,
        a.dp_spec() == (Ratio { num: 0, den: 1 }),
        a.dp_norm_spec() == (Ratio { num: 0, den: 1 }),
        a.pt_spec() == Some(Ratio { num: 0, den: a.n() as u128 }),
        a.sd_rule_spec() == Rule::Zero,
        a.juilland_rule_spec() == Rule::Zero,
        a.carroll_rule_spec() == Rule::Zero,
        a.occurrence_rule_spec() == Rule::Zero,
        a.n() > 1 ==> a.da_rule_spec() == Rule::Zero,
{
    lemma_zero_sum_has_no_nonzero(a.freq());
    if a.n() > 1 && a.rated() {
        let i = choose|i: int| 0 <= i < a.freq().len() && #[trigger] a.freq()[i] > 0 && a.part_sizes_view()[i] > 0;
        lemma_entry_le_sum(a.freq(), i);
    }
}

proof fn lemma_zero_sum_has_no_nonzero(v: Seq<u64>)
    requires
        sum_u64(v) == 0,
    ensures
        nonzero_count(v) == 0,
    decreases v.len(),
{
    if v.len() > 0 {
        lemma_zero_sum_has_no_nonzero(v.drop_last());
    }
}

proof fn lemma_entry_le_sum(v: Seq<u64>, i: int)
    requires
        0 <= i < v.len(),
    ensures
        v[i] <= sum_u64(v),
    decreases v.len(),
{
    if i < v.len() - 1 {
        lemma_entry_le_sum(v.drop_last(), i);
    }
}

} // verus!
