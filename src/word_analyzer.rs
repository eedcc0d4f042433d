use vstd::prelude::*;

use crate::table::sum_u64;

verus! {

/// A non-negative fraction `num / den`.
#[derive(Clone, Copy, Debug, PartialEq, Eq, Structural)]
pub struct Ratio {
    pub num: u128,
    pub den: u128,
}

/// Which value a metric takes for an item: one of the fixed fallbacks of the
/// degenerate cases, or the metric's formula.
#[derive(Clone, Copy, Debug, PartialEq, Eq, Structural)]
pub enum Rule {
    Undefined,
    Zero,
    One,
    Formula,
}

/// Number of entries of `v` that are not zero.
pub open spec fn nonzero_count(v: Seq<u64>) -> nat
    decreases v.len(),
{
    if v.len() == 0 {
        0
    } else {
        nonzero_count(v.drop_last()) + if v.last() != 0 { 1nat } else { 0nat }
    }
}

pub open spec fn abs(x: int) -> int {
    if x < 0 { -x } else { x }
}

pub open spec fn positive_part(x: int) -> int {
    if x < 0 { 0 } else { x }
}

/// The scaled gap of part `i` between the item's share and the part's share:
/// `v_i / f - size_i / total`, multiplied by `f * total`.
pub open spec fn part_gap(v: Seq<u64>, sizes: Seq<u64>, total: int, f: int, i: int) -> int {
    v[i] * total - sizes[i] * f
}

/// `Σ |v_i·total − size_i·f|` over the first `k` parts: twice DP, scaled by `f · total`.
pub open spec fn abs_gap_sum(v: Seq<u64>, sizes: Seq<u64>, total: int, f: int, k: int) -> int
    decreases k,
{
    if k <= 0 {
        0
    } else {
        abs_gap_sum(v, sizes, total, f, k - 1) + abs(part_gap(v, sizes, total, f, k - 1))
    }
}

/// `Σ max(v_i·total − size_i·f, 0)` over the first `k` parts.
pub open spec fn excess_sum(v: Seq<u64>, sizes: Seq<u64>, total: int, f: int, k: int) -> int
    decreases k,
{
    if k <= 0 {
        0
    } else {
        excess_sum(v, sizes, total, f, k - 1) + positive_part(part_gap(v, sizes, total, f, k - 1))
    }
}

/// Sum of the first `k` entries of `v`.
pub open spec fn prefix_sum(v: Seq<u64>, k: int) -> int
    decreases k,
{
    if k <= 0 {
        0
    } else {
        prefix_sum(v, k - 1) + v[k - 1]
    }
}

/// The smallest entry of a non-empty sequence.
pub open spec fn min_entry(s: Seq<u64>) -> int
    decreases s.len(),
{
    if s.len() <= 1 {
        s[0] as int
    } else {
        let m = min_entry(s.drop_last());
        if s.last() < m { s.last() as int } else { m }
    }
}

/// Part `i`'s share of a corpus of `total` tokens.
pub open spec fn part_share(sizes: Seq<u64>, total: int, i: int) -> Ratio {
    if total > 0 {
        Ratio { num: sizes[i] as u128, den: total as u128 }
    } else {
        Ratio { num: 0, den: 1 }
    }
}

/// Some part where the item has a positive local rate `v_i / size_i`.
pub open spec fn has_rated_part(v: Seq<u64>, sizes: Seq<u64>) -> bool {
    exists|i: int| 0 <= i < v.len() && #[trigger] v[i] > 0 && sizes[i] > 0
}

pub proof fn lemma_prefix_sum_full(v: Seq<u64>)
    ensures
        prefix_sum(v, v.len() as int) == sum_u64(v),
    decreases v.len(),
{
    if v.len() > 0 {
        let w = v.drop_last();
        lemma_prefix_sum_full(w);
        lemma_prefix_sum_prefix(v, w, w.len() as int);
    }
}

proof fn lemma_prefix_sum_prefix(v: Seq<u64>, w: Seq<u64>, k: int)
    requires
        0 <= k <= w.len(),
        k <= v.len(),
        forall|i: int| 0 <= i < k ==> v[i] == w[i],
    ensures
        prefix_sum(v, k) == prefix_sum(w, k),
    decreases k,
{
    if k > 0 {
        lemma_prefix_sum_prefix(v, w, k - 1);
    }
}

/// The excess sum is half the absolute gap sum once the gaps cancel out.
proof fn lemma_excess_is_half(v: Seq<u64>, sizes: Seq<u64>, total: int, f: int, k: int)
    requires
        0 <= k <= v.len(),
        k <= sizes.len(),
    ensures
        abs_gap_sum(v, sizes, total, f, k) == 2 * excess_sum(v, sizes, total, f, k) - (total
            * prefix_sum(v, k) - f * prefix_sum(sizes, k)),
    decreases k,
{
    if k > 0 {
        lemma_excess_is_half(v, sizes, total, f, k - 1);
        let a = prefix_sum(v, k - 1);
        let b = prefix_sum(sizes, k - 1);
        let x = v[k - 1] as int;
        let y = sizes[k - 1] as int;
        let g = part_gap(v, sizes, total, f, k - 1);
        assert(g == total * x - f * y) by (nonlinear_arith)
            requires
                g == x * total - y * f,
        ;
        assert(total * (a + x) == total * a + total * x) by (nonlinear_arith);
        assert(f * (b + y) == f * b + f * y) by (nonlinear_arith);
        assert(abs(g) == 2 * positive_part(g) - g);
    }
}

/// `Σ max(size_i·f − v_i·total, 0)` over the first `k` parts.
pub open spec fn deficit_sum(v: Seq<u64>, sizes: Seq<u64>, total: int, f: int, k: int) -> int
    decreases k,
{
    if k <= 0 {
        0
    } else {
        deficit_sum(v, sizes, total, f, k - 1) + positive_part(-part_gap(v, sizes, total, f, k - 1))
    }
}

proof fn lemma_excess_minus_deficit(v: Seq<u64>, sizes: Seq<u64>, total: int, f: int, k: int)
    requires
        0 <= k <= v.len(),
        k <= sizes.len(),
    ensures
        excess_sum(v, sizes, total, f, k) - deficit_sum(v, sizes, total, f, k) == total
            * prefix_sum(v, k) - f * prefix_sum(sizes, k),
    decreases k,
{
    if k > 0 {
        lemma_excess_minus_deficit(v, sizes, total, f, k - 1);
        let a = prefix_sum(v, k - 1);
        let b = prefix_sum(sizes, k - 1);
        let x = v[k - 1] as int;
        let y = sizes[k - 1] as int;
        let g = part_gap(v, sizes, total, f, k - 1);
        assert(g == total * x - f * y) by (nonlinear_arith)
            requires
                g == x * total - y * f,
        ;
        assert(total * (a + x) == total * a + total * x) by (nonlinear_arith);
        assert(f * (b + y) == f * b + f * y) by (nonlinear_arith);
    }
}

proof fn lemma_deficit_bound(v: Seq<u64>, sizes: Seq<u64>, total: int, f: int, k: int)
    requires
        0 <= k <= v.len(),
        k <= sizes.len(),
        total >= 0,
        f >= 0,
    ensures
        0 <= deficit_sum(v, sizes, total, f, k) <= f * prefix_sum(sizes, k),
    decreases k,
{
    if k > 0 {
        lemma_deficit_bound(v, sizes, total, f, k - 1);
        let b = prefix_sum(sizes, k - 1);
        let x = v[k - 1] as int;
        let y = sizes[k - 1] as int;
        let g = part_gap(v, sizes, total, f, k - 1);
        assert(f * (b + y) == f * b + f * y) by (nonlinear_arith);
        assert(-g <= f * y) by (nonlinear_arith)
            requires
                g == x * total - y * f,
                x >= 0,
                total >= 0,
        ;
    }
}

/// Leaving out a part `j` whose gap is not negative bounds the deficit by the
/// other parts' sizes.
proof fn lemma_deficit_bound_without(v: Seq<u64>, sizes: Seq<u64>, total: int, f: int, k: int, j: int)
    requires
        0 <= j < k <= v.len(),
        k <= sizes.len(),
        total >= 0,
        f >= 0,
        part_gap(v, sizes, total, f, j) >= 0,
    ensures
        deficit_sum(v, sizes, total, f, k) <= f * (prefix_sum(sizes, k) - sizes[j]),
    decreases k,
{
    let b = prefix_sum(sizes, k - 1);
    let y = sizes[k - 1] as int;
    assert(f * (b + y - sizes[j]) == f * (b - sizes[j]) + f * y) by (nonlinear_arith);
    if j == k - 1 {
        lemma_deficit_bound(v, sizes, total, f, k - 1);
        assert(f * (b + y - sizes[j]) == f * b) by (nonlinear_arith)
            requires
                y == sizes[j],
        ;
    } else {
        lemma_deficit_bound_without(v, sizes, total, f, k - 1, j);
        let x = v[k - 1] as int;
        let g = part_gap(v, sizes, total, f, k - 1);
        assert(-g <= f * y) by (nonlinear_arith)
            requires
                g == x * total - y * f,
                x >= 0,
                total >= 0,
        ;
    }
}

proof fn lemma_positive_excess_has_part(v: Seq<u64>, sizes: Seq<u64>, total: int, f: int, k: int)
    requires
        0 <= k <= v.len(),
        k <= sizes.len(),
        excess_sum(v, sizes, total, f, k) > 0,
    ensures
        exists|j: int| 0 <= j < k && #[trigger] part_gap(v, sizes, total, f, j) > 0,
    decreases k,
{
    if part_gap(v, sizes, total, f, k - 1) <= 0 {
        lemma_positive_excess_has_part(v, sizes, total, f, k - 1);
        let j = choose|j: int| 0 <= j < k - 1 && #[trigger] part_gap(v, sizes, total, f, j) > 0;
        assert(part_gap(v, sizes, total, f, j) > 0);
    } else {
        assert(part_gap(v, sizes, total, f, k - 1) > 0);
    }
}

proof fn lemma_min_entry_le(s: Seq<u64>, j: int)
    requires
        0 <= j < s.len(),
    ensures
        min_entry(s) <= s[j],
    decreases s.len(),
{
    if s.len() > 1 && j < s.len() - 1 {
        lemma_min_entry_le(s.drop_last(), j);
    }
}

/// DP_norm is at most one: the excess is at most `f · (total − min size)`.
proof fn lemma_excess_within_norm(v: Seq<u64>, sizes: Seq<u64>, total: int, f: int)
    requires
        v.len() == sizes.len(),
        v.len() > 0,
        prefix_sum(v, v.len() as int) == f,
        prefix_sum(sizes, sizes.len() as int) == total,
        total >= 0,
        f >= 0,
    ensures
        excess_sum(v, sizes, total, f, v.len() as int) <= f * (total - min_entry(sizes)),
{
    let n = v.len() as int;
    lemma_excess_bound(v, sizes, total, f, n);
    let m = min_entry(sizes);
    lemma_min_entry_le_sum(sizes);
    lemma_prefix_sum_full(sizes);
    assert(f * (total - m) >= 0) by (nonlinear_arith)
        requires
            f >= 0,
            total - m >= 0,
    ;
    if excess_sum(v, sizes, total, f, n) > 0 {
        lemma_positive_excess_has_part(v, sizes, total, f, n);
        let j = choose|j: int| 0 <= j < n && #[trigger] part_gap(v, sizes, total, f, j) > 0;
        lemma_excess_minus_deficit(v, sizes, total, f, n);
        assert(total * f - f * total == 0) by (nonlinear_arith);
        lemma_deficit_bound_without(v, sizes, total, f, n, j);
        lemma_min_entry_le(sizes, j);
        assert(f * (total - sizes[j]) <= f * (total - m)) by (nonlinear_arith)
            requires
                f >= 0,
                sizes[j] >= m,
        ;
    }
}

proof fn lemma_excess_bound(v: Seq<u64>, sizes: Seq<u64>, total: int, f: int, k: int)
    requires
        0 <= k <= v.len(),
        k <= sizes.len(),
        total >= 0,
        f >= 0,
    ensures
        0 <= excess_sum(v, sizes, total, f, k) <= total * prefix_sum(v, k),
    decreases k,
{
    if k > 0 {
        lemma_excess_bound(v, sizes, total, f, k - 1);
        let a = prefix_sum(v, k - 1);
        let x = v[k - 1] as int;
        let y = sizes[k - 1] as int;
        let g = part_gap(v, sizes, total, f, k - 1);
        assert(total * (a + x) == total * a + total * x) by (nonlinear_arith);
        assert(g <= total * x) by (nonlinear_arith)
            requires
                g == x * total - y * f,
                y >= 0,
                f >= 0,
        ;
    }
}

proof fn lemma_prefix_sum_monotone(v: Seq<u64>, k: int)
    requires
        0 <= k <= v.len(),
    ensures
        0 <= prefix_sum(v, k) <= prefix_sum(v, v.len() as int),
    decreases v.len() - k,
{
    if k < v.len() {
        lemma_prefix_sum_monotone(v, k + 1);
    }
    lemma_prefix_sum_nonneg(v, k);
}

proof fn lemma_prefix_sum_nonneg(v: Seq<u64>, k: int)
    ensures
        prefix_sum(v, k) >= 0,
    decreases k,
{
    if k > 0 {
        lemma_prefix_sum_nonneg(v, k - 1);
    }
}


/// The dispersion engine for one lexical item: its frequency vector over the
/// parts of the corpus, the parts' sizes, and the corpus total.
pub struct CorpusWordAnalyzer {
    v: Vec<u64>,
    sizes: Vec<u64>,
    total: u64,
    f: u64,
}

impl CorpusWordAnalyzer {
    pub closed spec fn freq(&self) -> Seq<u64> {
        self.v@
    }

    pub closed spec fn part_sizes_view(&self) -> Seq<u64> {
        self.sizes@
    }

    pub closed spec fn total_view(&self) -> int {
        self.total as int
    }

    /// The number of parts.
    pub open spec fn n(&self) -> int {
        self.freq().len() as int
    }

    /// The item's total frequency.
    pub open spec fn item_total(&self) -> int {
        sum_u64(self.freq()) as int
    }

    /// One size per part, and a corpus total that is their sum.
    pub closed spec fn wf(&self) -> bool {
        &&& self.v@.len() == self.sizes@.len()
        &&& self.total as nat == sum_u64(self.sizes@)
        &&& self.f as nat == sum_u64(self.v@)
    }

    /// Twice DP scaled by `f · total`: `Σ |v_i·total − size_i·f|`.
    pub open spec fn abs_gaps(&self) -> int {
        abs_gap_sum(self.freq(), self.part_sizes_view(), self.total_view(), self.item_total(), self.n())
    }

    pub open spec fn rated(&self) -> bool {
        has_rated_part(self.freq(), self.part_sizes_view())
    }

    pub fn new(v: Vec<u64>, corpus_part_sizes_words: Vec<u64>, total_corpus_words: u64) -> (r: Self)
        requires
            v@.len() == corpus_part_sizes_words@.len(),
            total_corpus_words == sum_u64(corpus_part_sizes_words@),
            sum_u64(v@) <= u64::MAX,
        ensures
            r.wf(),
            r.freq() == v@,
            r.part_sizes_view() == corpus_part_sizes_words@,
            r.total_view() == total_corpus_words,
    {
        let f = sum_of(&v);
        CorpusWordAnalyzer { v, sizes: corpus_part_sizes_words, total: total_corpus_words, f }
    }

    pub fn frequencies(&self) -> (r: &Vec<u64>)
        ensures
            r@ == self.freq(),
    {
        &self.v
    }

    pub fn part_sizes(&self) -> (r: &Vec<u64>)
        ensures
            r@ == self.part_sizes_view(),
    {
        &self.sizes
    }

    pub fn corpus_total(&self) -> (r: u64)
        ensures
            r == self.total_view(),
    {
        self.total
    }

    pub fn frequency_total(&self) -> (r: u64)
        requires
            self.wf(),
        ensures
            r == self.item_total(),
    {
        self.f
    }

    /// PT as an exact fraction; undefined without parts.
    pub open spec fn pt_spec(&self) -> Option<Ratio> {
        if self.n() == 0 {
            None
        } else {
            Some(Ratio { num: nonzero_count(self.freq()) as u128, den: self.n() as u128 })
        }
    }

    /// DP as an exact fraction: `Σ|v_i·total − size_i·f| / (2·f·total)`.
    pub open spec fn dp_spec(&self) -> Ratio {
        if self.item_total() == 0 {
            Ratio { num: 0, den: 1 }
        } else if self.total_view() == 0 {
            Ratio { num: 1, den: 2 }
        } else {
            Ratio {
                num: (self.abs_gaps() / 2) as u128,
                den: (self.item_total() * self.total_view()) as u128,
            }
        }
    }

    /// DP_norm as an exact fraction: `Σ|v_i·total − size_i·f| / (2·f·(total − min size))`.
    pub open spec fn dp_norm_spec(&self) -> Ratio {
        if self.item_total() == 0 {
            Ratio { num: 0, den: 1 }
        } else if self.total_view() == 0 {
            Ratio { num: 1, den: 2 }
        } else if self.total_view() == min_entry(self.part_sizes_view()) {
            Ratio { num: 0, den: 1 }
        } else {
            Ratio {
                num: (self.abs_gaps() / 2) as u128,
                den: (self.item_total() * (self.total_view() - min_entry(
                    self.part_sizes_view(),
                ))) as u128,
            }
        }
    }

    /// Number of parts in which the item occurs.
    pub fn get_range(&self) -> (r: usize)
        ensures
            r == nonzero_count(self.freq()),
            r <= self.n(),
    {
        let mut c: usize = 0;
        let mut i: usize = 0;
        while i < self.v.len()
            invariant
                0 <= i <= self.v@.len(),
                c == nonzero_count(self.v@.take(i as int)),
                c <= i,
            decreases self.v.len() - i,
        {
            assert(self.v@.take(i + 1).drop_last() =~= self.v@.take(i as int));
            if self.v[i] != 0 {
                c = c + 1;
            }
            i = i + 1;
        }
        assert(self.v@.take(i as int) =~= self.v@);
        c
    }

    /// Pervasiveness PT: the share `range / n` of the parts in which the item
    /// occurs; undefined without parts.
    pub fn get_pervasiveness_pt(&self) -> (r: Option<Ratio>)
        ensures
            r == self.pt_spec(),
            self.n() == 0 <==> r is None,
            r matches Some(q) ==> q.num == nonzero_count(self.freq()) && q.den == self.n() && q.num
                <= q.den,
    {
        if self.v.len() == 0 {
            None
        } else {
            let range = self.get_range();
            Some(Ratio { num: range as u128, den: self.v.len() as u128 })
        }
    }

    /// `Σ max(v_i·total − size_i·f, 0)`, which is half of `abs_gaps`.
    fn excess(&self) -> (r: u128)
        requires
            self.wf(),
        ensures
            2 * r == self.abs_gaps(),
            r == excess_sum(self.freq(), self.part_sizes_view(), self.total_view(), self.item_total(), self.n()),
            r <= self.total_view() * self.item_total(),
    {
        let ghost v = self.v@;
        let ghost s = self.sizes@;
        let ghost tt = self.total as int;
        let ghost ff = self.f as int;
        let mut acc: u128 = 0;
        let mut i: usize = 0;
        proof {
            lemma_prefix_sum_full(v);
            lemma_prefix_sum_full(s);
        }
        while i < self.v.len()
            invariant
                self.wf(),
                v == self.v@,
                s == self.sizes@,
                tt == self.total,
                ff == self.f,
                0 <= i <= v.len(),
                prefix_sum(v, v.len() as int) == ff,
                acc == excess_sum(v, s, tt, ff, i as int),
            decreases self.v.len() - i,
        {
            let x = self.v[i] as u128;
            let y = self.sizes[i] as u128;
            proof {
                lemma_u64_product_fits(x as int, tt);
                lemma_u64_product_fits(y as int, ff);
            }
            let a = x * self.total as u128;
            let b = y * self.f as u128;
            proof {
                lemma_excess_bound(v, s, tt, ff, i + 1);
                lemma_prefix_sum_monotone(v, i + 1);
                let p = prefix_sum(v, i + 1);
                assert(tt * p <= tt * ff) by (nonlinear_arith)
                    requires
                        0 <= p <= ff,
                        tt >= 0,
                ;
                assert(tt * ff <= u64::MAX * u64::MAX) by (nonlinear_arith)
                    requires
                        0 <= tt <= u64::MAX,
                        0 <= ff <= u64::MAX,
                ;
                assert(part_gap(v, s, tt, ff, i as int) == a - b);
            }
            if a > b {
                acc = acc + (a - b);
            }
            i = i + 1;
        }
        proof {
            lemma_excess_bound(v, s, tt, ff, v.len() as int);
            lemma_excess_is_half(v, s, tt, ff, v.len() as int);
            assert(tt * ff == ff * tt) by (nonlinear_arith);
        }
        acc
    }

    /// DP, the deviation of proportions `½·Σ|v_i/f − size_i/total|`: `0` for
    /// an item that never occurs; `½` in a corpus of empty parts, where every
    /// part's share is zero.
    pub fn get_dp(&self) -> (r: Ratio)
        requires
            self.wf(),
        ensures
            r == self.dp_spec(),
            self.item_total() > 0 && self.total_view() > 0 ==> 2 * r.num == self.abs_gaps() && r.den
                == self.item_total() * self.total_view(),
            r.den > 0,
            r.num <= r.den,
    {
        if self.f == 0 {
            Ratio { num: 0, den: 1 }
        } else if self.total == 0 {
            Ratio { num: 1, den: 2 }
        } else {
            let num = self.excess();
            proof {
                let tt = self.total as int;
                let ff = self.f as int;
                assert(tt * ff <= u64::MAX * u64::MAX) by (nonlinear_arith)
                    requires
                        0 <= tt <= u64::MAX,
                        0 <= ff <= u64::MAX,
                ;
                assert(tt * ff == ff * tt) by (nonlinear_arith);
                assert(ff * tt > 0) by (nonlinear_arith)
                    requires
                        ff > 0,
                        tt > 0,
                ;
            }
            Ratio { num, den: self.f as u128 * self.total as u128 }
        }
    }

    /// The smallest part size, when there is a part.
    fn min_size(&self) -> (r: u64)
        requires
            self.sizes@.len() > 0,
        ensures
            r == min_entry(self.sizes@),
            r <= sum_u64(self.sizes@),
    {
        let mut m: u64 = self.sizes[0];
        let mut i: usize = 1;
        assert(self.sizes@.take(1) =~= seq![self.sizes@[0]]);
        while i < self.sizes.len()
            invariant
                1 <= i <= self.sizes@.len(),
                m == min_entry(self.sizes@.take(i as int)),
            decreases self.sizes.len() - i,
        {
            assert(self.sizes@.take(i + 1).drop_last() =~= self.sizes@.take(i as int));
            if self.sizes[i] < m {
                m = self.sizes[i];
            }
            i = i + 1;
        }
        assert(self.sizes@.take(i as int) =~= self.sizes@);
        proof {
            lemma_min_entry_le_sum(self.sizes@);
        }
        m
    }

    /// DP_norm: DP divided by `1 − min_i size_i/total`; `0` where that
    /// divisor is zero (a single part holding the whole corpus).
    pub fn get_dp_norm(&self) -> (r: Ratio)
        requires
            self.wf(),
        ensures
            r == self.dp_norm_spec(),
            r.num <= r.den,
            self.item_total() > 0 && self.total_view() > 0 && self.total_view() != min_entry(
                self.part_sizes_view(),
            ) ==> 2 * r.num == self.abs_gaps() && r.den == self.item_total() * (self.total_view()
                - min_entry(self.part_sizes_view())),
            r.den > 0,
    {
        if self.f == 0 {
            Ratio { num: 0, den: 1 }
        } else if self.total == 0 {
            Ratio { num: 1, den: 2 }
        } else {
            proof {
                if self.sizes@.len() == 0 {
                    lemma_sum_empty_zero(self.v@);
                }
            }
            let m = self.min_size();
            if m == self.total {
                Ratio { num: 0, den: 1 }
            } else {
                let num = self.excess();
                let rest = self.total - m;
                proof {
                    lemma_prefix_sum_full(self.v@);
                    lemma_prefix_sum_full(self.sizes@);
                    lemma_excess_within_norm(self.v@, self.sizes@, self.total as int, self.f as int);
                    let rr = rest as int;
                    let ff = self.f as int;
                    assert(ff * rr <= u64::MAX * u64::MAX) by (nonlinear_arith)
                        requires
                            0 <= rr <= u64::MAX,
                            0 <= ff <= u64::MAX,
                    ;
                    assert(ff * rr > 0) by (nonlinear_arith)
                        requires
                            ff > 0,
                            rr > 0,
                    ;
                }
                Ratio { num, den: self.f as u128 * rest as u128 }
            }
        }
    }

    /// Each part's share `size_i / total` of the corpus; zero in an empty corpus.
    pub fn get_part_shares(&self) -> (r: Vec<Ratio>)
        requires
            self.wf(),
        ensures
            r@.len() == self.n(),
            forall|i: int| 0 <= i < self.n() ==> #[trigger] r@[i] == part_share(self.part_sizes_view(), self.total_view(), i),
    {
        let mut r: Vec<Ratio> = Vec::new();
        let mut i: usize = 0;
        while i < self.sizes.len()
            invariant
                self.wf(),
                0 <= i <= self.sizes@.len(),
                r@.len() == i,
                forall|k: int| 0 <= k < i ==> #[trigger] r@[k] == part_share(self.sizes@, self.total as int, k),
            decreases self.sizes.len() - i,
        {
            if self.total > 0 {
                r.push(Ratio { num: self.sizes[i] as u128, den: self.total as u128 });
            } else {
                r.push(Ratio { num: 0, den: 1 });
            }
            i = i + 1;
        }
        r
    }

    /// Whether some part gives the item a positive local rate `v_i / size_i`.
    pub fn has_rated_part(&self) -> (r: bool)
        requires
            self.wf(),
        ensures
            r == self.rated(),
    {
        let mut i: usize = 0;
        while i < self.v.len()
            invariant
                self.wf(),
                0 <= i <= self.v@.len(),
                forall|k: int| 0 <= k < i ==> !(#[trigger] self.v@[k] > 0 && self.sizes@[k] > 0),
            decreases self.v.len() - i,
        {
            if self.v[i] > 0 && self.sizes[i] > 0 {
                return true;
            }
            i = i + 1;
        }
        false
    }

    /// Population standard deviation of `v`: undefined without parts, zero
    /// for an item that never occurs.
    pub fn sd_rule(&self) -> (r: Rule)
        requires
            self.wf(),
        ensures
            r == self.sd_rule_spec(),
    {
        if self.v.len() == 0 {
            Rule::Undefined
        } else if self.f == 0 {
            Rule::Zero
        } else {
            Rule::Formula
        }
    }

    /// Coefficient of variation of `v`: undefined without parts, zero where
    /// the mean frequency is zero.
    pub fn vc_rule(&self) -> (r: Rule)
        requires
            self.wf(),
        ensures
            r == self.sd_rule_spec(),
    {
        self.sd_rule()
    }

    pub open spec fn sd_rule_spec(&self) -> Rule {
        if self.n() == 0 {
            Rule::Undefined
        } else if self.item_total() == 0 {
            Rule::Zero
        } else {
            Rule::Formula
        }
    }

    pub open spec fn juilland_rule_spec(&self) -> Rule {
        if self.n() <= 1 {
            if self.item_total() > 0 { Rule::One } else { Rule::Zero }
        } else if self.item_total() == 0 || !self.rated() {
            Rule::Zero
        } else {
            Rule::Formula
        }
    }

    /// Juilland's D: with at most one part, one if the item occurs and zero
    /// if not; zero for an item that never occurs or whose mean local rate is
    /// zero.
    pub fn juilland_rule(&self) -> (r: Rule)
        requires
            self.wf(),
        ensures
            r == self.juilland_rule_spec(),
    {
        if self.v.len() <= 1 {
            if self.f > 0 { Rule::One } else { Rule::Zero }
        } else if self.f == 0 || !self.has_rated_part() {
            Rule::Zero
        } else {
            Rule::Formula
        }
    }

    pub open spec fn carroll_rule_spec(&self) -> Rule {
        if self.n() <= 1 {
            if self.item_total() > 0 { Rule::One } else { Rule::Zero }
        } else if !self.rated() {
            Rule::Zero
        } else {
            Rule::Formula
        }
    }

    /// Carroll's D2: with at most one part, one if the item occurs and zero
    /// if not; zero where the local rates sum to zero.
    pub fn carroll_rule(&self) -> (r: Rule)
        requires
            self.wf(),
        ensures
            r == self.carroll_rule_spec(),
    {
        if self.v.len() <= 1 {
            if self.f > 0 { Rule::One } else { Rule::Zero }
        } else if !self.has_rated_part() {
            Rule::Zero
        } else {
            Rule::Formula
        }
    }

    pub open spec fn occurrence_rule_spec(&self) -> Rule {
        if self.item_total() == 0 { Rule::Zero } else { Rule::Formula }
    }

    /// Roschengren's S_adj, the KL divergence, the JSD dispersion and the
    /// Hellinger dispersion: zero for an item that never occurs.
    pub fn occurrence_rule(&self) -> (r: Rule)
        requires
            self.wf(),
        ensures
            r == self.occurrence_rule_spec(),
    {
        if self.f == 0 {
            Rule::Zero
        } else {
            Rule::Formula
        }
    }

    pub open spec fn ft_rule_spec(&self) -> Rule {
        if self.n() == 0 { Rule::Undefined } else { Rule::Formula }
    }

    /// Mean text frequency FT, the mean local rate: undefined without parts.
    pub fn ft_rule(&self) -> (r: Rule)
        ensures
            r == self.ft_rule_spec(),
    {
        if self.v.len() == 0 {
            Rule::Undefined
        } else {
            Rule::Formula
        }
    }

    pub open spec fn da_rule_spec(&self) -> Rule {
        if self.n() == 0 {
            Rule::Undefined
        } else if self.n() == 1 {
            Rule::One
        } else if self.item_total() == 0 {
            Rule::Zero
        } else if !self.rated() {
            Rule::One
        } else {
            Rule::Formula
        }
    }

    /// Evenness DA: undefined without parts; one with a single part; zero
    /// for an item that never occurs; one where every local rate is zero (all
    /// rates equal).
    pub fn da_rule(&self) -> (r: Rule)
        requires
            self.wf(),
        ensures
            r == self.da_rule_spec(),
    {
        if self.v.len() == 0 {
            Rule::Undefined
        } else if self.v.len() == 1 {
            Rule::One
        } else if self.f == 0 {
            Rule::Zero
        } else if !self.has_rated_part() {
            Rule::One
        } else {
            Rule::Formula
        }
    }

    /// Every metric of the item that integer arithmetic settles: the range,
    /// DP, DP_norm and PT as exact values, and for each other metric whether it
    /// takes a fixed fallback or its formula.
    pub fn calculate_exact_metrics(&self) -> (r: ExactMetrics)
        requires
            self.wf(),
        ensures
            r.range == nonzero_count(self.freq()),
            r.dp == self.dp_spec(),
            r.dp_norm == self.dp_norm_spec(),
            r.pervasiveness_pt == self.pt_spec(),
            r.sd_population == self.sd_rule_spec(),
            r.vc_population == self.sd_rule_spec(),
            r.juilland_d == self.juilland_rule_spec(),
            r.carroll_d2 == self.carroll_rule_spec(),
            r.roschengren_s_adj == self.occurrence_rule_spec(),
            r.kl_divergence == self.occurrence_rule_spec(),
            r.jsd_dispersion == self.occurrence_rule_spec(),
            r.hellinger_dispersion == self.occurrence_rule_spec(),
            r.mean_text_frequency_ft == self.ft_rule_spec(),
            r.evenness_da == self.da_rule_spec(),
            r.dp.num <= r.dp.den,
            r.dp_norm.num <= r.dp_norm.den,
            r.pervasiveness_pt matches Some(q) ==> q.num <= q.den,
    {
        let occ = self.occurrence_rule();
        ExactMetrics {
            range: self.get_range(),
            dp: self.get_dp(),
            dp_norm: self.get_dp_norm(),
            pervasiveness_pt: self.get_pervasiveness_pt(),
            sd_population: self.sd_rule(),
            vc_population: self.vc_rule(),
            juilland_d: self.juilland_rule(),
            carroll_d2: self.carroll_rule(),
            roschengren_s_adj: occ,
            kl_divergence: occ,
            jsd_dispersion: occ,
            hellinger_dispersion: occ,
            mean_text_frequency_ft: self.ft_rule(),
            evenness_da: self.da_rule(),
        }
    }
}

/// What the engine settles for one item without floating-point arithmetic.
#[derive(Clone, Copy, Debug, PartialEq, Eq, Structural)]
pub struct ExactMetrics {
    pub range: usize,
    pub dp: Ratio,
    pub dp_norm: Ratio,
    pub pervasiveness_pt: Option<Ratio>,
    pub sd_population: Rule,
    pub vc_population: Rule,
    pub juilland_d: Rule,
    pub carroll_d2: Rule,
    pub roschengren_s_adj: Rule,
    pub kl_divergence: Rule,
    pub jsd_dispersion: Rule,
    pub hellinger_dispersion: Rule,
    pub mean_text_frequency_ft: Rule,
    pub evenness_da: Rule,
}

/// The sum of a vector that fits in `u64`.
fn sum_of(v: &Vec<u64>) -> (r: u64)
    requires
        sum_u64(v@) <= u64::MAX,
    ensures
        r == sum_u64(v@),
{
    let mut acc: u64 = 0;
    let mut i: usize = 0;
    proof {
        lemma_prefix_sum_full(v@);
    }
    while i < v.len()
        invariant
            0 <= i <= v@.len(),
            acc == prefix_sum(v@, i as int),
            prefix_sum(v@, v@.len() as int) <= u64::MAX,
        decreases v.len() - i,
    {
        proof {
            lemma_prefix_sum_monotone(v@, i + 1);
        }
        acc = acc + v[i];
        i = i + 1;
    }
    acc
}

proof fn lemma_u64_product_fits(a: int, b: int)
    requires
        0 <= a <= u64::MAX,
        0 <= b <= u64::MAX,
    ensures
        0 <= a * b <= u64::MAX * u64::MAX,
        u64::MAX * u64::MAX < u128::MAX,
{
    assert(0 <= a * b <= u64::MAX * u64::MAX) by (nonlinear_arith)
        requires
            0 <= a <= u64::MAX,
            0 <= b <= u64::MAX,
    ;
}

proof fn lemma_sum_empty_zero(v: Seq<u64>)
    requires
        v.len() == 0,
    ensures
        sum_u64(v) == 0,
{
}

proof fn lemma_min_entry_le_sum(s: Seq<u64>)
    requires
        s.len() > 0,
    ensures
        min_entry(s) <= sum_u64(s),
    decreases s.len(),
{
    if s.len() > 1 {
        lemma_min_entry_le_sum(s.drop_last());
    }
}

} // verus!
