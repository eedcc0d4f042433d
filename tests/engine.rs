use corpus_dispersion::word_analyzer::{CorpusWordAnalyzer, Ratio, Rule};

fn ratio(num: u128, den: u128) -> Ratio {
    Ratio { num, den }
}

fn two_parts(v: Vec<u64>) -> CorpusWordAnalyzer {
    CorpusWordAnalyzer::new(v, vec![100, 100], 200)
}

#[test]
fn uniform_distribution_scenario() {
    let a = two_parts(vec![50, 50]);
    let m = a.calculate_exact_metrics();
    assert_eq!(m.range, 2);
    assert_eq!(m.dp.num, 0);
    assert_eq!(m.dp_norm.num, 0);
    assert_eq!(m.pervasiveness_pt, Some(ratio(2, 2)));
    assert_eq!(m.juilland_d, Rule::Formula);
    assert_eq!(m.kl_divergence, Rule::Formula);
    assert_eq!(m.jsd_dispersion, Rule::Formula);
    assert_eq!(m.hellinger_dispersion, Rule::Formula);
    assert_eq!(m.evenness_da, Rule::Formula);
    assert_eq!(m.mean_text_frequency_ft, Rule::Formula);
}

#[test]
fn concentrated_scenario() {
    let a = two_parts(vec![100, 0]);
    let m = a.calculate_exact_metrics();
    assert_eq!(m.range, 1);
    assert_eq!(m.dp, ratio(10000, 20000));
    assert_eq!(m.dp_norm, ratio(10000, 10000));
    assert_eq!(m.pervasiveness_pt, Some(ratio(1, 2)));
    assert_eq!(m.juilland_d, Rule::Formula);
    assert_eq!(m.evenness_da, Rule::Formula);
}

#[test]
fn zero_occurrence_scenario() {
    let a = two_parts(vec![0, 0]);
    let m = a.calculate_exact_metrics();
    assert_eq!(m.range, 0);
    assert_eq!(m.dp, ratio(0, 1));
    assert_eq!(m.dp_norm, ratio(0, 1));
    assert_eq!(m.pervasiveness_pt, Some(ratio(0, 2)));
    assert_eq!(m.sd_population, Rule::Zero);
    assert_eq!(m.vc_population, Rule::Zero);
    assert_eq!(m.juilland_d, Rule::Zero);
    assert_eq!(m.carroll_d2, Rule::Zero);
    assert_eq!(m.roschengren_s_adj, Rule::Zero);
    assert_eq!(m.kl_divergence, Rule::Zero);
    assert_eq!(m.jsd_dispersion, Rule::Zero);
    assert_eq!(m.hellinger_dispersion, Rule::Zero);
    assert_eq!(m.evenness_da, Rule::Zero);
}

#[test]
fn single_part_corpus() {
    let a = CorpusWordAnalyzer::new(vec![5], vec![10], 10);
    assert_eq!(a.juilland_rule(), Rule::One);
    assert_eq!(a.carroll_rule(), Rule::One);
    assert_eq!(a.da_rule(), Rule::One);
    assert_eq!(a.get_dp_norm(), ratio(0, 1));
    assert_eq!(a.get_dp(), ratio(50 - 50, 50));
    let b = CorpusWordAnalyzer::new(vec![0], vec![10], 10);
    assert_eq!(b.juilland_rule(), Rule::Zero);
    assert_eq!(b.carroll_rule(), Rule::Zero);
}

#[test]
fn single_part_corpus_without_the_item_is_even() {
    let a = CorpusWordAnalyzer::new(vec![0], vec![10], 10);
    assert_eq!(a.da_rule(), Rule::One);
    assert_eq!(a.calculate_exact_metrics().evenness_da, Rule::One);
}

#[test]
fn no_parts_leaves_metrics_undefined() {
    let a = CorpusWordAnalyzer::new(vec![], vec![], 0);
    let m = a.calculate_exact_metrics();
    assert_eq!(m.range, 0);
    assert_eq!(m.pervasiveness_pt, None);
    assert_eq!(m.sd_population, Rule::Undefined);
    assert_eq!(m.vc_population, Rule::Undefined);
    assert_eq!(m.mean_text_frequency_ft, Rule::Undefined);
    assert_eq!(m.evenness_da, Rule::Undefined);
    assert_eq!(m.juilland_d, Rule::Zero);
    assert_eq!(m.dp, ratio(0, 1));
}

#[test]
fn empty_parts_give_half_dp() {
    let a = CorpusWordAnalyzer::new(vec![3, 1], vec![0, 0], 0);
    assert_eq!(a.get_dp(), ratio(1, 2));
    assert_eq!(a.get_dp_norm(), ratio(1, 2));
    assert!(!a.has_rated_part());
    assert_eq!(a.juilland_rule(), Rule::Zero);
    assert_eq!(a.carroll_rule(), Rule::Zero);
    assert_eq!(a.da_rule(), Rule::One);
}

#[test]
fn dp_of_uneven_parts() {
    // shares 1/4 and 3/4, item split 3:1; DP = ½(|3/4 − 1/4| + |1/4 − 3/4|) = 1/2
    let a = CorpusWordAnalyzer::new(vec![3, 1], vec![10, 30], 40);
    let dp = a.get_dp();
    assert_eq!(dp, ratio(80, 160));
    // 1 − min share = 3/4, so DP_norm = 2/3
    let norm = a.get_dp_norm();
    assert_eq!(norm, ratio(80, 120));
}

#[test]
fn part_shares_add_up() {
    let a = CorpusWordAnalyzer::new(vec![1, 2, 0], vec![10, 30, 60], 100);
    let s = a.get_part_shares();
    assert_eq!(s, vec![ratio(10, 100), ratio(30, 100), ratio(60, 100)]);
    let sum: u128 = s.iter().map(|r| r.num).sum();
    assert_eq!(sum, 100);
    let empty = CorpusWordAnalyzer::new(vec![0], vec![0], 0);
    assert_eq!(empty.get_part_shares(), vec![ratio(0, 1)]);
}

#[test]
fn range_and_pervasiveness() {
    let a = CorpusWordAnalyzer::new(vec![0, 4, 0, 1], vec![5, 5, 5, 5], 20);
    assert_eq!(a.get_range(), 2);
    assert_eq!(a.get_pervasiveness_pt(), Some(ratio(2, 4)));
    assert_eq!(a.frequency_total(), 5);
    assert_eq!(a.corpus_total(), 20);
    assert_eq!(a.frequencies(), &vec![0, 4, 0, 1]);
    assert_eq!(a.part_sizes(), &vec![5, 5, 5, 5]);
}

#[test]
fn dp_norm_reaches_one_when_concentrated_in_the_smallest_part() {
    // all occurrences in the smallest part: DP = 1 − 1/4 = 3/4, DP_norm = 1
    let a = CorpusWordAnalyzer::new(vec![2, 0], vec![10, 30], 40);
    assert_eq!(a.get_dp(), ratio(60, 80));
    assert_eq!(a.get_dp_norm(), ratio(60, 60));
}
