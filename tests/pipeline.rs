use corpus_dispersion::word_analyzer::Ratio;
use corpus_dispersion::corpus_pipeline::{analyze_tagged, pair_tags, ProgressEvent};
use corpus_dispersion::table::FrequencyTable;

fn tok(w: &str, p: &str) -> (String, String) {
    (w.to_string(), p.to_string())
}

#[test]
fn counts_keys_per_document() {
    let docs = vec![
        vec![tok("a", "n"), tok("b", "v"), tok("a", "n")],
        vec![tok("a", "v"), tok("a", "n")],
        vec![tok("c", "n")],
    ];
    let c = analyze_tagged(&docs);
    assert_eq!(c.len(), 4);
    assert_eq!(c.key(0), tok("a", "n"));
    assert_eq!(c.key(1), tok("b", "v"));
    assert_eq!(c.key(2), tok("a", "v"));
    assert_eq!(c.key(3), tok("c", "n"));
    assert_eq!(c.part_sizes(), &vec![3, 2, 1]);
    assert_eq!(c.corpus_total(), 6);
    assert_eq!(c.analyzer(0).frequencies(), &vec![2, 1, 0]);
    assert_eq!(c.analyzer(2).frequencies(), &vec![0, 1, 0]);
    assert_eq!(c.analyzer(3).frequencies(), &vec![0, 0, 1]);
    assert_eq!(c.analyzer(0).get_range(), 2);
}

#[test]
fn same_surface_form_different_category_is_distinct() {
    let docs = vec![vec![tok("run", "v"), tok("run", "n")]];
    let c = analyze_tagged(&docs);
    assert_eq!(c.len(), 2);
}

#[test]
fn unreadable_document_adds_an_empty_part() {
    let docs = vec![vec![tok("x", "n")], vec![], vec![tok("x", "n"), tok("y", "v")]];
    let c = analyze_tagged(&docs);
    assert_eq!(c.len(), 2);
    assert_eq!(c.part_sizes(), &vec![1, 0, 2]);
    assert_eq!(c.corpus_total(), 3);
    assert_eq!(c.analyzer(0).frequencies(), &vec![1, 0, 1]);
    assert_eq!(c.analyzer(1).frequencies(), &vec![0, 0, 1]);
}

#[test]
fn runs_are_deterministic() {
    let docs = vec![vec![tok("a", "n"), tok("b", "v")], vec![tok("b", "v")]];
    let c1 = analyze_tagged(&docs);
    let c2 = analyze_tagged(&docs);
    assert_eq!(c1.len(), c2.len());
    for j in 0..c1.len() {
        assert_eq!(c1.key(j), c2.key(j));
        assert_eq!(
            c1.analyzer(j).calculate_exact_metrics(),
            c2.analyzer(j).calculate_exact_metrics()
        );
    }
}

#[test]
fn table_fills_one_document_at_a_time() {
    let mut t = FrequencyTable::new(2);
    assert_eq!(t.total_documents(), 2);
    t.add_document(&vec![tok("a", "n")]);
    assert_eq!(t.documents_read(), 1);
    t.add_document(&vec![tok("a", "n"), tok("a", "n")]);
    assert_eq!(t.tokens_so_far(), 3);
    let c = t.freeze();
    let m = c.analyzer(0).calculate_exact_metrics();
    assert_eq!(m.range, 2);
    // shares 1/3, 2/3; item 1/3, 2/3: no deviation
    assert_eq!(m.dp, Ratio { num: 0, den: 9 });
}

#[test]
fn pairs_tokens_with_categories() {
    let words = vec!["我".to_string(), "爱".to_string(), "你".to_string()];
    let tags = vec!["r".to_string(), "v".to_string()];
    let r = pair_tags(&words, &tags);
    assert_eq!(r, vec![tok("我", "r"), tok("爱", "v")]);
    assert_eq!(pair_tags(&vec![], &tags), vec![]);
}

#[test]
fn progress_counts_from_one() {
    let e = ProgressEvent::after_document(0, 3, &"a.txt".to_string());
    assert_eq!(e.current, 1);
    assert_eq!(e.total, 3);
    assert_eq!(e.file, "a.txt");
}

#[test]
fn keys_with_equal_hash_input_stay_apart() {
    // the byte strings "ab"+"c" and "a"+"bc" hash alike
    let docs = vec![vec![tok("ab", "c"), tok("a", "bc"), tok("ab", "c")]];
    let c = analyze_tagged(&docs);
    assert_eq!(c.len(), 2);
    assert_eq!(c.analyzer(0).frequencies(), &vec![2]);
    assert_eq!(c.analyzer(1).frequencies(), &vec![1]);
}

#[test]
fn many_keys_are_counted() {
    let doc: Vec<(String, String)> = (0..3000)
        .map(|i| (format!("词{}", i % 1500), "n".to_string()))
        .collect();
    let docs = vec![doc, vec![tok("词7", "n")]];
    let c = analyze_tagged(&docs);
    assert_eq!(c.len(), 1500);
    assert_eq!(c.key(7), tok("词7", "n"));
    assert_eq!(c.analyzer(7).frequencies(), &vec![2, 1]);
    assert_eq!(c.analyzer(8).frequencies(), &vec![2, 0]);
    assert_eq!(c.part_sizes(), &vec![3000, 1]);
}

#[test]
fn unreadable_document_in_the_middle_only_adds_a_zero_part() {
    let d0 = vec![tok("x", "n"), tok("y", "v")];
    let d1 = vec![tok("y", "v"), tok("z", "n")];
    let without = analyze_tagged(&vec![d0.clone(), d1.clone()]);
    let with = analyze_tagged(&vec![d0, vec![], d1]);
    assert_eq!(with.len(), without.len());
    for j in 0..with.len() {
        assert_eq!(with.key(j), without.key(j));
        let mut expected = without.analyzer(j).frequencies().clone();
        expected.insert(1, 0);
        assert_eq!(with.analyzer(j).frequencies(), &expected);
    }
    assert_eq!(with.part_sizes(), &vec![2, 0, 2]);
    assert_eq!(with.corpus_total(), without.corpus_total());
}
