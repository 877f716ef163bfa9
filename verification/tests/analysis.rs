use sta::analysis::{Analysis, AnalysisSummary};

const SAMPLE_TEXT_1: &str = "The infinite monkey theorem states that a monkey hitting keys at";

const SAMPLE_TEXT_2: &str = "The infinite monkey theorem states that a monkey hitting keys at random on a typewriter (keyboard) for an infinite amount of time will almost surely type any given text, such as the complete works of William Shakespeare. In fact, the monkey would almost surely type every possible finite text an infinite number of times.[...]";

fn summary_fields(s: &AnalysisSummary) -> (Vec<(String, u64)>, u64, usize) {
    (s.words.clone(), s.total_words, s.total_uniq_words)
}

#[test]
fn should_create_report_with_zero_words_len() {
    let mut analysis = Analysis::new();
    analysis.process_sample("");
    assert_eq!(analysis.distinct_words(), 0);
}

#[test]
fn should_create_report_with_ten_words_len() {
    let mut analysis = Analysis::new();
    analysis.process_sample(SAMPLE_TEXT_1);
    assert_eq!(analysis.distinct_words(), 10);
}

#[test]
fn should_create_report_with_forty_words_len() {
    let mut analysis = Analysis::new();
    analysis.process_sample(SAMPLE_TEXT_2);
    assert_eq!(analysis.distinct_words(), 40);
}

#[test]
fn should_create_summary_with_forty_words_len() {
    let mut analysis = Analysis::new();
    analysis.process_sample(SAMPLE_TEXT_2);
    assert_eq!(analysis.distinct_words(), 40);

    let summary = analysis.get_summary();
    assert_eq!(summary.total_words, 54);
    assert_eq!(summary.total_uniq_words, 40);
}

#[test]
fn empty_input_yields_all_zero_summary() {
    let mut analysis = Analysis::new();
    analysis.process_sample("");
    let summary = analysis.get_summary();
    assert_eq!(summary.words.len(), 0);
    assert_eq!(summary.total_words, 0);
    assert_eq!(summary.total_uniq_words, 0);
}

#[test]
fn summary_before_any_processing_is_all_zero() {
    let analysis = Analysis::new();
    let summary = analysis.get_summary();
    assert_eq!(summary.words.len(), 0);
    assert_eq!(summary.total_words, 0);
    assert_eq!(summary.total_uniq_words, 0);
    assert_eq!(analysis.count_of("anything"), 0);
}

#[test]
fn case_folding_merges_counts() {
    let mut analysis = Analysis::new();
    analysis.process_sample("The the THE");
    assert_eq!(analysis.distinct_words(), 1);
    assert_eq!(analysis.count_of("the"), 3);
}

#[test]
fn non_ascii_case_folding_merges_counts() {
    let mut analysis = Analysis::new();
    analysis.process_sample("Äpfel ÄPFEL äpfel");
    assert_eq!(analysis.distinct_words(), 1);
    assert_eq!(analysis.count_of("äpfel"), 3);
}

#[test]
fn punctuation_and_digits_are_stripped() {
    let mut analysis = Analysis::new();
    analysis.process_sample("keys, 3.14 42 !!! abc123def");
    assert_eq!(analysis.count_of("keys"), 1);
    assert_eq!(analysis.count_of("abcdef"), 1);
    assert_eq!(analysis.distinct_words(), 2);
    let summary = analysis.get_summary();
    assert_eq!(summary.total_words, 2);
}

#[test]
fn hyphens_and_double_quotes() {
    let mut analysis = Analysis::new();
    analysis.process_sample("well-known \"quoted\" words");
    assert_eq!(analysis.count_of("well-known"), 1);
    assert_eq!(analysis.count_of("quoted"), 1);
    assert_eq!(analysis.count_of("words"), 1);
    assert_eq!(analysis.distinct_words(), 3);
}

#[test]
fn scenario_b_word_counts() {
    let mut analysis = Analysis::new();
    analysis.process_sample(SAMPLE_TEXT_1);
    for word in [
        "the", "infinite", "theorem", "states", "that", "a", "hitting", "keys", "at",
    ] {
        assert_eq!(analysis.count_of(word), 1);
    }
    assert_eq!(analysis.count_of("monkey"), 2);
    let summary = analysis.get_summary();
    assert_eq!(summary.total_uniq_words, 10);
    assert_eq!(summary.total_words, 11);
}

#[test]
fn additivity_across_line_boundary_splits() {
    let mut whole = Analysis::new();
    whole.process_sample("The infinite monkey\ntheorem states that a monkey\nhitting keys at");

    let mut parts = Analysis::new();
    parts.process_sample("The infinite monkey");
    parts.process_sample("theorem states that a monkey");
    parts.process_sample("hitting keys at");

    assert_eq!(
        summary_fields(&whole.get_summary()),
        summary_fields(&parts.get_summary())
    );
}

#[test]
fn additivity_with_trailing_newline_chunks() {
    let mut whole = Analysis::new();
    whole.process_sample("one two\ntwo three\n");

    let mut parts = Analysis::new();
    parts.process_sample("one two\n");
    parts.process_sample("two three\n");

    assert_eq!(
        summary_fields(&whole.get_summary()),
        summary_fields(&parts.get_summary())
    );
    assert_eq!(whole.count_of("two"), 2);
}

#[test]
fn summary_read_is_idempotent() {
    let mut analysis = Analysis::new();
    analysis.process_sample(SAMPLE_TEXT_1);
    let first = analysis.get_summary();
    let second = analysis.get_summary();
    assert_eq!(summary_fields(&first), summary_fields(&second));
}

#[test]
fn repeated_runs_are_deterministic() {
    let mut one = Analysis::new();
    let mut two = Analysis::new();
    one.process_sample(SAMPLE_TEXT_2);
    two.process_sample(SAMPLE_TEXT_2);
    assert_eq!(
        summary_fields(&one.get_summary()),
        summary_fields(&two.get_summary())
    );
}

#[test]
fn whitespace_only_input_counts_nothing() {
    let mut analysis = Analysis::new();
    analysis.process_sample(" \t\r\n  \n");
    assert_eq!(analysis.distinct_words(), 0);
    assert_eq!(analysis.get_summary().total_words, 0);
}

#[test]
fn counts_accumulate_across_chunks() {
    let mut analysis = Analysis::new();
    analysis.process_sample("alpha beta");
    analysis.process_sample("beta gamma");
    assert_eq!(analysis.count_of("alpha"), 1);
    assert_eq!(analysis.count_of("beta"), 2);
    assert_eq!(analysis.count_of("gamma"), 1);
    assert_eq!(analysis.count_of("delta"), 0);
    let summary = analysis.get_summary();
    assert_eq!(summary.total_words, 4);
    assert_eq!(summary.total_uniq_words, 3);
}
