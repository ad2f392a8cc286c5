use memex_rerank::rerank::{
    apply_hits, document_text, parse_rerank_model, select_model, validate_rerank_content,
    LocatedRecord, Record, RerankError, RerankOptions, RerankerModel, SearchContent,
    DEFAULT_RERANK_LIMIT, MAX_RERANK_LIMIT, RERANK_MODEL_CHOICES, TOOL_FIELD_BUDGET,
};
use memex_rerank::score::{align_scores, order_by_score, RerankHit, Score};

fn record(text: &str) -> Record {
    Record {
        doc_id: 0,
        text: text.to_string(),
        tool_input: None,
        tool_output: None,
    }
}

fn score(value: f32) -> Score {
    Score { bits: value.to_bits() }
}

fn scores(values: &[f32]) -> Vec<Score> {
    values.iter().map(|value| score(*value)).collect()
}

fn hit(index: usize, value: f32) -> RerankHit {
    RerankHit { index, score: score(value) }
}

fn located(count: u64) -> Vec<LocatedRecord> {
    (0..count)
        .map(|doc_id| LocatedRecord {
            record: Record { doc_id, ..record("text") },
            score: score(-1.0),
        })
        .collect()
}

fn listed(results: &[LocatedRecord]) -> Vec<(u64, f32)> {
    results
        .iter()
        .map(|located| (located.record.doc_id, f32::from_bits(located.score.bits)))
        .collect()
}

#[test]
fn ordering_sorts_descending_with_stable_ties() {
    let order = order_by_score(scores(&[1.0, 3.0, 3.0, 2.0]));
    assert_eq!(order, vec![1, 2, 3, 0]);
}

#[test]
fn ordering_survives_nan_scores() {
    let order = order_by_score(scores(&[f32::NAN, 1.0]));
    assert_eq!(order, vec![0, 1]);
}

#[test]
fn model_parse_matches_documented_names() {
    assert!(matches!(
        parse_rerank_model("bge"),
        Ok(RerankerModel::BGERerankerBase)
    ));
    assert!(matches!(
        parse_rerank_model("BGE-M3"),
        Ok(RerankerModel::BGERerankerV2M3)
    ));
    assert!(matches!(
        parse_rerank_model("jina"),
        Ok(RerankerModel::JINARerankerV1TurboEn)
    ));
    assert!(matches!(
        parse_rerank_model("jina-multilingual"),
        Ok(RerankerModel::JINARerankerV2BaseMultiligual)
    ));
    assert!(parse_rerank_model("gemma").is_err());
}

#[test]
fn rerank_guard_rejects_memory_content() {
    assert!(validate_rerank_content(true, SearchContent::Conversations).is_ok());
    assert!(validate_rerank_content(false, SearchContent::Memories).is_ok());
    let error = validate_rerank_content(true, SearchContent::Memories)
        .expect_err("memories + rerank must fail");
    assert_eq!(
        error.message(),
        "reranking applies to conversation search only"
    );
}

#[test]
fn document_text_appends_truncated_tool_fields() {
    let mut record = record("answer");
    record.tool_input = Some("input".to_string());
    record.tool_output = Some("x".repeat(TOOL_FIELD_BUDGET + 10));
    let document = document_text(&record);
    assert!(document.starts_with("answer\ninput\n"));
    assert_eq!(
        document.chars().count(),
        "answer\ninput\n".len() + TOOL_FIELD_BUDGET
    );
}

#[test]
fn document_text_keeps_fields_within_budget_whole() {
    let mut record = record("answer");
    assert_eq!(document_text(&record), "answer");
    record.tool_output = Some("\u{e9}".repeat(TOOL_FIELD_BUDGET));
    let expected = format!("answer\n{}", "\u{e9}".repeat(TOOL_FIELD_BUDGET));
    assert_eq!(document_text(&record), expected);
    record.tool_output = Some("\u{e9}".repeat(TOOL_FIELD_BUDGET + 1));
    assert_eq!(document_text(&record), expected);
    record.tool_input = Some(String::new());
    record.tool_output = None;
    assert_eq!(document_text(&record), "answer\n");
}

#[test]
fn document_text_never_cuts_the_text() {
    let long = "y".repeat(3 * TOOL_FIELD_BUDGET);
    assert_eq!(document_text(&record(&long)), long);
}

#[test]
fn limits_and_choices_are_the_documented_ones() {
    assert_eq!(DEFAULT_RERANK_LIMIT, 50);
    assert_eq!(MAX_RERANK_LIMIT, 200);
    assert_eq!(
        RERANK_MODEL_CHOICES,
        ["bge", "bge-m3", "jina", "jina-multilingual"]
    );
    let options = RerankOptions { limit: DEFAULT_RERANK_LIMIT, model: None };
    assert_eq!(options.limit, 50);
    assert!(options.model.is_none());
}

#[test]
fn every_choice_names_its_own_model() {
    let mut models: Vec<RerankerModel> = Vec::new();
    for choice in RERANK_MODEL_CHOICES {
        let model = parse_rerank_model(choice).expect("choice");
        assert_eq!(parse_rerank_model(&choice.to_ascii_uppercase()).expect("upper"), model);
        assert!(!models.contains(&model));
        models.push(model);
    }
    assert_eq!(models.len(), 4);
}

#[test]
fn unnamed_model_is_the_default_one() {
    assert!(matches!(parse_rerank_model(""), Ok(RerankerModel::BGERerankerBase)));
    assert!(matches!(select_model(None), Ok(RerankerModel::BGERerankerBase)));
    assert!(matches!(select_model(Some("Jina")), Ok(RerankerModel::JINARerankerV1TurboEn)));
    assert!(select_model(Some("bge ")).is_err());
}

#[test]
fn unknown_model_error_lists_the_options() {
    let error = parse_rerank_model("GEMMA-\u{c9}").expect_err("unknown");
    assert!(matches!(&error, RerankError::UnknownModel { name } if name == "gemma-\u{c9}"));
    assert_eq!(
        error.message(),
        "unknown rerank model 'gemma-\u{c9}', options: bge, bge-m3, jina, jina-multilingual"
    );
}

#[test]
fn scores_compare_as_floats_do() {
    let samples = [
        f32::NEG_INFINITY,
        f32::MIN,
        -2.5,
        -1.0,
        -f32::MIN_POSITIVE,
        -1.0e-45,
        -0.0,
        0.0,
        1.0e-45,
        f32::MIN_POSITIVE,
        1.0,
        2.5,
        f32::MAX,
        f32::INFINITY,
        f32::NAN,
        -f32::NAN,
    ];
    for left in samples {
        for right in samples {
            let expected = if right > left { vec![1, 0] } else { vec![0, 1] };
            assert_eq!(order_by_score(scores(&[left, right])), expected, "{left} {right}");
        }
    }
}

#[test]
fn ordering_of_small_lists_is_that_of_a_stable_sort() {
    let values = [2.0, -1.0, 3.0, 0.5];
    let mut state: usize = 7;
    for _ in 0..500 {
        let mut picked: Vec<f32> = Vec::new();
        for _ in 0..8 {
            state = (state * 1103515245 + 12345) % 2147483648;
            picked.push(values[(state / 65536) % 4]);
        }
        let mut expected: Vec<usize> = (0..picked.len()).collect();
        expected.sort_by(|left, right| picked[*right].partial_cmp(&picked[*left]).unwrap());
        assert_eq!(order_by_score(scores(&picked)), expected);
    }
}

#[test]
fn no_number_keeps_its_neighbours_apart() {
    assert_eq!(order_by_score(scores(&[1.0, f32::NAN, 2.0])), vec![0, 1, 2]);
    assert_eq!(order_by_score(scores(&[2.0, 1.0, 3.0, f32::NAN])), vec![2, 0, 1, 3]);
    assert_eq!(order_by_score(Vec::new()), Vec::<usize>::new());
}

#[test]
fn aligned_scores_take_the_last_hit() {
    let hits = vec![hit(2, 0.5), hit(0, 0.25), hit(2, 0.75)];
    assert_eq!(align_scores(&hits, 4), Ok(scores(&[0.25, 0.0, 0.75, 0.0])));
    assert_eq!(align_scores(&vec![hit(1, 1.0), hit(7, 1.0), hit(9, 1.0)], 4), Err(7));
    assert_eq!(align_scores(&vec![hit(0, 1.0)], 0), Err(0));
    assert_eq!(align_scores(&Vec::new(), 2), Ok(scores(&[0.0, 0.0])));
}

#[test]
fn aligned_scores_ignore_the_order_of_hits() {
    let hits = vec![hit(2, 0.5), hit(0, 0.25), hit(1, 0.75)];
    let mut reversed = hits.clone();
    reversed.reverse();
    assert_eq!(align_scores(&hits, 3), align_scores(&reversed, 3));
}

#[test]
fn reranked_results_are_in_order() {
    let mut results = located(6);
    let hits: Vec<RerankHit> = (0..6).map(|i| hit(i, ((i * 5) % 4) as f32)).collect();
    apply_hits(&mut results, &hits).expect("hits");
    let after: Vec<Score> = results.iter().map(|located| located.score).collect();
    assert_eq!(order_by_score(after), vec![0, 1, 2, 3, 4, 5]);
}

#[test]
fn reranking_puts_records_in_the_order_of_their_scores() {
    let mut results = located(4);
    let hits = vec![hit(1, 3.0), hit(2, 3.0), hit(3, 2.0), hit(0, 1.0)];
    apply_hits(&mut results, &hits).expect("hits");
    assert_eq!(listed(&results), vec![(1, 3.0), (2, 3.0), (3, 2.0), (0, 1.0)]);
}

#[test]
fn reranking_follows_a_cycle_of_places() {
    let mut results = located(3);
    let hits = vec![hit(0, 1.0), hit(1, 3.0), hit(2, 2.0)];
    apply_hits(&mut results, &hits).expect("hits");
    assert_eq!(listed(&results), vec![(1, 3.0), (2, 2.0), (0, 1.0)]);
}

#[test]
fn reranking_of_ties_moves_nothing() {
    let mut results = located(5);
    let hits = vec![hit(4, 0.5), hit(3, 0.5), hit(2, 0.5), hit(1, 0.5), hit(0, 0.5)];
    apply_hits(&mut results, &hits).expect("hits");
    assert_eq!(listed(&results), vec![(0, 0.5), (1, 0.5), (2, 0.5), (3, 0.5), (4, 0.5)]);
}

#[test]
fn reranking_keeps_every_record() {
    let mut results = located(40);
    let hits: Vec<RerankHit> = (0..40).map(|i| hit(i, ((i * 17) % 13) as f32)).collect();
    apply_hits(&mut results, &hits).expect("hits");
    for pair in results.windows(2) {
        let (first, second) = (&pair[0], &pair[1]);
        let (high, low) = (f32::from_bits(first.score.bits), f32::from_bits(second.score.bits));
        assert!(high > low || (high == low && first.record.doc_id < second.record.doc_id));
    }
    let mut ids: Vec<u64> = results.iter().map(|located| located.record.doc_id).collect();
    ids.sort();
    assert_eq!(ids, (0..40).collect::<Vec<u64>>());
}

#[test]
fn reranking_refuses_a_hit_for_no_record() {
    let mut results = located(2);
    let error = apply_hits(&mut results, &vec![hit(1, 9.0), hit(2, 1.0)]).expect_err("range");
    assert!(matches!(error, RerankError::OutOfRange { index: 2 }));
    assert_eq!(error.message(), "reranker returned out-of-range document index 2");
    assert_eq!(listed(&results), vec![(0, -1.0), (1, -1.0)]);
}
