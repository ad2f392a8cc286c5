use memex_rerank::remote::{
    read_reply, EmbedJob, HttpReply, RemoteConfig, RemoteEmbedder, RemoteEnv, RemoteError,
    RemoteReranker, Service, EMBED_BATCH, REQUEST_TIMEOUT_SECS, SNIPPET_CHARS,
};
use memex_rerank::score::{RerankHit, Score};

fn no_env() -> RemoteEnv {
    RemoteEnv {
        endpoint: None,
        api_key: None,
        model: None,
        dimensions: None,
        input_type: None,
    }
}

fn text(value: &str) -> Option<String> {
    Some(value.to_string())
}

fn config() -> RemoteConfig {
    RemoteConfig {
        endpoint: "https://example.com/v1".into(),
        api_key: "secret".into(),
        model: "voyage-4-lite".into(),
        dimensions: Some(2),
        input_type: true,
    }
}

fn reply(status: u16, status_text: &str, payload: &str) -> HttpReply {
    HttpReply {
        status,
        status_text: status_text.to_string(),
        payload: payload.to_string(),
    }
}

fn score(value: f32) -> Score {
    Score { bits: value.to_bits() }
}

#[test]
fn remote_config_requires_endpoint() {
    assert!(RemoteConfig::from_env(&no_env()).unwrap().is_none());
}

#[test]
fn remote_config_parses_env_block() {
    let env = RemoteEnv {
        endpoint: text("https://api.voyageai.com/v1/"),
        model: text("voyage-4-lite"),
        api_key: text("secret"),
        dimensions: text("1024"),
        ..no_env()
    };
    let config = RemoteConfig::from_env(&env).unwrap().expect("config");
    assert_eq!(config.endpoint, "https://api.voyageai.com/v1");
    assert_eq!(config.model, "voyage-4-lite");
    assert_eq!(config.api_key, "secret");
    assert_eq!(config.dimensions, Some(1024));
    assert!(config.input_type);
}

#[test]
fn remote_config_rejects_missing_model() {
    let env = RemoteEnv { endpoint: text("https://example.com/v1"), ..no_env() };
    assert!(RemoteConfig::from_env(&env).is_err());
}

#[test]
fn remote_config_input_type_off_switch() {
    let env = RemoteEnv {
        endpoint: text("https://example.com/v1"),
        model: text("text-embedding-3-small"),
        input_type: text("0"),
        ..no_env()
    };
    let config = RemoteConfig::from_env(&env).unwrap().expect("config");
    assert!(!config.input_type);
}

#[test]
fn remote_embedder_requires_dimensions() {
    let config = RemoteConfig {
        endpoint: "https://example.com/v1".into(),
        api_key: String::new(),
        model: "voyage-4-lite".into(),
        dimensions: None,
        input_type: true,
    };
    assert!(RemoteEmbedder::new(config).is_err());
}

#[test]
fn missing_dimensions_message() {
    let missing = RemoteConfig { dimensions: None, ..config() };
    let error = RemoteEmbedder::new(missing).err().expect("dimensions");
    assert_eq!(
        error.message(),
        "remote embeddings require MEMEX_EMBEDDINGS_DIMENSIONS (the API does not report output \
         size before the first call)"
    );
    assert_eq!(RemoteEmbedder::new(config()).ok().expect("embedder").dims(), 2);
}

#[test]
fn blank_variables_count_as_unset() {
    let env = RemoteEnv {
        endpoint: text(" \t\u{3000}"),
        model: text("m"),
        dimensions: text("x"),
        ..no_env()
    };
    assert!(RemoteConfig::from_env(&env).unwrap().is_none());
    let env = RemoteEnv { endpoint: text(" https://h/v1// "), model: text(" "), ..no_env() };
    let error = RemoteConfig::from_env(&env).expect_err("model");
    assert_eq!(
        error.message(),
        "MEMEX_EMBEDDINGS_ENDPOINT is set but MEMEX_EMBEDDINGS_MODEL is empty"
    );
    let env = RemoteEnv {
        endpoint: text(" https://h/v1// "),
        model: text(" m "),
        dimensions: text("  "),
        ..no_env()
    };
    let config = RemoteConfig::from_env(&env).unwrap().expect("config");
    assert_eq!(config.endpoint, "https://h/v1");
    assert_eq!(config.model, " m ");
    assert_eq!(config.api_key, "");
    assert_eq!(config.dimensions, None);
}

#[test]
fn only_white_space_is_trimmed() {
    for code in 0..=0x10ffff_u32 {
        if let Some(c) = char::from_u32(code) {
            let listed = matches!(
                code,
                0x9..=0xd
                    | 0x20
                    | 0x85
                    | 0xa0
                    | 0x1680
                    | 0x2000..=0x200a
                    | 0x2028
                    | 0x2029
                    | 0x202f
                    | 0x205f
                    | 0x3000
            );
            let env = RemoteEnv { endpoint: Some(c.to_string()), ..no_env() };
            assert_eq!(RemoteConfig::from_env(&env).is_ok(), listed, "{code:x}");
        }
    }
}

#[test]
fn dimensions_are_whole_numbers() {
    let resolve = |value: &str| {
        let env = RemoteEnv {
            endpoint: text("https://h/v1"),
            model: text("m"),
            dimensions: text(value),
            ..no_env()
        };
        RemoteConfig::from_env(&env).map(|config| config.expect("config").dimensions)
    };
    assert_eq!(resolve(" 007 ").unwrap(), Some(7));
    assert_eq!(resolve("+12").unwrap(), Some(12));
    assert_eq!(resolve(&usize::MAX.to_string()).unwrap(), Some(usize::MAX));
    for value in ["-1", "1_000", "1 0", "0x10", "+", "1.0", "\u{663}"] {
        let error = resolve(value).expect_err("dimensions");
        assert_eq!(error.message(), "invalid digit found in string", "{value}");
    }
    let beyond = format!("{}0", usize::MAX);
    let error = resolve(&beyond).expect_err("dimensions");
    assert_eq!(error.message(), "number too large to fit in target type");
}

#[test]
fn input_type_switch_values() {
    let resolve = |value: &str| {
        let env = RemoteEnv {
            endpoint: text("https://h/v1"),
            model: text("m"),
            input_type: text(value),
            ..no_env()
        };
        RemoteConfig::from_env(&env).unwrap().expect("config").input_type
    };
    for off in ["0", " 0 ", "false", "no", "", "  "] {
        assert!(!resolve(off), "{off}");
    }
    for on in ["1", "true", "yes", "False", "off", "00"] {
        assert!(resolve(on), "{on}");
    }
}

#[test]
fn requests_carry_the_key_where_there_is_one() {
    let request = config().post("/path", "{}".to_string());
    assert_eq!(request.url, "https://example.com/v1/path");
    assert_eq!(request.bearer.as_deref(), Some("secret"));
    assert_eq!(request.body, "{}");
    let keyless = RemoteConfig { api_key: String::new(), ..config() };
    assert!(keyless.post("/path", "{}".to_string()).bearer.is_none());
    assert_eq!(REQUEST_TIMEOUT_SECS, 10);
}

#[test]
fn replies_of_success_give_their_payload() {
    for status in [200, 204, 299] {
        let payload = read_reply(Service::Embeddings, reply(status, "OK", "body"));
        assert_eq!(payload.expect("payload"), "body");
    }
    for status in [100, 199, 300, 404, 500] {
        assert!(read_reply(Service::Rerank, reply(status, "no", "body")).is_err());
    }
}

#[test]
fn refusals_keep_the_start_of_the_payload() {
    let error = read_reply(Service::Embeddings, reply(404, "404 Not Found", "gone")).unwrap_err();
    assert_eq!(error.message(), "remote embeddings HTTP 404 Not Found: gone");
    let long = "\u{e9}".repeat(SNIPPET_CHARS + 5);
    let error = read_reply(Service::Rerank, reply(500, "500 X", &long)).unwrap_err();
    assert_eq!(
        error.message(),
        format!("remote rerank HTTP 500 X: {}", "\u{e9}".repeat(300))
    );
    let exact = "z".repeat(300);
    let error = read_reply(Service::Rerank, reply(500, "500 X", &exact)).unwrap_err();
    assert!(matches!(error, RemoteError::Http { snippet, .. } if snippet == exact));
}

#[test]
fn embeddings_body_is_json() {
    let embedder = RemoteEmbedder::new(config()).ok().expect("embedder");
    let request = embedder.embed_batch(&["a \"quoted\"\ntext", "b\u{e9}"], Some("query"));
    assert_eq!(request.url, "https://example.com/v1/embeddings");
    assert_eq!(
        request.body,
        "{\"input\":[\"a \\\"quoted\\\"\\ntext\",\"b\u{e9}\"],\"input_type\":\"query\",\
         \"model\":\"voyage-4-lite\",\"output_dimension\":2}"
    );
    let request = embedder.embed_batch(&[], None);
    assert_eq!(
        request.body,
        "{\"input\":[],\"model\":\"voyage-4-lite\",\"output_dimension\":2}"
    );
}

#[test]
fn input_type_is_sent_only_where_it_is_on() {
    let off = RemoteConfig { input_type: false, ..config() };
    let embedder = RemoteEmbedder::new(off).ok().expect("embedder");
    let expected = "{\"input\":[\"a\"],\"model\":\"voyage-4-lite\",\"output_dimension\":2}";
    assert_eq!(embedder.embed_batch(&["a"], Some("query")).body, expected);
    assert_eq!(embedder.embed_batch(&["a"], None).body, expected);
    let texts = ["a"];
    let job: EmbedJob<f32> = embedder.embed(&texts, Some("document"));
    assert_eq!(job.next_request().expect("request").body, expected);
    let on = RemoteEmbedder::new(config()).ok().expect("embedder");
    assert_eq!(on.embed_batch(&["a"], None).body, expected);
    assert_eq!(
        on.embed_batch(&["a"], Some("document")).body,
        "{\"input\":[\"a\"],\"input_type\":\"document\",\"model\":\"voyage-4-lite\",\
         \"output_dimension\":2}"
    );
}

#[test]
fn embedding_asks_batch_by_batch() {
    let embedder = RemoteEmbedder::new(config()).ok().expect("embedder");
    let owned: Vec<String> = (0..200).map(|i| format!("text {i}")).collect();
    let texts: Vec<&str> = owned.iter().map(String::as_str).collect();
    let mut job: EmbedJob<f32> = embedder.embed(&texts, None);
    let mut asked: Vec<String> = Vec::new();
    let mut sizes: Vec<usize> = Vec::new();
    while let Some(request) = job.next_request() {
        let body: serde_json::Value = serde_json::from_str(&request.body).expect("json");
        let input: Vec<String> = body["input"]
            .as_array()
            .expect("array")
            .iter()
            .map(|text| text.as_str().expect("text").to_string())
            .collect();
        let vectors: Vec<Vec<f32>> = (0..input.len())
            .map(|j| vec![(asked.len() + j) as f32, 0.5])
            .collect();
        sizes.push(input.len());
        asked.extend(input);
        job.accept(vectors).expect("vectors");
    }
    assert_eq!(sizes, vec![EMBED_BATCH, EMBED_BATCH, 8]);
    assert_eq!(asked, owned);
    let vectors = job.into_vectors();
    assert_eq!(vectors.len(), 200);
    for (i, vector) in vectors.iter().enumerate() {
        assert_eq!(vector, &vec![i as f32, 0.5]);
    }
}

#[test]
fn embedding_nothing_asks_nothing() {
    let embedder = RemoteEmbedder::new(config()).ok().expect("embedder");
    let job: EmbedJob<f32> = embedder.embed(&[], Some("document"));
    assert!(job.next_request().is_none());
    assert!(job.into_vectors().is_empty());
}

#[test]
fn embedding_refuses_replies_that_do_not_fit() {
    let embedder = RemoteEmbedder::new(config()).ok().expect("embedder");
    let texts = ["a", "b"];
    let mut job: EmbedJob<f32> = embedder.embed(&texts, None);
    let error = job.accept(vec![vec![1.0, 2.0]]).unwrap_err();
    assert_eq!(error.message(), "remote embeddings returned 1 vectors for 2 inputs");
    let error = job.accept(vec![vec![1.0, 2.0], vec![1.0, 2.0, 3.0]]).unwrap_err();
    assert_eq!(error.message(), "remote embeddings returned 3 dims, expected 2");
    let error = job.accept(vec![Vec::new(), vec![1.0]]).unwrap_err();
    assert_eq!(error.message(), "remote embeddings returned 0 dims, expected 2");
    assert!(job.next_request().is_some());
    job.accept(vec![vec![1.0, 2.0], vec![3.0, 4.0]]).expect("vectors");
    assert!(job.next_request().is_none());
    assert_eq!(job.into_vectors(), vec![vec![1.0, 2.0], vec![3.0, 4.0]]);
}

#[test]
fn rerank_model_comes_from_the_caller_or_the_environment() {
    let asked = RemoteReranker::new(config(), Some("  rerank-3 "), text("other"));
    assert_eq!(asked.model(), "rerank-3");
    let blank = RemoteReranker::new(config(), Some("  "), text(" jina-reranker-v3 "));
    assert_eq!(blank.model(), " jina-reranker-v3 ");
    let unset = RemoteReranker::new(config(), None, None);
    assert_eq!(unset.model(), "rerank-3-lite");
    let empty = RemoteReranker::new(config(), None, text(""));
    assert_eq!(empty.model(), "");
}

#[test]
fn rerank_body_is_json() {
    let reranker = RemoteReranker::new(config(), None, None);
    let request = reranker.rerank("what?", &["one", "two"]);
    assert_eq!(request.url, "https://example.com/v1/rerank");
    assert_eq!(request.bearer.as_deref(), Some("secret"));
    assert_eq!(
        request.body,
        "{\"documents\":[\"one\",\"two\"],\"model\":\"rerank-3-lite\",\"query\":\"what?\"}"
    );
}

#[test]
fn rerank_scores_follow_the_documents() {
    let reranker = RemoteReranker::new(config(), None, None);
    let hits = vec![
        RerankHit { index: 2, score: score(0.9) },
        RerankHit { index: 0, score: score(0.1) },
    ];
    assert_eq!(
        reranker.scores(3, &hits).expect("scores"),
        vec![score(0.1), score(0.0), score(0.9)]
    );
    let error = reranker.scores(2, &hits).unwrap_err();
    assert_eq!(error.message(), "remote rerank returned out-of-range document index 2");
    let far = vec![RerankHit { index: 1203, score: score(0.9) }];
    let error = reranker.scores(2, &far).unwrap_err();
    assert_eq!(error.message(), "remote rerank returned out-of-range document index 1203");
}
