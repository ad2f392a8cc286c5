# memex_rerank

Reranking of conversation search results, and the remote endpoints that embed and rerank
them, verified with Verus.

- `src/score.rs`: scores by their bit patterns, the order they put records in, and the
  alignment of a reply's hits with its documents.
- `src/rerank.rs`: documents, model names, and the reranking of results with a loaded
  `fastembed` model.
- `src/remote.rs`: endpoint configuration, the requests for embeddings and scores, and
  what is made of the replies. An `EmbedJob` goes through a list of texts batch by batch.
- `src/json.rs`: request bodies, built and written with `serde_json`.
- `src/text.rs`: trimming, cutting and numbers in decimal.
- `app/`: the process environment, HTTP, reply parsing and model files.

A score that is no number is told apart from none: records are placed one after the other,
each ahead of the run of lower scores at the end of those already placed.
