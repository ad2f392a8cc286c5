//! OpenAI-compatible remote embedding and reranking endpoints: what is asked of them, and
//! what is made of their replies.
use vstd::prelude::*;
use crate::json::{insert_count, insert_text, insert_texts, new_object, write_object};
use crate::score::{align_scores, RerankHit, Score};
use crate::text::{decimal, parse_usize, same_text, take_chars, trim_end_char};

verus! {

/// Per-request HTTP timeout in seconds. Remote search is a slow path; failing fast keeps
/// a search responsive enough to fall back to local behaviour.
pub const REQUEST_TIMEOUT_SECS: u64 = 10;

/// How many texts one embeddings request carries at most.
pub const EMBED_BATCH: usize = 96;

/// How many characters of a refusal's payload its error keeps at most.
pub const SNIPPET_CHARS: usize = 300;

/// Endpoint configuration resolved from the environment.
#[derive(Debug, Clone, PartialEq, Eq)]
pub struct RemoteConfig {
    /// Base URL ending at `/v1` (e.g. `https://api.voyageai.com/v1`).
    pub endpoint: String,
    pub api_key: String,
    pub model: String,
    pub dimensions: Option<usize>,
    /// Send `input_type` (`query`/`document`): Voyage and Jina accept it,
    /// OpenAI-compatible servers that mirror only the core schema reject it.
    pub input_type: bool,
}

/// A configuration as plain values.
pub struct ConfigView {
    pub endpoint: Seq<char>,
    pub api_key: Seq<char>,
    pub model: Seq<char>,
    pub dimensions: Option<usize>,
    pub input_type: bool,
}

impl View for RemoteConfig {
    type V = ConfigView;

    open spec fn view(&self) -> ConfigView {
        ConfigView {
            endpoint: self.endpoint@,
            api_key: self.api_key@,
            model: self.model@,
            dimensions: self.dimensions,
            input_type: self.input_type,
        }
    }
}

/// The environment variables `MEMEX_EMBEDDINGS_ENDPOINT`, `_API_KEY`, `_MODEL`,
/// `_DIMENSIONS` and `_INPUT_TYPE`; `None` for one that is not set to Unicode text.
#[derive(Debug, Clone)]
pub struct RemoteEnv {
    pub endpoint: Option<String>,
    pub api_key: Option<String>,
    pub model: Option<String>,
    pub dimensions: Option<String>,
    pub input_type: Option<String>,
}

/// Which of the remote services is spoken to.
#[derive(Debug, Clone, Copy, PartialEq, Eq, Structural)]
pub enum Service {
    Embeddings,
    Rerank,
}

/// Why a remote endpoint cannot be used, or what is wrong with its reply.
#[derive(Debug, Clone)]
pub enum RemoteError {
    /// An endpoint is configured, and no model.
    MissingModel,
    /// The configured dimensions are no number.
    InvalidDimensions { complaint: String },
    /// Embeddings were asked for without configured dimensions.
    MissingDimensions,
    /// The service refused the request.
    Http { service: Service, status: String, snippet: String },
    /// The reply has another number of vectors than the request had texts.
    VectorCount { vectors: usize, inputs: usize },
    /// A vector of the reply has another length than the configured one.
    VectorDims { dims: usize, expected: usize },
    /// The reply scores a document that was not in the request.
    OutOfRange { index: usize },
}

/// An error as plain values.
pub enum ErrorView {
    MissingModel,
    InvalidDimensions { complaint: Seq<char> },
    MissingDimensions,
    Http { service: Service, status: Seq<char>, snippet: Seq<char> },
    VectorCount { vectors: usize, inputs: usize },
    VectorDims { dims: usize, expected: usize },
    OutOfRange { index: usize },
}

impl View for RemoteError {
    type V = ErrorView;

    open spec fn view(&self) -> ErrorView {
        match *self {
            RemoteError::MissingModel => ErrorView::MissingModel,
            RemoteError::InvalidDimensions { complaint } => ErrorView::InvalidDimensions {
                complaint: complaint@,
            },
            RemoteError::MissingDimensions => ErrorView::MissingDimensions,
            RemoteError::Http { service, status, snippet } => ErrorView::Http {
                service,
                status: status@,
                snippet: snippet@,
            },
            RemoteError::VectorCount { vectors, inputs } => ErrorView::VectorCount {
                vectors,
                inputs,
            },
            RemoteError::VectorDims { dims, expected } => ErrorView::VectorDims { dims, expected },
            RemoteError::OutOfRange { index } => ErrorView::OutOfRange { index },
        }
    }
}

/// What a service is called in messages.
pub open spec fn service_name(service: Service) -> Seq<char> {
    match service {
        Service::Embeddings => "remote embeddings"@,
        Service::Rerank => "remote rerank"@,
    }
}

/// The text that tells a user of `error`.
pub open spec fn message_text(error: ErrorView) -> Seq<char> {
    match error {
        ErrorView::MissingModel =>
            "MEMEX_EMBEDDINGS_ENDPOINT is set but MEMEX_EMBEDDINGS_MODEL is empty"@,
        ErrorView::InvalidDimensions { complaint } => complaint,
        ErrorView::MissingDimensions =>
            "remote embeddings require MEMEX_EMBEDDINGS_DIMENSIONS (the API does not report output size before the first call)"@,
        ErrorView::Http { service, status, snippet } => service_name(service) + " HTTP "@ + status
            + ": "@ + snippet,
        ErrorView::VectorCount { vectors, inputs } => "remote embeddings returned "@
            + crate::text::decimal_text(vectors as nat) + " vectors for "@
            + crate::text::decimal_text(inputs as nat) + " inputs"@,
        ErrorView::VectorDims { dims, expected } => "remote embeddings returned "@
            + crate::text::decimal_text(dims as nat) + " dims, expected "@
            + crate::text::decimal_text(expected as nat),
        ErrorView::OutOfRange { index } => "remote rerank returned out-of-range document index "@
            + crate::text::decimal_text(index as nat),
    }
}

impl RemoteError {
    /// The text that tells a user of the error.
    pub fn message(&self) -> (text: String)
        ensures
            text@ == message_text(self@),
    {
        match self {
            RemoteError::MissingModel =>
                "MEMEX_EMBEDDINGS_ENDPOINT is set but MEMEX_EMBEDDINGS_MODEL is empty".to_owned(),
            RemoteError::InvalidDimensions { complaint } => complaint.clone(),
            RemoteError::MissingDimensions =>
                "remote embeddings require MEMEX_EMBEDDINGS_DIMENSIONS (the API does not report output size before the first call)".to_owned(),
            RemoteError::Http { service, status, snippet } => {
                let mut text = match service {
                    Service::Embeddings => "remote embeddings".to_owned(),
                    Service::Rerank => "remote rerank".to_owned(),
                };
                text.append(" HTTP ");
                text.append(status);
                text.append(": ");
                text.append(snippet);
                text
            },
            RemoteError::VectorCount { vectors, inputs } => {
                let mut text = "remote embeddings returned ".to_owned();
                text.append(&decimal(*vectors));
                text.append(" vectors for ");
                text.append(&decimal(*inputs));
                text.append(" inputs");
                text
            },
            RemoteError::VectorDims { dims, expected } => {
                let mut text = "remote embeddings returned ".to_owned();
                text.append(&decimal(*dims));
                text.append(" dims, expected ");
                text.append(&decimal(*expected));
                text
            },
            RemoteError::OutOfRange { index } => {
                let mut text = "remote rerank returned out-of-range document index ".to_owned();
                text.append(&decimal(*index));
                text
            },
        }
    }
}

/// Whether a variable has text other than white space.
pub open spec fn is_filled(variable: Option<String>) -> bool {
    variable matches Some(text) && crate::text::trimmed(text@).len() > 0
}

/// The text of a variable; none for one that is not set.
pub open spec fn text_or_empty(variable: Option<String>) -> Seq<char> {
    match variable {
        Some(text) => text@,
        None => Seq::empty(),
    }
}

/// The base URL that the endpoint variable gives: trimmed, and without slashes at its end.
pub open spec fn endpoint_text(text: Seq<char>) -> Seq<char> {
    crate::text::without_trailing(crate::text::trimmed(text), |c: char| c == '/')
}

/// Whether the input type variable leaves the input type on: it does unless it is set to
/// nothing, `0`, `false` or `no`.
pub open spec fn input_type_on(variable: Option<String>) -> bool {
    match variable {
        Some(text) => {
            let flag = crate::text::trimmed(text@);
            flag != "0"@ && flag != "false"@ && flag != "no"@ && flag.len() > 0
        },
        None => true,
    }
}

/// What the environment configures: nothing without an endpoint; an error where the
/// model is missing or, with a model, where the dimensions are no number; else the
/// configuration.
pub open spec fn configured(env: RemoteEnv) -> Result<Option<ConfigView>, ErrorView> {
    if !is_filled(env.endpoint) {
        Ok(None)
    } else if !is_filled(env.model) {
        Err(ErrorView::MissingModel)
    } else {
        let dimensions_text = crate::text::trimmed(text_or_empty(env.dimensions));
        let config = ConfigView {
            endpoint: endpoint_text(text_or_empty(env.endpoint)),
            api_key: text_or_empty(env.api_key),
            model: text_or_empty(env.model),
            dimensions: None,
            input_type: input_type_on(env.input_type),
        };
        if !is_filled(env.dimensions) {
            Ok(Some(config))
        } else {
            match crate::text::usize_value(dimensions_text) {
                Some(n) => Ok(Some(ConfigView { dimensions: Some(n as usize), ..config })),
                None => Err(
                    ErrorView::InvalidDimensions {
                        complaint: crate::text::parse_usize_complaint(dimensions_text),
                    },
                ),
            }
        }
    }
}

/// The outcome of a resolution as plain values.
pub open spec fn resolution(r: Result<Option<RemoteConfig>, RemoteError>) -> Result<
    Option<ConfigView>,
    ErrorView,
> {
    match r {
        Ok(Some(config)) => Ok(Some(config@)),
        Ok(None) => Ok(None),
        Err(error) => Err(error@),
    }
}

/// The text of a variable, where it has any but white space.
fn filled(variable: &Option<String>) -> (r: Option<&str>)
    ensures
        r is Some <==> is_filled(*variable),
        r matches Some(text) ==> text@ == text_or_empty(*variable),
{
    match variable {
        Some(text) => if text.trim().is_empty() {
            None
        } else {
            Some(text.as_str())
        },
        None => None,
    }
}

fn owned_or_empty(variable: &Option<String>) -> (r: String)
    ensures
        r@ == text_or_empty(*variable),
{
    match variable {
        Some(text) => text.clone(),
        None => String::new(),
    }
}

impl RemoteConfig {
    /// Resolves the configuration from the environment. Returns `None` when no endpoint is
    /// configured so callers can fall back to local embedders.
    pub fn from_env(env: &RemoteEnv) -> (r: Result<Option<Self>, RemoteError>)
        ensures
            resolution(r) == configured(*env),
    {
        let endpoint = match filled(&env.endpoint) {
            Some(text) => trim_end_char(text.trim(), '/').to_owned(),
            None => return Ok(None),
        };
        let api_key = owned_or_empty(&env.api_key);
        let model = match filled(&env.model) {
            Some(text) => text.to_owned(),
            None => return Err(RemoteError::MissingModel),
        };
        let dimensions: Option<usize> = match filled(&env.dimensions) {
            Some(text) => match parse_usize(text.trim()) {
                Ok(n) => Some(n),
                Err(complaint) => return Err(RemoteError::InvalidDimensions { complaint }),
            },
            None => None,
        };
        let input_type = match &env.input_type {
            Some(text) => {
                let flag = text.trim();
                !same_text(flag, "0") && !same_text(flag, "false") && !same_text(flag, "no")
                    && !flag.is_empty()
            },
            None => true,
        };
        Ok(Some(RemoteConfig { endpoint, api_key, model, dimensions, input_type }))
    }
}

/// A JSON request to be posted.
#[derive(Debug, Clone)]
pub struct HttpRequest {
    pub url: String,
    /// The bearer token of the `Authorization` header; without one there is no such header.
    pub bearer: Option<String>,
    /// The JSON text of the body.
    pub body: String,
}

/// A request as plain values.
pub struct RequestView {
    pub url: Seq<char>,
    pub bearer: Option<Seq<char>>,
    pub body: Seq<char>,
}

impl View for HttpRequest {
    type V = RequestView;

    open spec fn view(&self) -> RequestView {
        RequestView {
            url: self.url@,
            bearer: match self.bearer {
                Some(token) => Some(token@),
                None => None,
            },
            body: self.body@,
        }
    }
}

/// The reply to a request.
#[derive(Debug, Clone)]
pub struct HttpReply {
    /// The status code.
    pub status: u16,
    /// The status code and its reason as text (e.g. `404 Not Found`).
    pub status_text: String,
    pub payload: String,
}

/// The request that posts `body` to `path` of the configured endpoint. The API key goes
/// with it where there is one.
pub open spec fn post_request(
    config: ConfigView,
    path: Seq<char>,
    body: Seq<char>,
) -> RequestView {
    RequestView {
        url: config.endpoint + path,
        bearer: if config.api_key.len() > 0 {
            Some(config.api_key)
        } else {
            None
        },
        body,
    }
}

/// Whether a status code is one of success.
pub open spec fn is_success(status: u16) -> bool {
    200 <= status < 300
}

impl RemoteConfig {
    /// Makes the request that posts `body` to `path`.
    pub fn post(&self, path: &str, body: String) -> (request: HttpRequest)
        ensures
            request@ == post_request(self@, path@, body@),
    {
        let mut url = self.endpoint.clone();
        url.append(path);
        let bearer = if self.api_key.as_str().is_empty() {
            None
        } else {
            Some(self.api_key.clone())
        };
        HttpRequest { url, bearer, body }
    }
}

/// Takes the payload out of a reply of success. Any other reply is an error that keeps
/// the status and the start of the payload.
pub fn read_reply(service: Service, reply: HttpReply) -> (r: Result<String, RemoteError>)
    ensures
        r is Ok <==> is_success(reply.status),
        r matches Ok(payload) ==> payload@ == reply.payload@,
        r matches Err(error) ==> error@ == (ErrorView::Http {
            service,
            status: reply.status_text@,
            snippet: crate::text::first_chars(reply.payload@, SNIPPET_CHARS as nat),
        }),
{
    if 200 <= reply.status && reply.status < 300 {
        Ok(reply.payload)
    } else {
        let snippet = take_chars(&reply.payload, SNIPPET_CHARS).to_owned();
        Err(RemoteError::Http { service, status: reply.status_text, snippet })
    }
}

/// The members of the body that asks for the embeddings of `batch`. The input type is
/// among them where one is given and the configuration has it sent.
pub open spec fn embed_members(
    config: ConfigView,
    batch: Seq<Seq<char>>,
    input_type: Option<Seq<char>>,
) -> Map<Seq<char>, crate::json::Member> {
    let core = crate::json::no_members()
        .insert("input"@, crate::json::Member::Texts(batch))
        .insert("model"@, crate::json::Member::Text(config.model));
    let typed = if config.input_type && input_type is Some {
        core.insert("input_type"@, crate::json::Member::Text(input_type->0))
    } else {
        core
    };
    match config.dimensions {
        Some(n) => typed.insert("output_dimension"@, crate::json::Member::Count(n as nat)),
        None => typed,
    }
}

/// The request for the embeddings of `batch`.
pub open spec fn embed_request(
    config: ConfigView,
    batch: Seq<Seq<char>>,
    input_type: Option<Seq<char>>,
) -> RequestView {
    post_request(
        config,
        "/embeddings"@,
        crate::json::object_text(embed_members(config, batch, input_type)),
    )
}

/// The text of an optional string slice.
pub open spec fn option_text(text: Option<&str>) -> Option<Seq<char>> {
    match text {
        Some(text) => Some(text@),
        None => None,
    }
}

/// Vectors as sequences.
pub open spec fn vectors_view<T>(vectors: Seq<Vec<T>>) -> Seq<Seq<T>> {
    vectors.map_values(|vector: Vec<T>| vector@)
}

/// Every vector has `dims` numbers.
pub open spec fn all_of_dims<T>(vectors: Seq<Seq<T>>, dims: nat) -> bool {
    forall|k: int| 0 <= k < vectors.len() ==> (#[trigger] vectors[k]).len() == dims
}

/// Vector `k` is the first that has not `dims` numbers.
pub open spec fn first_of_other_dims<T>(vectors: Seq<Seq<T>>, dims: nat, k: int) -> bool {
    &&& 0 <= k < vectors.len()
    &&& vectors[k].len() != dims
    &&& all_of_dims(vectors.take(k), dims)
}

/// What asks an OpenAI-compatible `/v1/embeddings` endpoint.
pub struct RemoteEmbedder {
    config: RemoteConfig,
    dims: usize,
}

impl RemoteEmbedder {
    #[verifier::type_invariant]
    spec fn asks_for_its_dims(self) -> bool {
        self.config.dimensions == Some(self.dims)
    }

    /// The configuration the embedder was made with.
    pub closed spec fn config(self) -> ConfigView {
        self.config@
    }

    /// How many numbers a vector has.
    pub closed spec fn dims_spec(self) -> usize {
        self.dims
    }

    /// Makes an embedder. The configuration has to give the dimensions.
    pub fn new(config: RemoteConfig) -> (r: Result<Self, RemoteError>)
        ensures
            r is Ok <==> config.dimensions is Some,
            r matches Ok(embedder) ==> embedder.config() == config@ && config.dimensions == Some(
                embedder.dims_spec(),
            ),
            r matches Err(error) ==> error@ == ErrorView::MissingDimensions,
    {
        match config.dimensions {
            Some(dims) => Ok(RemoteEmbedder { config, dims }),
            None => Err(RemoteError::MissingDimensions),
        }
    }

    /// How many numbers a vector has.
    pub fn dims(&self) -> (dims: usize)
        ensures
            dims == self.dims_spec(),
            self.config().dimensions == Some(dims),
    {
        proof {
            use_type_invariant(self);
        }
        self.dims
    }

    /// Makes the request for the embeddings of one batch. The input type goes with it only
    /// where the configuration has it sent.
    pub fn embed_batch(&self, batch: &[&str], input_type: Option<&str>) -> (request: HttpRequest)
        ensures
            request@ == embed_request(
                self.config(),
                crate::json::texts_view(batch@),
                option_text(input_type),
            ),
    {
        let mut body = new_object();
        insert_texts(&mut body, "input", batch);
        insert_text(&mut body, "model", &self.config.model);
        if self.config.input_type {
            if let Some(input_type) = input_type {
                insert_text(&mut body, "input_type", input_type);
            }
        }
        if let Some(dimensions) = self.config.dimensions {
            insert_count(&mut body, "output_dimension", dimensions);
        }
        self.config.post("/embeddings", write_object(body))
    }

    /// Checks the vectors of a reply: as many as the request had inputs, and each of the
    /// configured length.
    pub fn check_batch<T>(&self, inputs: usize, vectors: &Vec<Vec<T>>) -> (r: Result<
        (),
        RemoteError,
    >)
        ensures
            r is Ok <==> vectors@.len() == inputs && all_of_dims(
                vectors_view(vectors@),
                self.dims_spec() as nat,
            ),
            vectors@.len() != inputs ==> (r matches Err(error) && error@ == (
            ErrorView::VectorCount { vectors: vectors.len(), inputs })),
            vectors@.len() == inputs ==> (r matches Err(error) ==> exists|k: int| #[trigger]
                first_of_other_dims(vectors_view(vectors@), self.dims_spec() as nat, k) && error@
                    == (ErrorView::VectorDims {
                    dims: vectors[k].len(),
                    expected: self.dims_spec(),
                })),
    {
        if vectors.len() != inputs {
            return Err(RemoteError::VectorCount { vectors: vectors.len(), inputs });
        }
        let mut k: usize = 0;
        while k < vectors.len()
            invariant
                k <= vectors.len(),
                all_of_dims(vectors_view(vectors@).take(k as int), self.dims_spec() as nat),
                vectors@.len() == inputs,
            decreases vectors.len() - k,
        {
            let ghost seen = vectors_view(vectors@).take(k + 1);
            if vectors[k].len() != self.dims {
                assert(first_of_other_dims(
                    vectors_view(vectors@),
                    self.dims_spec() as nat,
                    k as int,
                ));
                return Err(
                    RemoteError::VectorDims { dims: vectors[k].len(), expected: self.dims },
                );
            }
            assert forall|j: int| 0 <= j < seen.len() implies (#[trigger] seen[j]).len()
                == self.dims_spec() by {
                if j < k {
                    assert(vectors_view(vectors@).take(k as int)[j] == seen[j]);
                }
            }
            k = k + 1;
        }
        assert(vectors_view(vectors@).take(k as int) == vectors_view(vectors@));
        Ok(())
    }
}

/// Where the batch ends that starts at text `done` of `n`.
pub open spec fn batch_end(done: int, n: int) -> int {
    if n - done <= EMBED_BATCH {
        n
    } else {
        done + EMBED_BATCH
    }
}

/// The batch of `texts` that starts at text `done`.
pub open spec fn batch_at(texts: Seq<Seq<char>>, done: int) -> Seq<Seq<char>> {
    texts.subrange(done, batch_end(done, texts.len() as int))
}

/// How many batches `n` texts make.
pub open spec fn batch_count(n: nat) -> nat {
    ((n + EMBED_BATCH - 1) / EMBED_BATCH as int) as nat
}

/// The batches of `texts`, in the order in which they are asked for.
pub open spec fn batches(texts: Seq<Seq<char>>) -> Seq<Seq<Seq<char>>> {
    Seq::new(batch_count(texts.len()), |k: int| batch_at(texts, k * EMBED_BATCH))
}

/// The embedding of a list of texts, batch by batch: it says what to ask for next, and
/// takes in the vectors of each reply. `T` is the type of a vector's numbers.
pub struct EmbedJob<'a, T> {
    embedder: &'a RemoteEmbedder,
    texts: &'a [&'a str],
    input_type: Option<&'a str>,
    vectors: Vec<Vec<T>>,
}

impl<'a, T> EmbedJob<'a, T> {
    #[verifier::type_invariant]
    spec fn in_step(self) -> bool {
        &&& self.vectors@.len() <= self.texts@.len()
        &&& self.vectors@.len() == self.texts@.len() || self.vectors@.len() % EMBED_BATCH as nat
            == 0
        &&& all_of_dims(vectors_view(self.vectors@), self.embedder.dims_spec() as nat)
    }

    /// The configuration the embedder was made with.
    pub closed spec fn config(self) -> ConfigView {
        self.embedder.config()
    }

    /// How many numbers a vector has.
    pub closed spec fn dims(self) -> usize {
        self.embedder.dims_spec()
    }

    /// The texts to embed.
    pub closed spec fn texts(self) -> Seq<Seq<char>> {
        crate::json::texts_view(self.texts@)
    }

    /// The input type of the texts, if any.
    pub closed spec fn input_type(self) -> Option<Seq<char>> {
        option_text(self.input_type)
    }

    /// The vectors taken in so far.
    pub closed spec fn vectors(self) -> Seq<Seq<T>> {
        vectors_view(self.vectors@)
    }

    /// The texts that the next request is for.
    pub open spec fn next_batch(self) -> Seq<Seq<char>> {
        batch_at(self.texts(), self.vectors().len() as int)
    }

    /// What stays as it is while vectors are taken in.
    pub open spec fn same_task(self, other: Self) -> bool {
        &&& self.config() == other.config()
        &&& self.dims() == other.dims()
        &&& self.texts() == other.texts()
        &&& self.input_type() == other.input_type()
    }

    /// Where the next batch ends.
    fn next_end(&self) -> (end: usize)
        ensures
            self.vectors().len() <= end <= self.texts().len(),
            end == batch_end(self.vectors().len() as int, self.texts().len() as int),
    {
        proof {
            use_type_invariant(self);
        }
        if self.texts.len() - self.vectors.len() <= EMBED_BATCH {
            self.texts.len()
        } else {
            self.vectors.len() + EMBED_BATCH
        }
    }

    /// The request for the next batch, or `None` once every text has its vector.
    pub fn next_request(&self) -> (r: Option<HttpRequest>)
        ensures
            r is None <==> self.vectors().len() == self.texts().len(),
            r matches Some(request) ==> {
                &&& self.vectors().len() < self.texts().len()
                &&& self.vectors().len() % EMBED_BATCH as nat == 0
                &&& request@ == embed_request(
                    self.config(),
                    self.next_batch(),
                    self.input_type(),
                )
            },
    {
        proof {
            use_type_invariant(self);
        }
        if self.vectors.len() == self.texts.len() {
            return None;
        }
        let end = self.next_end();
        let batch = vstd::slice::slice_subrange(self.texts, self.vectors.len(), end);
        assert(crate::json::texts_view(batch@) == self.next_batch());
        Some(self.embedder.embed_batch(batch, self.input_type))
    }

    /// Takes in the vectors of the reply to the next request. A reply with another number
    /// of vectors, or with one of another length, is refused and leaves the job as it was.
    pub fn accept(&mut self, vectors: Vec<Vec<T>>) -> (r: Result<(), RemoteError>)
        ensures
            final(self).same_task(*old(self)),
            final(self).config() == old(self).config(),
            final(self).dims() == old(self).dims(),
            final(self).texts() == old(self).texts(),
            final(self).input_type() == old(self).input_type(),
            r is Ok <==> vectors@.len() == old(self).next_batch().len() && all_of_dims(
                vectors_view(vectors@),
                old(self).dims() as nat,
            ),
            r is Ok ==> final(self).vectors() == old(self).vectors() + vectors_view(vectors@),
            r is Err ==> final(self).vectors() == old(self).vectors(),
            vectors@.len() != old(self).next_batch().len() ==> (r matches Err(error) && error@ == (
            ErrorView::VectorCount {
                vectors: vectors.len(),
                inputs: old(self).next_batch().len() as usize,
            })),
            vectors@.len() == old(self).next_batch().len() ==> (r matches Err(error)
                ==> exists|k: int| #[trigger]
                first_of_other_dims(vectors_view(vectors@), old(self).dims() as nat, k) && error@
                    == (ErrorView::VectorDims {
                    dims: vectors[k].len(),
                    expected: old(self).dims(),
                })),
    {
        proof {
            use_type_invariant(&*self);
        }
        let inputs: usize = self.next_end() - self.vectors.len();
        assert(self.next_batch().len() == inputs);
        let ghost before = self.vectors@;
        match self.embedder.check_batch(inputs, &vectors) {
            Err(error) => {
                proof {
                    if vectors@.len() == inputs {
                        let dims = self.embedder.dims_spec();
                        let k = choose|k: int| #[trigger]
                            first_of_other_dims(vectors_view(vectors@), dims as nat, k) && error@
                                == (ErrorView::VectorDims {
                                dims: vectors[k].len(),
                                expected: dims,
                            });
                        assert(first_of_other_dims(
                            vectors_view(vectors@),
                            self.dims() as nat,
                            k,
                        ));
                    }
                }
                Err(error)
            },
            Ok(()) => {
                let mut taken: Vec<Vec<T>> = Vec::new();
                std::mem::swap(&mut taken, &mut self.vectors);
                let mut added = vectors;
                taken.append(&mut added);
                assert(vectors_view(taken@) == vectors_view(before) + vectors_view(vectors@));
                assert(all_of_dims(vectors_view(taken@), self.embedder.dims_spec() as nat)) by {
                    assert forall|k: int| 0 <= k < taken@.len() implies (#[trigger] vectors_view(
                        taken@,
                    )[k]).len() == self.embedder.dims_spec() by {
                        if k < before.len() {
                            assert(vectors_view(taken@)[k] == vectors_view(before)[k]);
                        } else {
                            assert(vectors_view(taken@)[k] == vectors_view(vectors@)[k
                                - before.len()]);
                        }
                    }
                }
                self.vectors = taken;
                Ok(())
            },
        }
    }

    /// The vectors taken in, in the order of their texts.
    pub fn into_vectors(self) -> (vectors: Vec<Vec<T>>)
        ensures
            vectors_view(vectors@) == self.vectors(),
            vectors@.len() <= self.texts().len(),
            all_of_dims(vectors_view(vectors@), self.dims() as nat),
    {
        proof {
            use_type_invariant(&self);
        }
        self.vectors
    }
}

impl RemoteEmbedder {
    /// Starts the embedding of `texts`, with their input type if any.
    pub fn embed<'a, T>(
        &'a self,
        texts: &'a [&'a str],
        input_type: Option<&'a str>,
    ) -> (job: EmbedJob<'a, T>)
        ensures
            job.config() == self.config(),
            job.dims() == self.dims_spec(),
            job.texts() == crate::json::texts_view(texts@),
            job.input_type() == option_text(input_type),
            job.vectors() == Seq::<Seq<T>>::empty(),
    {
        EmbedJob { embedder: self, texts, input_type, vectors: Vec::new() }
    }
}

/// The remote rerank model to use: the one asked for, where that is more than white
/// space; else the one the environment names; else the default one.
pub open spec fn rerank_model(
    asked: Option<Seq<char>>,
    environment: Option<Seq<char>>,
) -> Seq<char> {
    if asked is Some && crate::text::trimmed(asked->0).len() > 0 {
        crate::text::trimmed(asked->0)
    } else {
        match environment {
            Some(text) => text,
            None => "rerank-3-lite"@,
        }
    }
}

/// The members of the body that asks for the scores of `documents`.
pub open spec fn rerank_members(
    model: Seq<char>,
    query: Seq<char>,
    documents: Seq<Seq<char>>,
) -> Map<Seq<char>, crate::json::Member> {
    crate::json::no_members()
        .insert("query"@, crate::json::Member::Text(query))
        .insert("documents"@, crate::json::Member::Texts(documents))
        .insert("model"@, crate::json::Member::Text(model))
}

/// The request for the scores of `documents`.
pub open spec fn rerank_request(
    config: ConfigView,
    model: Seq<char>,
    query: Seq<char>,
    documents: Seq<Seq<char>>,
) -> RequestView {
    post_request(
        config,
        "/rerank"@,
        crate::json::object_text(rerank_members(model, query, documents)),
    )
}

/// What asks a Voyage/Jina-style `/v1/rerank` endpoint.
pub struct RemoteReranker {
    config: RemoteConfig,
    model: String,
}

impl RemoteReranker {
    /// The configuration the reranker was made with.
    pub closed spec fn config(self) -> ConfigView {
        self.config@
    }

    /// The resolved remote rerank model name.
    pub closed spec fn model_spec(self) -> Seq<char> {
        self.model@
    }

    /// Makes a reranker. Remote rerank models are endpoint-specific (voyage: rerank-3*,
    /// jina: jina-reranker-v3), so the model comes from `model` or from `environment`, the
    /// value of `MEMEX_RERANKER_MODEL` where that is set, never from the embedding model.
    pub fn new(config: RemoteConfig, model: Option<&str>, environment: Option<String>) -> (reranker:
        Self)
        ensures
            reranker.config() == config@,
            reranker.model_spec() == rerank_model(
                option_text(model),
                match environment {
                    Some(text) => Some(text@),
                    None => None,
                },
            ),
    {
        let fallback = match environment {
            Some(text) => text,
            None => "rerank-3-lite".to_owned(),
        };
        let model = match model {
            Some(text) => {
                let name = text.trim();
                if name.is_empty() {
                    fallback
                } else {
                    name.to_owned()
                }
            },
            None => fallback,
        };
        RemoteReranker { config, model }
    }

    /// The resolved remote rerank model name.
    pub fn model(&self) -> (model: &str)
        ensures
            model@ == self.model_spec(),
    {
        self.model.as_str()
    }

    /// Makes the request for the scores of `documents` against `query`.
    pub fn rerank(&self, query: &str, documents: &[&str]) -> (request: HttpRequest)
        ensures
            request@ == rerank_request(
                self.config(),
                self.model_spec(),
                query@,
                crate::json::texts_view(documents@),
            ),
    {
        let mut body = new_object();
        insert_text(&mut body, "query", query);
        insert_texts(&mut body, "documents", documents);
        insert_text(&mut body, "model", &self.model);
        self.config.post("/rerank", write_object(body))
    }

    /// The scores of a reply, aligned with the documents of its request. A document
    /// without a hit scores zero; a hit for no document is an error.
    pub fn scores(&self, documents: usize, hits: &Vec<RerankHit>) -> (r: Result<
        Vec<Score>,
        RemoteError,
    >)
        ensures
            r is Ok <==> crate::score::all_in_range(hits@, documents as nat),
            r matches Ok(scores) ==> scores@ == crate::score::aligned(hits@, documents as nat),
            r matches Err(error) ==> exists|k: int| #[trigger]
                crate::score::first_out_of_range(hits@, documents as nat, k) && error@ == (
                ErrorView::OutOfRange { index: hits@[k].index }),
    {
        match align_scores(hits, documents) {
            Ok(scores) => Ok(scores),
            Err(index) => Err(RemoteError::OutOfRange { index }),
        }
    }
}

proof fn lemma_without_trailing(s: Seq<char>, drops: spec_fn(char) -> bool)
    ensures
        crate::text::without_trailing(s, drops).len() > 0 ==> !drops(
            crate::text::without_trailing(s, drops).last(),
        ),
    decreases s.len(),
{
    if s.len() > 0 && drops(s.last()) {
        lemma_without_trailing(s.drop_last(), drops);
    }
}

/// A configuration comes with a model, and its endpoint does not end in a slash, so that
/// a path that starts with one can follow it.
pub proof fn law_configuration_is_complete(env: RemoteEnv)
    ensures
        configured(env) matches Ok(Some(config)) ==> {
            &&& crate::text::trimmed(config.model).len() > 0
            &&& config.endpoint.len() > 0 ==> config.endpoint.last() != '/'
        },
{
    let endpoint = crate::text::trimmed(text_or_empty(env.endpoint));
    lemma_without_trailing(endpoint, |c: char| c == '/');
}

/// Without an endpoint there is no configuration and no error, whatever else is set; with
/// one there is a configuration or an error.
pub proof fn law_endpoint_decides(env: RemoteEnv)
    ensures
        configured(env) == Ok::<Option<ConfigView>, ErrorView>(None) <==> !is_filled(env.endpoint),
{
}

/// The error of a refusal keeps a start of its payload that is within the limit.
pub proof fn law_snippet_is_short(payload: Seq<char>)
    ensures
        ({
            let snippet = crate::text::first_chars(payload, SNIPPET_CHARS as nat);
            &&& snippet.len() <= SNIPPET_CHARS
            &&& snippet.is_prefix_of(payload)
            &&& payload.len() <= SNIPPET_CHARS ==> snippet == payload
        }),
{
    let snippet = crate::text::first_chars(payload, SNIPPET_CHARS as nat);
    assert(payload.take(snippet.len() as int) =~= snippet);
}

/// An embeddings body has the batch and the model; beside them it has the input type
/// exactly where one is given and the configuration has it sent, the dimensions exactly
/// where they are configured, and nothing else.
pub proof fn law_embed_members(
    config: ConfigView,
    batch: Seq<Seq<char>>,
    input_type: Option<Seq<char>>,
)
    ensures
        ({
            let members = embed_members(config, batch, input_type);
            &&& members.contains_pair("input"@, crate::json::Member::Texts(batch))
            &&& members.contains_pair("model"@, crate::json::Member::Text(config.model))
            &&& if config.input_type && input_type is Some {
                members.contains_pair("input_type"@, crate::json::Member::Text(input_type->0))
            } else {
                !members.contains_key("input_type"@)
            }
            &&& match config.dimensions {
                Some(n) => members.contains_pair(
                    "output_dimension"@,
                    crate::json::Member::Count(n as nat),
                ),
                None => !members.contains_key("output_dimension"@),
            }
            &&& forall|name: Seq<char>| #[trigger]
                members.contains_key(name) ==> name == "input"@ || name == "model"@ || name
                    == "input_type"@ || name == "output_dimension"@
        }),
{
    reveal_strlit("input");
    reveal_strlit("model");
    reveal_strlit("input_type");
    reveal_strlit("output_dimension");
    assert("input"@[0] != "model"@[0]);
    assert("input"@.len() != "input_type"@.len());
    assert("input"@.len() != "output_dimension"@.len());
    assert("model"@.len() != "input_type"@.len());
    assert("model"@.len() != "output_dimension"@.len());
    assert("input_type"@.len() != "output_dimension"@.len());
}

/// A rerank body has the query, the documents and the model, and nothing else.
pub proof fn law_rerank_members(
    model: Seq<char>,
    query: Seq<char>,
    documents: Seq<Seq<char>>,
)
    ensures
        ({
            let members = rerank_members(model, query, documents);
            &&& members.contains_pair("query"@, crate::json::Member::Text(query))
            &&& members.contains_pair("documents"@, crate::json::Member::Texts(documents))
            &&& members.contains_pair("model"@, crate::json::Member::Text(model))
            &&& forall|name: Seq<char>| #[trigger]
                members.contains_key(name) ==> name == "query"@ || name == "documents"@ || name
                    == "model"@
        }),
{
    reveal_strlit("query");
    reveal_strlit("documents");
    reveal_strlit("model");
    assert("query"@[0] != "model"@[0]);
    assert("query"@.len() != "documents"@.len());
    assert("model"@.len() != "documents"@.len());
}

proof fn lemma_batch_count(n: nat, k: int)
    ensures
        0 <= k < batch_count(n) <==> 0 <= k && k * EMBED_BATCH < n,
        batch_count(n) * EMBED_BATCH >= n,
{
}

/// A batch has at least one text, and no more than a request carries. All but the last
/// are full.
pub proof fn law_batch_sizes(texts: Seq<Seq<char>>, k: int)
    requires
        0 <= k < batches(texts).len(),
    ensures
        1 <= batches(texts)[k].len() <= EMBED_BATCH,
        k < batches(texts).len() - 1 ==> batches(texts)[k].len() == EMBED_BATCH,
{
    lemma_batch_count(texts.len(), k);
    lemma_batch_count(texts.len(), k + 1);
}

proof fn lemma_batches_prefix(texts: Seq<Seq<char>>, k: nat)
    requires
        k <= batches(texts).len(),
    ensures
        batches(texts).take(k as int).flatten_alt() == texts.take(
            if k * EMBED_BATCH <= texts.len() {
                k * EMBED_BATCH
            } else {
                texts.len() as int
            },
        ),
    decreases k,
{
    let prefix = batches(texts).take(k as int);
    if k == 0 {
        assert(prefix.flatten_alt() =~= texts.take(0));
    } else {
        lemma_batches_prefix(texts, (k - 1) as nat);
        lemma_batch_count(texts.len(), k - 1);
        assert(prefix.drop_last() =~= batches(texts).take(k - 1));
        assert(prefix.last() == batch_at(texts, (k - 1) * EMBED_BATCH));
        let end = if k * EMBED_BATCH <= texts.len() {
            k * EMBED_BATCH
        } else {
            texts.len() as int
        };
        assert(texts.take(end) =~= texts.take((k - 1) * EMBED_BATCH) + prefix.last());
    }
}

/// The batches one after the other are the texts: none is left out, none comes twice, and
/// their order is kept.
pub proof fn law_batches_cover_the_texts(texts: Seq<Seq<char>>)
    ensures
        batches(texts).flatten() == texts,
{
    let all = batches(texts);
    lemma_batches_prefix(texts, all.len());
    lemma_batch_count(texts.len(), 0);
    assert(all.take(all.len() as int) =~= all);
    all.lemma_flatten_and_flatten_alt_are_equivalent();
    assert(texts.take(texts.len() as int) =~= texts);
}

/// A job that has taken in whole batches asks for the next of the batches.
pub proof fn law_requests_follow_the_batches(texts: Seq<Seq<char>>, done: nat)
    requires
        done < texts.len(),
        done % EMBED_BATCH as nat == 0,
    ensures
        (done / EMBED_BATCH as nat) < batches(texts).len(),
        batch_at(texts, done as int) == batches(texts)[(done / EMBED_BATCH as nat) as int],
{
    lemma_batch_count(texts.len(), (done / EMBED_BATCH as nat) as int);
}

proof fn lemma_place_in_pieces<A>(pieces: Seq<Seq<A>>)
    requires
        forall|b: int| 0 <= b < pieces.len() - 1 ==> (#[trigger] pieces[b]).len() == EMBED_BATCH,
        pieces.len() > 0 ==> pieces.last().len() <= EMBED_BATCH,
    ensures
        pieces.flatten().len() == (if pieces.len() == 0 {
            0
        } else {
            (pieces.len() - 1) * EMBED_BATCH + pieces.last().len()
        }),
        forall|i: int|
            0 <= i < pieces.flatten().len() ==> {
                &&& (i / EMBED_BATCH as int) < pieces.len()
                &&& (i % EMBED_BATCH as int) < pieces[i / EMBED_BATCH as int].len()
                &&& #[trigger] pieces.flatten()[i] == pieces[i / EMBED_BATCH as int][i
                    % EMBED_BATCH as int]
            },
    decreases pieces.len(),
{
    pieces.lemma_flatten_and_flatten_alt_are_equivalent();
    if pieces.len() > 0 {
        let earlier = pieces.drop_last();
        earlier.lemma_flatten_and_flatten_alt_are_equivalent();
        if earlier.len() > 0 {
            assert(earlier.last() == pieces[pieces.len() - 2]);
        }
        lemma_place_in_pieces(earlier);
        assert(pieces.flatten() == earlier.flatten() + pieces.last());
        assert(earlier.flatten().len() == earlier.len() * EMBED_BATCH);
        assert forall|i: int| 0 <= i < pieces.flatten().len() implies {
            &&& (i / EMBED_BATCH as int) < pieces.len()
            &&& (i % EMBED_BATCH as int) < pieces[i / EMBED_BATCH as int].len()
            &&& #[trigger] pieces.flatten()[i] == pieces[i / EMBED_BATCH as int][i
                % EMBED_BATCH as int]
        } by {
            if i < earlier.flatten().len() {
                assert(pieces.flatten()[i] == earlier.flatten()[i]);
                assert(earlier[i / EMBED_BATCH as int] == pieces[i / EMBED_BATCH as int]);
            } else {
                assert(pieces.flatten()[i] == pieces.last()[i - earlier.flatten().len()]);
            }
        }
    }
}

/// Vectors stay with their texts: where each reply so far has a vector for each text of its
/// batch, vector `i` of all that were taken in is the one at the place in its reply that
/// text `i` has in its batch.
pub proof fn law_vectors_align_with_texts<T>(texts: Seq<Seq<char>>, replies: Seq<Seq<Seq<T>>>)
    requires
        replies.len() <= batches(texts).len(),
        forall|b: int|
            0 <= b < replies.len() ==> (#[trigger] replies[b]).len() == batches(texts)[b].len(),
    ensures
        replies.flatten().len() <= texts.len(),
        forall|i: int|
            0 <= i < replies.flatten().len() ==> {
                &&& (i / EMBED_BATCH as int) < replies.len()
                &&& (i % EMBED_BATCH as int) < replies[i / EMBED_BATCH as int].len()
                &&& #[trigger] replies.flatten()[i] == replies[i / EMBED_BATCH as int][i
                    % EMBED_BATCH as int]
                &&& texts[i] == batches(texts)[i / EMBED_BATCH as int][i % EMBED_BATCH as int]
            },
{
    let all = batches(texts);
    assert forall|b: int| 0 <= b < all.len() implies 1 <= (#[trigger] all[b]).len() <= EMBED_BATCH
        && (b < all.len() - 1 ==> all[b].len() == EMBED_BATCH) by {
        law_batch_sizes(texts, b);
    }
    lemma_place_in_pieces(all);
    lemma_place_in_pieces(replies);
    law_batches_cover_the_texts(texts);
    if replies.len() > 0 {
        assert(replies.last().len() == all[replies.len() - 1].len());
    }
    assert forall|i: int| 0 <= i < replies.flatten().len() implies {
        &&& (i / EMBED_BATCH as int) < replies.len()
        &&& (i % EMBED_BATCH as int) < replies[i / EMBED_BATCH as int].len()
        &&& #[trigger] replies.flatten()[i] == replies[i / EMBED_BATCH as int][i
            % EMBED_BATCH as int]
        &&& texts[i] == all[i / EMBED_BATCH as int][i % EMBED_BATCH as int]
    } by {
        assert(texts[i] == all.flatten()[i]);
    }
}

/// A job that has taken in a reply to every batch has one vector for each text.
pub proof fn law_every_text_gets_its_vector<T>(texts: Seq<Seq<char>>, replies: Seq<Seq<Seq<T>>>)
    requires
        replies.len() == batches(texts).len(),
        forall|b: int|
            0 <= b < replies.len() ==> (#[trigger] replies[b]).len() == batches(texts)[b].len(),
    ensures
        replies.flatten().len() == texts.len(),
{
    let all = batches(texts);
    assert forall|b: int| 0 <= b < all.len() implies 1 <= (#[trigger] all[b]).len() <= EMBED_BATCH
        && (b < all.len() - 1 ==> all[b].len() == EMBED_BATCH) by {
        law_batch_sizes(texts, b);
    }
    lemma_place_in_pieces(all);
    lemma_place_in_pieces(replies);
    law_batches_cover_the_texts(texts);
    if replies.len() > 0 {
        assert(replies.last().len() == all[replies.len() - 1].len());
    }
}

} // verus!
