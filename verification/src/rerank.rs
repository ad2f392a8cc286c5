//! Cross-encoder reranking of conversation search results.
use vstd::prelude::*;
use crate::score::{align_scores, order_by_score, RerankHit, Score};
use crate::text::{decimal, same_text, take_chars};

verus! {

/// How many fused records rerank by default when no limit is given.
pub const DEFAULT_RERANK_LIMIT: usize = 50;

/// How many fused records rerank at most.
pub const MAX_RERANK_LIMIT: usize = 200;

/// Per-field character budget for tool payloads inside a rerank document.
pub const TOOL_FIELD_BUDGET: usize = 2_000;

/// Cross-encoder model names that are accepted.
pub const RERANK_MODEL_CHOICES: [&'static str; 4] = ["bge", "bge-m3", "jina", "jina-multilingual"];

/// How a search reranks.
#[derive(Debug, Clone)]
pub struct RerankOptions {
    pub limit: usize,
    pub model: Option<String>,
}

/// What a search looks through.
#[derive(Debug, Clone, Copy, PartialEq, Eq, Structural)]
pub enum SearchContent {
    Conversations,
    Memories,
}

/// A cross-encoder model.
#[derive(Debug, Clone, Copy, PartialEq, Eq, Structural)]
pub enum RerankerModel {
    /// BAAI/bge-reranker-base
    BGERerankerBase,
    /// rozgo/bge-reranker-v2-m3
    BGERerankerV2M3,
    /// jinaai/jina-reranker-v1-turbo-en
    JINARerankerV1TurboEn,
    /// jinaai/jina-reranker-v2-base-multilingual
    JINARerankerV2BaseMultiligual,
}

/// A record of a conversation, as far as reranking reads it.
#[derive(Debug, Clone)]
pub struct Record {
    /// What tells the record from others.
    pub doc_id: u64,
    pub text: String,
    pub tool_input: Option<String>,
    pub tool_output: Option<String>,
}

/// A record that a search found, with its score.
#[derive(Debug, Clone)]
pub struct LocatedRecord {
    pub record: Record,
    pub score: Score,
}

/// `slice::swap` exchanges two elements; it panics where a position is out of bounds.
pub assume_specification<Elem>[ <[Elem]>::swap ](slice: &mut [Elem], a: usize, b: usize)
    requires
        a < old(slice)@.len(),
        b < old(slice)@.len(),
    ensures
        final(slice)@ == old(slice)@.update(a as int, old(slice)@[b as int]).update(
            b as int,
            old(slice)@[a as int],
        ),
;

/// The items in the order that `order` lists their positions in.
pub open spec fn rearranged<T>(items: Seq<T>, order: Seq<usize>) -> Seq<T> {
    Seq::new(order.len(), |p: int| items[order[p] as int])
}

fn rearrange<T>(items: &mut [T], order: &Vec<usize>)
    requires
        crate::score::is_order_of(order@, old(items)@.len()),
    ensures
        final(items)@ == rearranged(old(items)@, order@),
{
    let n: usize = items.len();
    // `sits_at[i]` is the position that item `i` has moved to, `came_from[p]` the item
    // that is at position `p`.
    let mut sits_at: Vec<usize> = Vec::new();
    let mut came_from: Vec<usize> = Vec::new();
    let mut i: usize = 0;
    while i < n
        invariant
            i <= n,
            sits_at@.len() == i,
            came_from@.len() == i,
            forall|j: int| 0 <= j < i ==> #[trigger] sits_at@[j] == j,
            forall|j: int| 0 <= j < i ==> #[trigger] came_from@[j] == j,
        decreases n - i,
    {
        sits_at.push(i);
        came_from.push(i);
        i = i + 1;
    }
    let ghost before = items@;
    let mut p: usize = 0;
    while p < n
        invariant
            p <= n,
            n == before.len(),
            items@.len() == n,
            sits_at@.len() == n,
            came_from@.len() == n,
            crate::score::is_order_of(order@, n as nat),
            forall|j: int| 0 <= j < n ==> (#[trigger] came_from@[j]) < n,
            forall|j: int| 0 <= j < n ==> (#[trigger] sits_at@[j]) < n,
            forall|j: int| 0 <= j < n ==> sits_at@[#[trigger] came_from@[j] as int] == j,
            forall|j: int| 0 <= j < n ==> came_from@[#[trigger] sits_at@[j] as int] == j,
            forall|j: int| 0 <= j < n ==> #[trigger] items@[j] == before[came_from@[j] as int],
            forall|j: int| 0 <= j < p ==> #[trigger] came_from@[j] == order@[j],
        decreases n - p,
    {
        let wanted = order[p];
        let q = sits_at[wanted];
        let displaced = came_from[p];
        proof {
            if q < p {
                assert(came_from@[q as int] == order@[q as int]);
            }
        }
        items.swap(p, q);
        came_from.set(p, wanted);
        came_from.set(q, displaced);
        sits_at.set(displaced, q);
        sits_at.set(wanted, p);
        p = p + 1;
    }
    assert(items@ == rearranged(before, order@));
}

/// Why a search cannot be reranked.
#[derive(Debug)]
pub enum RerankError {
    /// What is searched has no reranking.
    NotConversations,
    /// No model has that name.
    UnknownModel { name: String },
    /// The model scored a document that it was not given.
    OutOfRange { index: usize },
    /// The model failed.
    Scoring { error: anyhow::Error },
}

/// `anyhow::Error`: what a model reports when it fails.
#[verifier::external_type_specification]
#[verifier::external_body]
pub struct ExError(anyhow::Error);

/// `texts` in a row, each set off from the next by `separator`.
pub open spec fn joined(texts: Seq<&str>, separator: Seq<char>) -> Seq<char>
    decreases texts.len(),
{
    if texts.len() == 0 {
        Seq::empty()
    } else if texts.len() == 1 {
        texts[0]@
    } else {
        joined(texts.drop_last(), separator) + separator + texts.last()@
    }
}

fn join(texts: &[&str], separator: &str) -> (r: String)
    ensures
        r@ == joined(texts@, separator@),
{
    let mut text = String::new();
    let mut i: usize = 0;
    while i < texts.len()
        invariant
            i <= texts.len(),
            text@ == joined(texts@.take(i as int), separator@),
        decreases texts.len() - i,
    {
        let ghost seen = texts@.take(i + 1);
        assert(seen.drop_last() == texts@.take(i as int));
        if i > 0 {
            text.append(separator);
        }
        text.append(texts[i]);
        i = i + 1;
    }
    assert(texts@.take(i as int) == texts@);
    text
}

impl RerankError {
    /// `text` tells a user of the error.
    pub open spec fn is_message(self, text: String) -> bool {
        match self {
            RerankError::NotConversations => text@
                == "reranking applies to conversation search only"@,
            RerankError::UnknownModel { name } => text@ == "unknown rerank model '"@ + name@
                + "', options: "@ + joined(RERANK_MODEL_CHOICES@, ", "@),
            RerankError::OutOfRange { index } => text@
                == "reranker returned out-of-range document index "@ + crate::text::decimal_text(
                index as nat,
            ),
            RerankError::Scoring { error } => vstd::string::to_string_from_display_ensures(
                &error,
                text,
            ),
        }
    }

    /// The text that tells a user of the error; of a model's failure, what the model says.
    pub fn message(&self) -> (text: String)
        ensures
            self.is_message(text),
    {
        match self {
            RerankError::NotConversations =>
                "reranking applies to conversation search only".to_owned(),
            RerankError::UnknownModel { name } => {
                let mut text = "unknown rerank model '".to_owned();
                text.append(name);
                text.append("', options: ");
                let choices = RERANK_MODEL_CHOICES;
                text.append(&join(&choices, ", "));
                text
            },
            RerankError::OutOfRange { index } => {
                let mut text = "reranker returned out-of-range document index ".to_owned();
                text.append(&decimal(*index));
                text
            },
            RerankError::Scoring { error } => error.to_string(),
        }
    }
}

/// Reranking only affects conversations; a search of memories skips it.
pub fn validate_rerank_content(rerank: bool, content: SearchContent) -> (r: Result<
    (),
    RerankError,
>)
    ensures
        r is Ok <==> !rerank || content == SearchContent::Conversations,
        r matches Err(error) ==> error is NotConversations,
{
    if rerank && content != SearchContent::Conversations {
        return Err(RerankError::NotConversations);
    }
    Ok(())
}

/// The model that `name` is for, in any mix of cases; no name is for the default model.
pub open spec fn model_named(name: Seq<char>) -> Option<RerankerModel> {
    let lower = crate::text::lowercased(name);
    if lower == "bge"@ || lower.len() == 0 {
        Some(RerankerModel::BGERerankerBase)
    } else if lower == "bge-m3"@ {
        Some(RerankerModel::BGERerankerV2M3)
    } else if lower == "jina"@ {
        Some(RerankerModel::JINARerankerV1TurboEn)
    } else if lower == "jina-multilingual"@ {
        Some(RerankerModel::JINARerankerV2BaseMultiligual)
    } else {
        None
    }
}

/// Reads the name of a model.
pub fn parse_rerank_model(value: &str) -> (r: Result<RerankerModel, RerankError>)
    ensures
        r is Ok <==> model_named(value@) is Some,
        r matches Ok(model) ==> model_named(value@) == Some(model),
        r matches Err(error) ==> (error matches RerankError::UnknownModel { name } && name@
            == crate::text::lowercased(value@)),
{
    let name = value.to_ascii_lowercase();
    if same_text(&name, "bge") || name.as_str().is_empty() {
        Ok(RerankerModel::BGERerankerBase)
    } else if same_text(&name, "bge-m3") {
        Ok(RerankerModel::BGERerankerV2M3)
    } else if same_text(&name, "jina") {
        Ok(RerankerModel::JINARerankerV1TurboEn)
    } else if same_text(&name, "jina-multilingual") {
        Ok(RerankerModel::JINARerankerV2BaseMultiligual)
    } else {
        Err(RerankError::UnknownModel { name })
    }
}

/// What a tool field adds to a document: a new line and the start of the field.
pub open spec fn field_chars(field: Option<String>) -> Seq<char> {
    match field {
        Some(text) => "\n"@ + crate::text::first_chars(text@, TOOL_FIELD_BUDGET as nat),
        None => Seq::empty(),
    }
}

/// The document of a record: its text, then what its tool fields add.
pub open spec fn document_chars(record: Record) -> Seq<char> {
    record.text@ + field_chars(record.tool_input) + field_chars(record.tool_output)
}

fn append_field(document: &mut String, field: &Option<String>)
    ensures
        final(document)@ == old(document)@ + field_chars(*field),
{
    if let Some(text) = field {
        document.append("\n");
        document.append(take_chars(text, TOOL_FIELD_BUDGET));
    }
}

/// Document text fed to the cross-encoder for one record.
pub fn document_text(record: &Record) -> (document: String)
    ensures
        document@ == document_chars(*record),
{
    let mut document = record.text.clone();
    append_field(&mut document, &record.tool_input);
    append_field(&mut document, &record.tool_output);
    document
}

/// The documents of `results`, in their order.
pub open spec fn documents(results: Seq<LocatedRecord>) -> Seq<Seq<char>> {
    results.map_values(|located: LocatedRecord| document_chars(located.record))
}

/// The records with the scores that `hits` give them, in the order before.
pub open spec fn rescored(results: Seq<LocatedRecord>, hits: Seq<RerankHit>) -> Seq<
    LocatedRecord,
> {
    Seq::new(
        results.len(),
        |i: int|
            LocatedRecord {
                record: results[i].record,
                score: crate::score::last_score(hits, i),
            },
    )
}

/// The records with the scores that `hits` give them, in the order of those scores.
pub open spec fn reranked(results: Seq<LocatedRecord>, hits: Seq<RerankHit>) -> Seq<
    LocatedRecord,
> {
    rearranged(
        rescored(results, hits),
        crate::score::ranked(crate::score::aligned(hits, results.len())),
    )
}

/// Rescores `results` in place with the hits of a reply, and puts them in descending order
/// of score; preserves order on ties. A reply with a hit for no record is refused and
/// leaves the results as they were.
pub fn apply_hits(results: &mut [LocatedRecord], hits: &Vec<RerankHit>) -> (r: Result<
    (),
    RerankError,
>)
    ensures
        r is Ok <==> crate::score::all_in_range(hits@, old(results)@.len()),
        r is Ok ==> final(results)@ == reranked(old(results)@, hits@),
        r is Err ==> final(results)@ == old(results)@,
        r matches Err(error) ==> exists|k: int| #[trigger]
            crate::score::first_out_of_range(hits@, old(results)@.len(), k) && error == (
            RerankError::OutOfRange { index: hits@[k].index }),
{
    let n: usize = results.len();
    let scores = match align_scores(hits, n) {
        Ok(scores) => scores,
        Err(index) => return Err(RerankError::OutOfRange { index }),
    };
    let ghost before = results@;
    let mut i: usize = 0;
    while i < n
        invariant
            i <= n,
            n == before.len(),
            results@.len() == n,
            scores@ == crate::score::aligned(hits@, n as nat),
            forall|j: int| 0 <= j < i ==> #[trigger] results@[j] == rescored(before, hits@)[j],
            forall|j: int| i <= j < n ==> #[trigger] results@[j] == before[j],
        decreases n - i,
    {
        results[i].score = scores[i];
        i = i + 1;
    }
    assert(results@ == rescored(before, hits@));
    let order = order_by_score(scores);
    rearrange(results, &order);
    Ok(())
}

/// `fastembed::TextRerank`: a loaded cross-encoder model.
#[verifier::external_type_specification]
#[verifier::external_body]
pub struct ExTextRerank(fastembed::TextRerank);

/// `hits` is a reply that `model` may give to `query` and `documents`. It says nothing of
/// which one it gives: that differs from machine to machine.
pub uninterp spec fn is_model_reply(
    model: fastembed::TextRerank,
    query: Seq<char>,
    documents: Seq<Seq<char>>,
    hits: Seq<RerankHit>,
) -> bool;

/// `error` is what `model` may report where it fails on `query` and `documents`. It says
/// nothing of when it fails.
pub uninterp spec fn is_model_failure(
    model: fastembed::TextRerank,
    query: Seq<char>,
    documents: Seq<Seq<char>>,
    error: anyhow::Error,
) -> bool;

/// No call of `fastembed::TextRerank::rerank` on `model` panics, whatever it is asked.
pub uninterp spec fn never_panics(model: fastembed::TextRerank) -> bool;

/// The hits are for the positions below their number, each once.
pub open spec fn hits_each_position(hits: Seq<RerankHit>) -> bool {
    crate::score::is_order_of(hits.map_values(|hit: RerankHit| hit.index), hits.len())
}

/// `fastembed::TextRerank::rerank` scores each document against `query`, without handing
/// the documents back and in batches of its default size. It numbers the scores from zero
/// before it sorts them, so that the hits are for the positions below their number, each
/// once. What the scores are, whether there are as many as documents, and whether the
/// model fails, rests on the model and the machine and is left open. There are models on
/// which it panics, such as one whose logits are no table of rows with a first column; it
/// changes nothing of a model that decides that.
#[verifier::external_body]
fn score_documents(model: &mut fastembed::TextRerank, query: &str, documents: &Vec<&str>) -> (r:
    Result<Vec<RerankHit>, anyhow::Error>)
    requires
        never_panics(*old(model)),
    ensures
        never_panics(*final(model)),
        r matches Ok(hits) ==> is_model_reply(
            *old(model),
            query@,
            crate::json::texts_view(documents@),
            hits@,
        ) && hits_each_position(hits@),
        r matches Err(error) ==> is_model_failure(
            *old(model),
            query@,
            crate::json::texts_view(documents@),
            error,
        ),
{
    let replies = model.rerank(query, documents, false, None)?;
    let hits = replies.into_iter().map(|reply| RerankHit {
        index: reply.index,
        score: Score { bits: reply.score.to_bits() },
    });
    Ok(hits.collect())
}

/// The model to load for `model`, or the default one without a name.
pub fn select_model(model: Option<&str>) -> (r: Result<RerankerModel, RerankError>)
    ensures
        model is None ==> r == Ok::<RerankerModel, RerankError>(RerankerModel::BGERerankerBase),
        model matches Some(name) ==> {
            &&& r is Ok <==> model_named(name@) is Some
            &&& r matches Ok(selected) ==> model_named(name@) == Some(selected)
            &&& r matches Err(error) ==> (error matches RerankError::UnknownModel { name: unknown }
                && unknown@ == crate::text::lowercased(name@))
        },
{
    proof {
        law_choices_name_the_models();
        assert(RERANK_MODEL_CHOICES@[0] == "bge");
    }
    match model {
        Some(name) => parse_rerank_model(name),
        None => parse_rerank_model("bge"),
    }
}

/// Reranks search results with a loaded model.
pub struct Reranker {
    inner: fastembed::TextRerank,
}

impl Reranker {
    /// The model that reranks.
    pub closed spec fn inner(self) -> fastembed::TextRerank {
        self.inner
    }

    /// Makes a reranker of a loaded model. To rerank two results or more takes a model that
    /// never panics; those of `RerankerModel` are meant to be such.
    pub fn new(inner: fastembed::TextRerank) -> (reranker: Self)
        ensures
            reranker.inner() == inner,
    {
        Reranker { inner }
    }

    /// Rescores `results` in place against `query`; preserves order on ties. Fewer than
    /// two results stay as they are without asking the model, and results that cannot be
    /// reranked stay as they are too.
    pub fn rerank_results(&mut self, query: &str, results: &mut [LocatedRecord]) -> (r: Result<
        (),
        RerankError,
    >)
        requires
            old(results)@.len() >= 2 ==> never_panics(old(self).inner()),
        ensures
            never_panics(old(self).inner()) ==> never_panics(final(self).inner()),
            old(results)@.len() < 2 ==> r is Ok && final(results)@ == old(results)@,
            old(results)@.len() < 2 ==> final(self).inner() == old(self).inner(),
            old(results)@.len() >= 2 && r is Ok ==> exists|hits: Seq<RerankHit>| #[trigger]
                is_model_reply(old(self).inner(), query@, documents(old(results)@), hits)
                    && hits_each_position(hits) && crate::score::all_in_range(
                    hits,
                    old(results)@.len(),
                ) && final(results)@ == reranked(old(results)@, hits),
            r is Err ==> final(results)@ == old(results)@,
            r matches Err(RerankError::Scoring { error }) ==> is_model_failure(
                old(self).inner(),
                query@,
                documents(old(results)@),
                error,
            ),
            r matches Err(error) ==> error is Scoring || exists|hits: Seq<RerankHit>, k: int|
                #![trigger is_model_reply(old(self).inner(), query@, documents(old(results)@), hits), hits[k]]
                is_model_reply(old(self).inner(), query@, documents(old(results)@), hits)
                    && hits_each_position(hits) && crate::score::first_out_of_range(
                    hits,
                    old(results)@.len(),
                    k,
                ) && error == (RerankError::OutOfRange { index: hits[k].index }),
    {
        if results.len() < 2 {
            return Ok(());
        }
        let mut texts: Vec<String> = Vec::new();
        let mut i: usize = 0;
        while i < results.len()
            invariant
                i <= results@.len(),
                texts@.len() == i,
                forall|j: int| 0 <= j < i ==> (#[trigger] texts@[j])@ == documents(results@)[j],
            decreases results@.len() - i,
        {
            texts.push(document_text(&results[i].record));
            i = i + 1;
        }
        let mut slices: Vec<&str> = Vec::new();
        let mut k: usize = 0;
        while k < texts.len()
            invariant
                k <= texts.len(),
                slices@.len() == k,
                forall|j: int| 0 <= j < k ==> (#[trigger] slices@[j])@ == texts@[j]@,
            decreases texts.len() - k,
        {
            slices.push(texts[k].as_str());
            k = k + 1;
        }
        assert(crate::json::texts_view(slices@) == documents(results@));
        match score_documents(&mut self.inner, query, &slices) {
            Ok(hits) => apply_hits(results, &hits),
            Err(error) => Err(RerankError::Scoring { error }),
        }
    }
}

/// The case of a name does not matter.
pub proof fn law_names_ignore_case(a: Seq<char>, b: Seq<char>)
    requires
        crate::text::lowercased(a) == crate::text::lowercased(b),
    ensures
        model_named(a) == model_named(b),
{
}

/// Each of the documented choices names a model, and no two name the same one.
pub proof fn law_choices_name_the_models()
    ensures
        forall|i: int|
            0 <= i < RERANK_MODEL_CHOICES@.len() ==> model_named(
                #[trigger] RERANK_MODEL_CHOICES@[i]@,
            ) is Some,
        forall|i: int, j: int|
            0 <= i < j < RERANK_MODEL_CHOICES@.len() ==> model_named(
                #[trigger] RERANK_MODEL_CHOICES@[i]@,
            ) != model_named(#[trigger] RERANK_MODEL_CHOICES@[j]@),
        model_named(RERANK_MODEL_CHOICES@[0]@) == Some(RerankerModel::BGERerankerBase),
        model_named(RERANK_MODEL_CHOICES@[1]@) == Some(RerankerModel::BGERerankerV2M3),
        model_named(RERANK_MODEL_CHOICES@[2]@) == Some(RerankerModel::JINARerankerV1TurboEn),
        model_named(RERANK_MODEL_CHOICES@[3]@) == Some(
            RerankerModel::JINARerankerV2BaseMultiligual,
        ),
{
    reveal_strlit("bge");
    reveal_strlit("bge-m3");
    reveal_strlit("jina");
    reveal_strlit("jina-multilingual");
    assert(crate::text::lowercased("bge"@) =~= "bge"@);
    assert(crate::text::lowercased("bge-m3"@) =~= "bge-m3"@);
    assert(crate::text::lowercased("jina"@) =~= "jina"@);
    assert(crate::text::lowercased("jina-multilingual"@) =~= "jina-multilingual"@);
    assert("bge"@.len() != "bge-m3"@.len());
    assert("bge"@.len() != "jina"@.len());
    assert("bge-m3"@.len() != "jina"@.len());
    assert("jina-multilingual"@.len() > "bge-m3"@.len());
}

/// A name that is accepted is one of the documented choices in some mix of cases, or empty.
pub proof fn law_only_choices_are_accepted(name: Seq<char>)
    requires
        model_named(name) is Some,
        name.len() > 0,
    ensures
        exists|i: int|
            0 <= i < RERANK_MODEL_CHOICES@.len() && crate::text::lowercased(name)
                == #[trigger] RERANK_MODEL_CHOICES@[i]@,
{
    let lower = crate::text::lowercased(name);
    assert(lower == RERANK_MODEL_CHOICES@[0]@ || lower == RERANK_MODEL_CHOICES@[1]@ || lower
        == RERANK_MODEL_CHOICES@[2]@ || lower == RERANK_MODEL_CHOICES@[3]@);
}

/// A document starts with the whole text of its record, and its tool fields add no more
/// than their budgets and a new line each.
pub proof fn law_document_is_bounded(record: Record)
    ensures
        record.text@.is_prefix_of(document_chars(record)),
        document_chars(record).len() <= record.text@.len() + 2 * (TOOL_FIELD_BUDGET + 1),
{
    reveal_strlit("\n");
    assert(document_chars(record).take(record.text@.len() as int) =~= record.text@);
}

/// Reranking moves records and changes scores, and does nothing else: each record before
/// is there once after.
pub proof fn law_rerank_keeps_every_record(results: Seq<LocatedRecord>, hits: Seq<RerankHit>)
    requires
        results.len() <= usize::MAX,
    ensures
        ({
            let order = crate::score::ranked(crate::score::aligned(hits, results.len()));
            &&& crate::score::is_order_of(order, results.len())
            &&& reranked(results, hits).len() == results.len()
            &&& forall|p: int|
                0 <= p < results.len() ==> (#[trigger] reranked(results, hits)[p]).record
                    == results[order[p] as int].record
            &&& forall|i: usize| i < results.len() ==> #[trigger] order.contains(i)
        }),
{
    let scores = crate::score::aligned(hits, results.len());
    let order = crate::score::ranked(scores);
    crate::score::law_ranked_is_an_order(scores);
    crate::score::law_order_covers_all(order, results.len());
    assert forall|p: int| 0 <= p < results.len() implies (#[trigger] reranked(
        results,
        hits,
    )[p]).record == results[order[p] as int].record by {
        assert(order[p] < results.len());
    }
}

/// Where every score is a number, no record comes after reranking behind one of a lower
/// score.
pub proof fn law_rerank_sorts_descending(results: Seq<LocatedRecord>, hits: Seq<RerankHit>)
    requires
        results.len() <= usize::MAX,
        crate::score::all_numbers(crate::score::aligned(hits, results.len())),
    ensures
        forall|p: int, q: int|
            0 <= p < q < results.len() ==> (#[trigger] reranked(results, hits)[p]).score.rank() >= (
            #[trigger] reranked(results, hits)[q]).score.rank(),
{
    let scores = crate::score::aligned(hits, results.len());
    let order = crate::score::ranked(scores);
    crate::score::law_ranked_is_an_order(scores);
    crate::score::law_ranked_sorts_descending(scores);
    assert forall|p: int, q: int| 0 <= p < q < results.len() implies (#[trigger] reranked(
        results,
        hits,
    )[p]).score.rank() >= (#[trigger] reranked(results, hits)[q]).score.rank() by {
        assert(order[p] < results.len());
        assert(order[q] < results.len());
        assert(crate::score::goes_ahead(scores, order[p] as int, order[q] as int));
        assert(!scores[order[p] as int].is_nan());
        assert(!scores[order[q] as int].is_nan());
    }
}

/// Where every score is a number, two records of equal score are after reranking in the
/// order they were in before.
pub proof fn law_rerank_preserves_order_on_ties(
    results: Seq<LocatedRecord>,
    hits: Seq<RerankHit>,
    p: int,
    q: int,
)
    requires
        results.len() <= usize::MAX,
        crate::score::all_numbers(crate::score::aligned(hits, results.len())),
        0 <= p < results.len(),
        0 <= q < results.len(),
        reranked(results, hits)[p].score.rank() == reranked(results, hits)[q].score.rank(),
    ensures
        ({
            let order = crate::score::ranked(crate::score::aligned(hits, results.len()));
            p < q <==> order[p] < order[q]
        }),
{
    let scores = crate::score::aligned(hits, results.len());
    let order = crate::score::ranked(scores);
    crate::score::law_ranked_is_an_order(scores);
    crate::score::law_ranked_sorts_descending(scores);
    assert(order[p] < results.len());
    assert(order[q] < results.len());
    if p < q {
        assert(crate::score::goes_ahead(scores, order[p] as int, order[q] as int));
    } else if q < p {
        assert(crate::score::goes_ahead(scores, order[q] as int, order[p] as int));
    }
}

/// A reply that sets no record above another leaves the records in their order, also where
/// its scores are no numbers.
pub proof fn law_rerank_of_ties_moves_nothing(results: Seq<LocatedRecord>, hits: Seq<RerankHit>)
    requires
        results.len() <= usize::MAX,
        crate::score::none_above(crate::score::aligned(hits, results.len())),
    ensures
        reranked(results, hits) == rescored(results, hits),
{
    let scores = crate::score::aligned(hits, results.len());
    crate::score::law_ties_keep_their_order(scores);
    assert(reranked(results, hits) =~= rescored(results, hits));
}

/// Where every score is a number, results that were reranked are in their order: ordering
/// them by their scores again moves nothing.
pub proof fn law_reranked_results_are_in_order(results: Seq<LocatedRecord>, hits: Seq<RerankHit>)
    requires
        results.len() <= usize::MAX,
        crate::score::all_numbers(crate::score::aligned(hits, results.len())),
    ensures
        ({
            let after = reranked(results, hits).map_values(|located: LocatedRecord| located.score);
            crate::score::ranked(after) == Seq::new(results.len(), |p: int| p as usize)
        }),
{
    let scores = crate::score::aligned(hits, results.len());
    let order = crate::score::ranked(scores);
    let after = reranked(results, hits).map_values(|located: LocatedRecord| located.score);
    let places = Seq::new(results.len(), |p: int| p as usize);
    crate::score::law_ranked_is_an_order(scores);
    crate::score::law_ranked_sorts_descending(scores);
    assert forall|p: int| 0 <= p < results.len() implies #[trigger] after[p]
        == scores[order[p] as int] by {
        assert(order[p] < results.len());
    }
    assert forall|p: int| 0 <= p < after.len() implies !(#[trigger] after[p]).is_nan() by {
        assert(order[p] < results.len());
        assert(!scores[order[p] as int].is_nan());
    }
    assert forall|p: int, q: int| 0 <= p < q < places.len() implies crate::score::goes_ahead(
        after,
        #[trigger] places[p] as int,
        #[trigger] places[q] as int,
    ) by {
        assert(crate::score::goes_ahead(scores, order[p] as int, order[q] as int));
        assert(after[p] == scores[order[p] as int]);
        assert(after[q] == scores[order[q] as int]);
    }
    crate::score::law_ranked_is_unique(after, places);
}

} // verus!
