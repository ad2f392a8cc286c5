//! What the library does, told of its inputs and results alone.
use vstd::prelude::*;
use vstd::arithmetic::power2::{lemma_pow2_pos, lemma_pow2_unfold};
use crate::remote::{EmbedJob, HttpRequest, RemoteConfig, RemoteEnv, RemoteError, Service};
use crate::rerank::{LocatedRecord, Record, RerankError, RerankerModel};
use crate::score::{RerankHit, Score};

verus! {

// Text.

proof fn lemma_without_leading(s: Seq<char>, drops: spec_fn(char) -> bool) -> (a: int)
    ensures
        0 <= a <= s.len(),
        crate::text::without_leading(s, drops) == s.subrange(a, s.len() as int),
        forall|i: int| 0 <= i < a ==> drops(#[trigger] s[i]),
        a < s.len() ==> !drops(s[a]),
    decreases s.len(),
{
    if s.len() > 0 && drops(s.first()) {
        let rest = s.drop_first();
        let b = lemma_without_leading(rest, drops);
        assert(rest.subrange(b, rest.len() as int) =~= s.subrange(b + 1, s.len() as int));
        assert forall|i: int| 0 <= i < b + 1 implies drops(#[trigger] s[i]) by {
            if i > 0 {
                assert(rest[i - 1] == s[i]);
            }
        }
        if b < rest.len() {
            assert(rest[b] == s[b + 1]);
        }
        b + 1
    } else {
        assert(s.subrange(0, s.len() as int) =~= s);
        0
    }
}

proof fn lemma_without_trailing(s: Seq<char>, drops: spec_fn(char) -> bool) -> (b: int)
    ensures
        0 <= b <= s.len(),
        crate::text::without_trailing(s, drops) == s.subrange(0, b),
        forall|i: int| b <= i < s.len() ==> drops(#[trigger] s[i]),
        b > 0 ==> !drops(s[b - 1]),
    decreases s.len(),
{
    if s.len() > 0 && drops(s.last()) {
        let rest = s.drop_last();
        let b = lemma_without_trailing(rest, drops);
        assert(rest.subrange(0, b) =~= s.subrange(0, b));
        assert forall|i: int| b <= i < s.len() implies drops(#[trigger] s[i]) by {
            if i < rest.len() {
                assert(rest[i] == s[i]);
            }
        }
        if b > 0 {
            assert(rest[b - 1] == s[b - 1]);
        }
        b
    } else {
        assert(s.subrange(0, s.len() as int) =~= s);
        s.len() as int
    }
}

proof fn lemma_trimmed(s: Seq<char>) -> (r: (int, int))
    ensures
        0 <= r.0 <= r.1 <= s.len(),
        crate::text::trimmed(s) == s.subrange(r.0, r.1),
        forall|i: int| 0 <= i < r.0 ==> crate::text::is_white_space(#[trigger] s[i]),
        forall|i: int| r.1 <= i < s.len() ==> crate::text::is_white_space(#[trigger] s[i]),
        r.0 < r.1 ==> !crate::text::is_white_space(s[r.0]) && !crate::text::is_white_space(
            s[r.1 - 1],
        ),
{
    let white = |c: char| crate::text::is_white_space(c);
    let a = lemma_without_leading(s, white);
    let rest = s.subrange(a, s.len() as int);
    let b = lemma_without_trailing(rest, white);
    assert(rest.subrange(0, b) =~= s.subrange(a, a + b));
    assert forall|i: int| a + b <= i < s.len() implies crate::text::is_white_space(
        #[trigger] s[i],
    ) by {
        assert(white(rest[i - a]));
    }
    assert forall|i: int| 0 <= i < a implies crate::text::is_white_space(#[trigger] s[i]) by {
        assert(white(s[i]));
    }
    if b > 0 {
        assert(!white(s[a]));
        assert(!white(rest[b - 1]));
    }
    (a, a + b)
}

/// A trimmed text is the part of the text that is left when white space, and nothing else,
/// is taken off both ends, as much as there is.
pub proof fn law_trimmed_takes_white_space_off_the_ends(s: Seq<char>)
    ensures
        exists|a: int, b: int|
            {
                &&& 0 <= a <= b <= s.len()
                &&& crate::text::trimmed(s) == #[trigger] s.subrange(a, b)
                &&& forall|i: int| 0 <= i < a ==> crate::text::is_white_space(#[trigger] s[i])
                &&& forall|i: int|
                    b <= i < s.len() ==> crate::text::is_white_space(#[trigger] s[i])
                &&& a < b ==> !crate::text::is_white_space(s[a])
                    && !crate::text::is_white_space(s[b - 1])
            },
{
    let (a, b) = lemma_trimmed(s);
    assert(crate::text::trimmed(s) == s.subrange(a, b));
}

/// Lower case keeps the length of a text and every character but the letters `A` to `Z`,
/// each of which becomes the letter as far from `a` as it is from `A`.
pub proof fn law_lowercase_changes_only_ascii_capitals(s: Seq<char>)
    ensures
        crate::text::lowercased(s).len() == s.len(),
        forall|i: int|
            0 <= i < s.len() && !('A' <= s[i] <= 'Z') ==> #[trigger] crate::text::lowercased(s)[i]
                == s[i],
        forall|i: int|
            0 <= i < s.len() && 'A' <= s[i] <= 'Z' ==> (#[trigger] crate::text::lowercased(
                s,
            )[i]) as int - 'a' as int == s[i] as int - 'A' as int,
{
}

/// A cut text is as long as the limit or as the text, whichever is less, and its characters
/// are those of the text from its start.
pub proof fn law_cut_keeps_the_start(s: Seq<char>, n: nat)
    ensures
        crate::text::first_chars(s, n).len() == (if s.len() <= n {
            s.len()
        } else {
            n
        }),
        forall|i: int|
            0 <= i < crate::text::first_chars(s, n).len() ==> #[trigger] crate::text::first_chars(
                s,
                n,
            )[i] == s[i],
{
}

/// The value of digits grows tenfold with a further digit, and by that digit.
pub proof fn law_a_digit_more_is_ten_times_as_much(s: Seq<char>, c: char)
    requires
        '0' <= c <= '9',
    ensures
        crate::text::digits_value(Seq::<char>::empty()) == 0,
        crate::text::digits_value(s.push(c)) == 10 * crate::text::digits_value(s) + (c as int
            - '0' as int),
{
    assert(s.push(c).drop_last() =~= s);
}

/// A number written in decimal reads back as itself, in digits alone, and without zeros
/// ahead of it.
pub proof fn law_decimal_reads_back(n: nat)
    ensures
        crate::text::decimal_text(n).len() > 0,
        forall|i: int|
            0 <= i < crate::text::decimal_text(n).len() ==> '0' <= (
            #[trigger] crate::text::decimal_text(n)[i]) <= '9',
        crate::text::digits_value(crate::text::decimal_text(n)) == n,
        crate::text::unsigned_value(crate::text::decimal_text(n)) == Some(n),
        n > 0 ==> crate::text::decimal_text(n)[0] != '0',
    decreases n,
{
    let text = crate::text::decimal_text(n);
    if n < 10 {
        assert(text.drop_last() =~= Seq::<char>::empty());
        assert(crate::text::digits_value(text.drop_last()) == 0);
    } else {
        law_decimal_reads_back(n / 10);
        let rest = crate::text::decimal_text(n / 10);
        assert(text.drop_last() =~= rest);
        assert(text[0] == rest[0]);
        assert forall|i: int| 0 <= i < text.len() implies '0' <= (#[trigger] text[i]) <= '9' by {
            if i < rest.len() {
                assert(text[i] == rest[i]);
            }
        }
    }
    assert(text[0] == text.first());
}

// Scores.

/// The number that a single-precision pattern without sign stands for, in units of the
/// least positive one: exponent and fraction as IEEE 754 lays them out.
pub open spec fn value_of_magnitude(m: int) -> int {
    let exponent = m / 0x80_0000;
    let fraction = m % 0x80_0000;
    if exponent == 0 {
        fraction
    } else {
        (0x80_0000 + fraction) * vstd::arithmetic::power2::pow2((exponent - 1) as nat)
    }
}

proof fn lemma_next_value(m: int)
    requires
        0 <= m,
    ensures
        value_of_magnitude(m) < value_of_magnitude(m + 1),
{
    let e = m / 0x80_0000;
    let f = m % 0x80_0000;
    if f + 1 < 0x80_0000 {
        assert((m + 1) / 0x80_0000 == e);
        assert((m + 1) % 0x80_0000 == f + 1);
        if e > 0 {
            let unit = vstd::arithmetic::power2::pow2((e - 1) as nat) as int;
            lemma_pow2_pos((e - 1) as nat);
            assert((0x80_0000 + f) * unit < (0x80_0000 + f + 1) * unit) by (nonlinear_arith)
                requires
                    unit > 0,
            ;
        }
    } else {
        assert((m + 1) / 0x80_0000 == e + 1);
        assert((m + 1) % 0x80_0000 == 0);
        let next = vstd::arithmetic::power2::pow2(e as nat) as int;
        lemma_pow2_pos(e as nat);
        if e > 0 {
            let unit = vstd::arithmetic::power2::pow2((e - 1) as nat) as int;
            lemma_pow2_pos((e - 1) as nat);
            lemma_pow2_unfold(e as nat);
            assert(next == 2 * unit);
            assert((0x80_0000 + 0x7f_ffff) * unit < 0x80_0000 * next) by (nonlinear_arith)
                requires
                    unit > 0,
                    next == 2 * unit,
            ;
        } else {
            assert(0x80_0000 * next >= 0x80_0000) by (nonlinear_arith)
                requires
                    next > 0,
            ;
        }
    }
}

proof fn lemma_values_increase(m: int, n: int)
    requires
        0 <= m < n,
    ensures
        value_of_magnitude(m) < value_of_magnitude(n),
    decreases n - m,
{
    lemma_next_value(n - 1);
    if m < n - 1 {
        lemma_values_increase(m, n - 1);
    }
}

/// The number that a finite score stands for, in units of the least positive one.
pub open spec fn value_of(score: Score) -> int {
    if score.bits < 0x8000_0000 {
        value_of_magnitude(score.bits as int)
    } else {
        -value_of_magnitude(score.bits - 0x8000_0000)
    }
}

/// A finite score is above another exactly where it stands for the greater number.
/// Infinity is above every number and below none, the other way round below zero, and what
/// is no number is neither above nor below anything.
pub proof fn law_above_compares_numbers(a: Score, b: Score)
    ensures
        a.bits % 0x8000_0000 < 0x7f80_0000 && b.bits % 0x8000_0000 < 0x7f80_0000 ==> (a.above(b)
            <==> value_of(a) > value_of(b)),
        a.bits == 0x7f80_0000 && b.bits % 0x8000_0000 <= 0x7f80_0000 ==> (a.above(b) <==> b.bits
            != 0x7f80_0000) && !b.above(a),
        a.bits == 0xff80_0000 && b.bits % 0x8000_0000 <= 0x7f80_0000 ==> (b.above(a) <==> b.bits
            != 0xff80_0000) && !a.above(b),
        a.bits % 0x8000_0000 > 0x7f80_0000 ==> !a.above(b) && !b.above(a),
{
    let m = a.magnitude();
    let n = b.magnitude();
    if m < n {
        lemma_values_increase(m, n);
    }
    if n < m {
        lemma_values_increase(n, m);
    }
    if m > 0 {
        lemma_values_increase(0, m);
    }
    if n > 0 {
        lemma_values_increase(0, n);
    }
    assert(value_of_magnitude(0) == 0);
}

/// The order of records lists each of them once, and where every score is a number it is
/// descending, with ties in the order before.
pub proof fn law_order_is_descending_with_ties_kept(scores: Seq<Score>)
    requires
        scores.len() <= usize::MAX,
    ensures
        crate::score::ranked(scores).len() == scores.len(),
        forall|p: int|
            0 <= p < scores.len() ==> (#[trigger] crate::score::ranked(scores)[p]) < scores.len(),
        forall|p: int, q: int|
            0 <= p < q < scores.len() ==> (#[trigger] crate::score::ranked(scores)[p]) != (
            #[trigger] crate::score::ranked(scores)[q]),
        (forall|i: int|
            0 <= i < scores.len() ==> (#[trigger] scores[i]).bits % 0x8000_0000 <= 0x7f80_0000)
            ==> forall|p: int, q: int|
            0 <= p < q < scores.len() ==> {
                let first = #[trigger] crate::score::ranked(scores)[p];
                let second = #[trigger] crate::score::ranked(scores)[q];
                &&& !scores[second as int].above(scores[first as int])
                &&& !scores[first as int].above(scores[second as int]) ==> first < second
            },
{
    crate::score::law_ranked_is_an_order(scores);
    let order = crate::score::ranked(scores);
    if forall|i: int|
        0 <= i < scores.len() ==> (#[trigger] scores[i]).bits % 0x8000_0000 <= 0x7f80_0000 {
        assert(crate::score::all_numbers(scores));
        crate::score::law_ranked_sorts_descending(scores);
        assert forall|p: int, q: int| 0 <= p < q < scores.len() implies {
            let first = #[trigger] order[p];
            let second = #[trigger] order[q];
            &&& !scores[second as int].above(scores[first as int])
            &&& !scores[first as int].above(scores[second as int]) ==> first < second
        } by {
            assert(crate::score::goes_ahead(scores, order[p] as int, order[q] as int));
        }
    }
}

proof fn lemma_slot_bounds(scores: Seq<Score>, order: Seq<usize>, i: int)
    ensures
        crate::score::slot(scores, order, i) <= order.len(),
        forall|q: int|
            crate::score::slot(scores, order, i) <= q < order.len() ==> scores[i].above(
                scores[#[trigger] order[q] as int],
            ),
        crate::score::slot(scores, order, i) > 0 ==> !scores[i].above(
            scores[order[crate::score::slot(scores, order, i) - 1] as int],
        ),
    decreases order.len(),
{
    if order.len() > 0 && scores[i].above(scores[order.last() as int]) {
        let rest = order.drop_last();
        lemma_slot_bounds(scores, rest, i);
        let at = crate::score::slot(scores, rest, i);
        assert forall|q: int| at <= q < order.len() implies scores[i].above(
            scores[#[trigger] order[q] as int],
        ) by {
            if q < rest.len() {
                assert(rest[q] == order[q]);
            }
        }
        if at > 0 {
            assert(rest[at - 1] == order[at - 1]);
        }
    }
}

proof fn lemma_slot_of_longer(a: Seq<Score>, b: Seq<Score>, order: Seq<usize>, i: int)
    requires
        a[i] == b[i],
        forall|q: int| 0 <= q < order.len() ==> a[#[trigger] order[q] as int] == b[order[q] as int],
    ensures
        crate::score::slot(a, order, i) == crate::score::slot(b, order, i),
    decreases order.len(),
{
    if order.len() > 0 {
        assert(a[order[order.len() - 1] as int] == b[order.last() as int]);
        let rest = order.drop_last();
        assert forall|q: int| 0 <= q < rest.len() implies a[#[trigger] rest[q] as int]
            == b[rest[q] as int] by {
            assert(order[q] == rest[q]);
        }
        lemma_slot_of_longer(a, b, rest, i);
    }
}

proof fn lemma_order_of_longer(scores: Seq<Score>, s: Score, n: nat)
    requires
        n <= scores.len() <= usize::MAX,
    ensures
        crate::score::ranked_prefix(scores.push(s), n) == crate::score::ranked_prefix(scores, n),
        forall|q: int|
            0 <= q < n ==> (#[trigger] crate::score::ranked_prefix(scores, n)[q]) < n,
        crate::score::ranked_prefix(scores, n).len() == n,
    decreases n,
{
    if n > 0 {
        let m = (n - 1) as nat;
        lemma_order_of_longer(scores, s, m);
        let before = crate::score::ranked_prefix(scores, m);
        lemma_slot_bounds(scores, before, m as int);
        lemma_slot_of_longer(scores, scores.push(s), before, m as int);
        let at = crate::score::slot(scores, before, m as int) as int;
        let after = before.insert(at, m as usize);
        assert forall|q: int| 0 <= q < n implies (#[trigger] after[q]) < n by {
            if q < at {
                assert(after[q] == before[q]);
            } else if q > at {
                assert(after[q] == before[q - 1]);
            }
        }
    }
}

/// One record more, behind the others, leaves the order of the others as it is. It goes
/// ahead of the longest run of lower scores at their end, whatever the scores are.
pub proof fn law_a_record_more_moves_no_other(scores: Seq<Score>, s: Score)
    requires
        scores.len() < usize::MAX,
    ensures
        exists|p: int|
            {
                &&& 0 <= p <= scores.len()
                &&& crate::score::ranked(scores.push(s)) == #[trigger] crate::score::ranked(
                    scores,
                ).insert(p, scores.len() as usize)
                &&& forall|q: int|
                    p <= q < scores.len() ==> s.above(
                        scores[#[trigger] crate::score::ranked(scores)[q] as int],
                    )
                &&& p > 0 ==> !s.above(scores[crate::score::ranked(scores)[p - 1] as int])
            },
{
    let n = scores.len();
    let longer = scores.push(s);
    lemma_order_of_longer(scores, s, n);
    let before = crate::score::ranked(scores);
    lemma_slot_bounds(longer, before, n as int);
    let p = crate::score::slot(longer, before, n as int) as int;
    assert(crate::score::ranked(longer) == before.insert(p, n as usize));
    assert forall|q: int| p <= q < n implies s.above(scores[#[trigger] before[q] as int]) by {
        assert(longer[before[q] as int] == scores[before[q] as int]);
    }
    if p > 0 {
        assert(before[p - 1] < n);
        assert(longer[before[p - 1] as int] == scores[before[p - 1] as int]);
    }
}

/// A reply gives each document one score: zero without a hit, else the score of the hit
/// for that document that has no other behind it. It is in order where each hit is for a
/// document, and else the first that is for none is the one complained of.
pub proof fn law_scores_follow_their_documents(hits: Seq<RerankHit>, n: nat)
    ensures
        crate::score::aligned(hits, n).len() == n,
        forall|i: int|
            0 <= i < n && (forall|k: int| 0 <= k < hits.len() ==> (#[trigger] hits[k]).index != i)
                ==> (#[trigger] crate::score::aligned(hits, n)[i]).bits == 0,
        forall|i: int, k: int|
            0 <= i < n && 0 <= k < hits.len() && hits[k].index == i && (forall|later: int|
                k < later < hits.len() ==> (#[trigger] hits[later]).index != i) ==> (
            #[trigger] crate::score::aligned(hits, n)[i]) == (#[trigger] hits[k]).score,
        crate::score::all_in_range(hits, n) <==> (forall|k: int|
            0 <= k < hits.len() ==> (#[trigger] hits[k]).index < n),
        forall|k: int| #[trigger]
            crate::score::first_out_of_range(hits, n, k) ==> 0 <= k < hits.len() && hits[k].index
                >= n && (forall|j: int| 0 <= j < k ==> (#[trigger] hits[j]).index < n),
{
    assert forall|i: int|
        0 <= i < n && (forall|k: int|
            0 <= k < hits.len() ==> (#[trigger] hits[k]).index != i) implies (
    #[trigger] crate::score::aligned(hits, n)[i]).bits == 0 by {
        crate::score::law_aligned_takes_the_last_hit(hits, n, i);
    }
    assert forall|i: int, k: int|
        0 <= i < n && 0 <= k < hits.len() && hits[k].index == i && (forall|later: int|
            k < later < hits.len() ==> (#[trigger] hits[later]).index != i) implies (
    #[trigger] crate::score::aligned(hits, n)[i]) == (#[trigger] hits[k]).score by {
        crate::score::law_aligned_takes_the_last_hit(hits, n, i);
    }
    assert forall|k: int| #[trigger] crate::score::first_out_of_range(hits, n, k) implies 0 <= k
        < hits.len() && hits[k].index >= n && (forall|j: int|
        0 <= j < k ==> (#[trigger] hits[j]).index < n) by {
        assert forall|j: int| 0 <= j < k implies (#[trigger] hits[j]).index < n by {
            assert(hits.take(k)[j] == hits[j]);
        }
    }
}

// Reranking.

/// A tool field adds a new line to a document and then the field from its start, whole
/// where it is within the budget and else as many characters as the budget has.
pub proof fn law_tool_field_adds_its_start(field: String)
    ensures
        crate::rerank::field_chars(Some(field)).len() == 1 + (if field@.len()
            <= crate::rerank::TOOL_FIELD_BUDGET {
            field@.len()
        } else {
            crate::rerank::TOOL_FIELD_BUDGET as nat
        }),
        crate::rerank::field_chars(Some(field))[0] == '\n',
        forall|i: int|
            0 <= i < field@.len() && i < crate::rerank::TOOL_FIELD_BUDGET
                ==> crate::rerank::field_chars(Some(field))[1 + i] == #[trigger] field@[i],
        crate::rerank::field_chars(None).len() == 0,
        crate::rerank::TOOL_FIELD_BUDGET == 2000,
{
    reveal_strlit("\n");
}

/// A document is the whole text of its record, then what its tool input adds, then what
/// its tool output adds.
pub proof fn law_document_is_text_then_tool_fields(record: Record)
    ensures
        crate::rerank::document_chars(record) == record.text@ + crate::rerank::field_chars(
            record.tool_input,
        ) + crate::rerank::field_chars(record.tool_output),
        forall|i: int|
            0 <= i < record.text@.len() ==> crate::rerank::document_chars(record)[i]
                == #[trigger] record.text@[i],
        record.tool_input is None && record.tool_output is None ==> crate::rerank::document_chars(
            record,
        ) == record.text@,
{
    assert(record.tool_input is None && record.tool_output is None
        ==> crate::rerank::document_chars(record) =~= record.text@);
}

/// The documents that a model is given are those of the results: as many, and each at the
/// place of its own record.
pub proof fn law_documents_keep_the_places_of_their_records(results: Seq<LocatedRecord>)
    ensures
        crate::rerank::documents(results).len() == results.len(),
        forall|i: int|
            0 <= i < results.len() ==> #[trigger] crate::rerank::documents(results)[i]
                == crate::rerank::document_chars(results[i].record),
{
}

/// After reranking, each record of the results is there once, unchanged, with the score of
/// the last hit for its own place before, or zero without one. Where every score is a
/// number the scores descend, and records of equal score are in the order before.
pub proof fn law_each_record_gets_its_own_score(results: Seq<LocatedRecord>, hits: Seq<RerankHit>)
    requires
        results.len() <= usize::MAX,
    ensures
        ({
            let after = crate::rerank::reranked(results, hits);
            let order = crate::score::ranked(crate::score::aligned(hits, results.len()));
            &&& after.len() == results.len()
            &&& order.len() == results.len()
            &&& forall|p: int| 0 <= p < results.len() ==> (#[trigger] order[p]) < results.len()
            &&& forall|p: int, q: int|
                0 <= p < q < results.len() ==> (#[trigger] order[p]) != (#[trigger] order[q])
            &&& forall|p: int|
                0 <= p < results.len() ==> (#[trigger] after[p]).record
                    == results[order[p] as int].record
            &&& forall|p: int|
                0 <= p < results.len() && (forall|k: int|
                    0 <= k < hits.len() ==> (#[trigger] hits[k]).index != order[p]) ==> (
                #[trigger] after[p]).score.bits == 0
            &&& forall|p: int, k: int|
                0 <= p < results.len() && 0 <= k < hits.len() && hits[k].index == order[p] && (
                forall|later: int|
                    k < later < hits.len() ==> (#[trigger] hits[later]).index != order[p]) ==> (
                #[trigger] after[p]).score == (#[trigger] hits[k]).score
            &&& (forall|p: int|
                0 <= p < results.len() ==> (#[trigger] after[p]).score.bits % 0x8000_0000
                    <= 0x7f80_0000) ==> forall|p: int, q: int|
                0 <= p < q < results.len() ==> {
                    &&& !(#[trigger] after[q]).score.above((#[trigger] after[p]).score)
                    &&& !after[p].score.above(after[q].score) ==> order[p] < order[q]
                }
        }),
{
    let n = results.len();
    let scores = crate::score::aligned(hits, n);
    let after = crate::rerank::reranked(results, hits);
    let order = crate::score::ranked(scores);
    law_order_is_descending_with_ties_kept(scores);
    law_scores_follow_their_documents(hits, n);
    assert forall|p: int| 0 <= p < n implies (#[trigger] after[p]).record
        == results[order[p] as int].record && after[p].score == scores[order[p] as int] by {
        assert(order[p] < n);
    }
    assert forall|p: int|
        0 <= p < n && (forall|k: int|
            0 <= k < hits.len() ==> (#[trigger] hits[k]).index != order[p]) implies (
    #[trigger] after[p]).score.bits == 0 by {
        assert(order[p] < n);
        assert(scores[order[p] as int].bits == 0);
    }
    assert forall|p: int, k: int|
        0 <= p < n && 0 <= k < hits.len() && hits[k].index == order[p] && (forall|later: int|
            k < later < hits.len() ==> (#[trigger] hits[later]).index != order[p]) implies (
    #[trigger] after[p]).score == (#[trigger] hits[k]).score by {
        assert(order[p] < n);
        assert(scores[order[p] as int] == hits[k].score);
    }
    if forall|p: int|
        0 <= p < n ==> (#[trigger] after[p]).score.bits % 0x8000_0000 <= 0x7f80_0000 {
        crate::score::law_ranked_is_an_order(scores);
        crate::score::law_order_covers_all(order, n);
        assert forall|i: int| 0 <= i < scores.len() implies (#[trigger] scores[i]).bits
            % 0x8000_0000 <= 0x7f80_0000 by {
            assert(order.contains(i as usize));
            let p = choose|p: int| 0 <= p < order.len() && order[p] == i as usize;
            assert(after[p].score == scores[i]);
        }
        assert forall|p: int, q: int| 0 <= p < q < n implies {
            &&& !(#[trigger] after[q]).score.above((#[trigger] after[p]).score)
            &&& !after[p].score.above(after[q].score) ==> order[p] < order[q]
        } by {
            let first = order[p];
            let second = order[q];
            assert(!scores[second as int].above(scores[first as int]));
        }
    }
}

/// The names of the models, in any mix of cases: these and no others, and no name for the
/// first of them.
pub proof fn law_model_names(name: Seq<char>)
    ensures
        crate::rerank::model_named(name) == Some(RerankerModel::BGERerankerBase) <==> name.len()
            == 0 || crate::text::lowercased(name) == "bge"@,
        crate::rerank::model_named(name) == Some(RerankerModel::BGERerankerV2M3)
            <==> crate::text::lowercased(name) == "bge-m3"@,
        crate::rerank::model_named(name) == Some(RerankerModel::JINARerankerV1TurboEn)
            <==> crate::text::lowercased(name) == "jina"@,
        crate::rerank::model_named(name) == Some(RerankerModel::JINARerankerV2BaseMultiligual)
            <==> crate::text::lowercased(name) == "jina-multilingual"@,
{
    reveal_strlit("bge");
    reveal_strlit("bge-m3");
    reveal_strlit("jina");
    reveal_strlit("jina-multilingual");
    assert("bge"@.len() == 3 && "bge-m3"@.len() == 6 && "jina"@.len() == 4
        && "jina-multilingual"@.len() == 17);
}

/// What users are told where a search cannot be reranked.
pub proof fn law_rerank_messages(error: RerankError, text: String)
    requires
        error.is_message(text),
    ensures
        error is NotConversations ==> text@ == "reranking applies to conversation search only"@,
        error matches RerankError::UnknownModel { name } ==> text@ == "unknown rerank model '"@
            + name@ + "', options: bge, bge-m3, jina, jina-multilingual"@,
        error matches RerankError::OutOfRange { index } ==> text@
            == "reranker returned out-of-range document index "@ + crate::text::decimal_text(
            index as nat,
        ),
{
    if let RerankError::UnknownModel { name } = error {
        let choices = crate::rerank::RERANK_MODEL_CHOICES@;
        reveal_strlit("bge");
        reveal_strlit("bge-m3");
        reveal_strlit("jina");
        reveal_strlit("jina-multilingual");
        reveal_strlit(", ");
        reveal_strlit("', options: ");
        reveal_strlit("', options: bge, bge-m3, jina, jina-multilingual");
        let c3 = choices.drop_last();
        let c2 = c3.drop_last();
        let c1 = c2.drop_last();
        assert(choices[0] == "bge" && choices[1] == "bge-m3" && choices[2] == "jina"
            && choices[3] == "jina-multilingual");
        assert(crate::rerank::joined(c1, ", "@) == "bge"@);
        assert(crate::rerank::joined(c2, ", "@) == "bge"@ + ", "@ + "bge-m3"@);
        assert(crate::rerank::joined(c3, ", "@) == "bge"@ + ", "@ + "bge-m3"@ + ", "@ + "jina"@);
        assert(crate::rerank::joined(choices, ", "@) == "bge"@ + ", "@ + "bge-m3"@ + ", "@
            + "jina"@ + ", "@ + "jina-multilingual"@);
        assert("', options: "@ + crate::rerank::joined(choices, ", "@)
            =~= "', options: bge, bge-m3, jina, jina-multilingual"@);
        assert(text@ =~= "unknown rerank model '"@ + name@
            + "', options: bge, bge-m3, jina, jina-multilingual"@);
    }
}

// Remote endpoints.

/// A variable is filled where it is set to text with a character that is no white space.
pub proof fn law_filled_is_more_than_white_space(text: String)
    ensures
        crate::remote::is_filled(Some(text)) <==> exists|i: int|
            0 <= i < text@.len() && !crate::text::is_white_space(#[trigger] text@[i]),
        !crate::remote::is_filled(None),
{
    let (a, b) = lemma_trimmed(text@);
    if a < b {
        assert(!crate::text::is_white_space(text@[a]));
    }
}

/// The endpoint is the text of its variable without the white space at its ends and then
/// without the slashes at its end, as much as there is of them, and nothing else is taken
/// off.
pub proof fn law_endpoint_loses_white_space_and_slashes(s: Seq<char>)
    ensures
        exists|a: int, b: int, c: int|
            #![trigger s.subrange(a, b), s.subrange(b, c)]
            {
                &&& 0 <= a <= b <= c <= s.len()
                &&& crate::remote::endpoint_text(s) == s.subrange(a, b)
                &&& forall|i: int| 0 <= i < a ==> crate::text::is_white_space(#[trigger] s[i])
                &&& forall|i: int| b <= i < c ==> #[trigger] s[i] == '/'
                &&& forall|i: int|
                    c <= i < s.len() ==> crate::text::is_white_space(#[trigger] s[i])
                &&& a < c ==> !crate::text::is_white_space(s[a])
                    && !crate::text::is_white_space(s[c - 1])
                &&& a < b ==> s[b - 1] != '/'
            },
{
    let (a, c) = lemma_trimmed(s);
    let core = s.subrange(a, c);
    let slash = |x: char| x == '/';
    let n = lemma_without_trailing(core, slash);
    let b = a + n;
    assert(core.subrange(0, n) =~= s.subrange(a, b));
    assert forall|i: int| b <= i < c implies #[trigger] s[i] == '/' by {
        assert(slash(core[i - a]));
    }
    if a < b {
        assert(!slash(core[n - 1]));
    }
    let tail = s.subrange(b, c);
    assert(crate::remote::endpoint_text(s) == s.subrange(a, b));
}

/// What each variable of the environment does to the configuration.
pub proof fn law_configuration_follows_the_variables(env: RemoteEnv)
    ensures
        ({
            let outcome = crate::remote::configured(env);
            let usable = crate::remote::is_filled(env.endpoint) && crate::remote::is_filled(
                env.model,
            );
            &&& !crate::remote::is_filled(env.endpoint) ==> outcome == Ok::<
                Option<crate::remote::ConfigView>,
                crate::remote::ErrorView,
            >(None)
            &&& crate::remote::is_filled(env.endpoint) && !crate::remote::is_filled(env.model)
                ==> outcome == Err::<Option<crate::remote::ConfigView>, crate::remote::ErrorView>(
                crate::remote::ErrorView::MissingModel,
            )
            &&& usable && !crate::remote::is_filled(env.dimensions) ==> (outcome matches Ok(
                Some(config),
            ) && config.dimensions is None)
            &&& usable && crate::remote::is_filled(env.dimensions) ==> {
                let text = crate::text::trimmed(env.dimensions->0@);
                match crate::text::unsigned_value(text) {
                    Some(n) if n <= usize::MAX => outcome matches Ok(Some(config))
                        && config.dimensions == Some(n as usize),
                    _ => outcome == Err::<
                        Option<crate::remote::ConfigView>,
                        crate::remote::ErrorView,
                    >(
                        crate::remote::ErrorView::InvalidDimensions {
                            complaint: crate::text::parse_usize_complaint(text),
                        },
                    ),
                }
            }
            &&& outcome matches Ok(Some(config)) ==> {
                &&& config.endpoint == crate::remote::endpoint_text(env.endpoint->0@)
                &&& config.model == env.model->0@
                &&& env.api_key matches Some(key) ==> config.api_key == key@
                &&& env.api_key is None ==> config.api_key.len() == 0
                &&& env.input_type is None ==> config.input_type
                &&& env.input_type matches Some(flag) ==> (config.input_type <==> {
                    let word = crate::text::trimmed(flag@);
                    !(word.len() == 0 || word == "0"@ || word == "false"@ || word == "no"@)
                })
            }
        }),
{
}

/// Configurations, requests, replies and texts are spoken of by what they hold.
pub proof fn law_views_hold_the_fields(config: RemoteConfig, request: HttpRequest)
    ensures
        config@.endpoint == config.endpoint@,
        config@.api_key == config.api_key@,
        config@.model == config.model@,
        config@.dimensions == config.dimensions,
        config@.input_type == config.input_type,
        request@.url == request.url@,
        request@.body == request.body@,
        request@.bearer is Some <==> request.bearer is Some,
        request.bearer matches Some(token) ==> request@.bearer == Some(token@),
        crate::remote::resolution(Ok(Some(config))) == Ok::<
            Option<crate::remote::ConfigView>,
            crate::remote::ErrorView,
        >(Some(config@)),
        crate::remote::resolution(Ok(None)) == Ok::<
            Option<crate::remote::ConfigView>,
            crate::remote::ErrorView,
        >(None),
        forall|error: RemoteError| #[trigger]
            crate::remote::resolution(Err(error)) == Err::<
                Option<crate::remote::ConfigView>,
                crate::remote::ErrorView,
            >(error@),
{
}

/// A list of texts is spoken of text by text, each whole and at its place, and so is a
/// list of vectors.
pub proof fn law_lists_keep_their_items<T>(
    texts: Seq<&str>,
    text: &str,
    vectors: Seq<Vec<T>>,
)
    ensures
        crate::json::texts_view(texts).len() == texts.len(),
        forall|i: int|
            0 <= i < texts.len() ==> (#[trigger] crate::json::texts_view(texts)[i]) == texts[i]@,
        crate::remote::option_text(Some(text)) == Some(text@),
        crate::remote::option_text(None) is None,
        crate::remote::vectors_view(vectors).len() == vectors.len(),
        forall|i: int|
            0 <= i < vectors.len() ==> (#[trigger] crate::remote::vectors_view(vectors)[i])
                == vectors[i]@,
{
}

/// A request goes to the endpoint followed by the path, with the body as it is, and with
/// the API key exactly where there is one.
pub proof fn law_post_goes_to_the_endpoint(
    config: RemoteConfig,
    path: Seq<char>,
    body: Seq<char>,
)
    ensures
        crate::remote::post_request(config@, path, body).url == config.endpoint@ + path,
        crate::remote::post_request(config@, path, body).body == body,
        config.api_key@.len() > 0 ==> crate::remote::post_request(config@, path, body).bearer
            == Some(config.api_key@),
        config.api_key@.len() == 0 ==> crate::remote::post_request(
            config@,
            path,
            body,
        ).bearer is None,
{
}

/// The request for the embeddings of a batch is the JSON object that has under `input` the
/// texts of the batch, as many, each whole and in their order; under `model` the model;
/// under `input_type` the input type exactly where one is given and the switch is on; under
/// `output_dimension` the dimensions exactly where they are configured; and nothing else.
/// It goes to `/embeddings` of the endpoint, with the API key where there is one.
pub proof fn law_embeddings_request_carries_the_batch(
    config: RemoteConfig,
    batch: Seq<&str>,
    input_type: Option<&str>,
)
    ensures
        ({
            let request = crate::remote::embed_request(
                config@,
                crate::json::texts_view(batch),
                crate::remote::option_text(input_type),
            );
            &&& request.url == config.endpoint@ + "/embeddings"@
            &&& config.api_key@.len() > 0 ==> request.bearer == Some(config.api_key@)
            &&& config.api_key@.len() == 0 ==> request.bearer is None
            &&& exists|m: Map<Seq<char>, crate::json::Member>, input: Seq<Seq<char>>|
                {
                    &&& request.body == #[trigger] crate::json::object_text(m)
                    &&& #[trigger] m.contains_pair("input"@, crate::json::Member::Texts(input))
                    &&& input.len() == batch.len()
                    &&& forall|i: int| 0 <= i < batch.len() ==> #[trigger] input[i] == batch[i]@
                    &&& m.contains_pair("model"@, crate::json::Member::Text(config.model@))
                    &&& config.input_type ==> (input_type matches Some(text) ==> m.contains_pair(
                        "input_type"@,
                        crate::json::Member::Text(text@),
                    ))
                    &&& !config.input_type || input_type is None ==> !m.contains_key(
                        "input_type"@,
                    )
                    &&& config.dimensions matches Some(n) ==> m.contains_pair(
                        "output_dimension"@,
                        crate::json::Member::Count(n as nat),
                    )
                    &&& config.dimensions is None ==> !m.contains_key("output_dimension"@)
                    &&& forall|name: Seq<char>| #[trigger]
                        m.contains_key(name) ==> name == "input"@ || name == "model"@ || name
                            == "input_type"@ || name == "output_dimension"@
                }
        }),
{
    let input = crate::json::texts_view(batch);
    let typed = crate::remote::option_text(input_type);
    let m = crate::remote::embed_members(config@, input, typed);
    crate::remote::law_embed_members(config@, input, typed);
    law_post_goes_to_the_endpoint(config, "/embeddings"@, crate::json::object_text(m));
    assert(crate::remote::embed_request(config@, input, typed).body == crate::json::object_text(m));
    assert(m.contains_pair("input"@, crate::json::Member::Texts(input)));
}

/// The request for scores is the JSON object that has under `documents` the documents, as
/// many, each whole and in their order; under `query` the query; under `model` the rerank
/// model; and nothing else. It goes to `/rerank` of the endpoint, with the API key where
/// there is one.
pub proof fn law_rerank_request_carries_the_documents(
    config: RemoteConfig,
    model: Seq<char>,
    query: Seq<char>,
    documents: Seq<&str>,
)
    ensures
        ({
            let request = crate::remote::rerank_request(
                config@,
                model,
                query,
                crate::json::texts_view(documents),
            );
            &&& request.url == config.endpoint@ + "/rerank"@
            &&& config.api_key@.len() > 0 ==> request.bearer == Some(config.api_key@)
            &&& config.api_key@.len() == 0 ==> request.bearer is None
            &&& exists|m: Map<Seq<char>, crate::json::Member>, given: Seq<Seq<char>>|
                {
                    &&& request.body == #[trigger] crate::json::object_text(m)
                    &&& #[trigger] m.contains_pair("documents"@, crate::json::Member::Texts(given))
                    &&& given.len() == documents.len()
                    &&& forall|i: int|
                        0 <= i < documents.len() ==> #[trigger] given[i] == documents[i]@
                    &&& m.contains_pair("query"@, crate::json::Member::Text(query))
                    &&& m.contains_pair("model"@, crate::json::Member::Text(model))
                    &&& forall|name: Seq<char>| #[trigger]
                        m.contains_key(name) ==> name == "query"@ || name == "documents"@ || name
                            == "model"@
                }
        }),
{
    let given = crate::json::texts_view(documents);
    let m = crate::remote::rerank_members(model, query, given);
    crate::remote::law_rerank_members(model, query, given);
    law_post_goes_to_the_endpoint(config, "/rerank"@, crate::json::object_text(m));
    assert(crate::remote::rerank_request(config@, model, query, given).body
        == crate::json::object_text(m));
    assert(m.contains_pair("documents"@, crate::json::Member::Texts(given)));
}

/// A rerank model that is asked for and is more than white space is the one used, whatever
/// the environment names. Without one it is what the environment names, as it stands, and
/// without that too the default model.
pub proof fn law_rerank_model_is_the_one_asked_for(asked: Seq<char>, environment: Seq<char>)
    ensures
        crate::text::trimmed(asked).len() > 0 ==> crate::remote::rerank_model(
            Some(asked),
            Some(environment),
        ) == crate::text::trimmed(asked) && crate::remote::rerank_model(Some(asked), None)
            == crate::text::trimmed(asked),
        crate::text::trimmed(asked).len() == 0 ==> crate::remote::rerank_model(
            Some(asked),
            Some(environment),
        ) == environment && crate::remote::rerank_model(Some(asked), None) == "rerank-3-lite"@,
        crate::remote::rerank_model(None, Some(environment)) == environment,
        crate::remote::rerank_model(None, None) == "rerank-3-lite"@,
{
}

/// A reply is one of success where its status is in the two hundreds, and nowhere else.
pub proof fn law_success_is_in_the_two_hundreds(status: u16)
    ensures
        crate::remote::is_success(status) <==> status / 100 == 2,
{
}

/// Vectors fit where each of them has the given number of numbers. The one complained of
/// has another number, and all before it fit.
pub proof fn law_vectors_fit_one_by_one<T>(vectors: Seq<Seq<T>>, dims: nat)
    ensures
        crate::remote::all_of_dims(vectors, dims) <==> (forall|k: int|
            0 <= k < vectors.len() ==> (#[trigger] vectors[k]).len() == dims),
        forall|k: int| #[trigger]
            crate::remote::first_of_other_dims(vectors, dims, k) ==> 0 <= k < vectors.len()
                && vectors[k].len() != dims && (forall|j: int|
                0 <= j < k ==> (#[trigger] vectors[j]).len() == dims),
{
    assert forall|k: int| #[trigger]
        crate::remote::first_of_other_dims(vectors, dims, k) implies 0 <= k < vectors.len()
        && vectors[k].len() != dims && (forall|j: int|
        0 <= j < k ==> (#[trigger] vectors[j]).len() == dims) by {
        assert forall|j: int| 0 <= j < k implies (#[trigger] vectors[j]).len() == dims by {
            assert(vectors.take(k)[j] == vectors[j]);
        }
    }
}

/// The next batch of a job is made of the texts that follow those with vectors, each whole
/// and in their order: all of them, or as many as a request carries.
pub proof fn law_next_batch_goes_on_where_the_vectors_end<'a, T>(job: EmbedJob<'a, T>)
    requires
        job.vectors().len() <= job.texts().len(),
    ensures
        ({
            let done = job.vectors().len();
            let left = job.texts().len() - done;
            &&& job.next_batch().len() == (if left <= 96 {
                left
            } else {
                96
            })
            &&& forall|j: int|
                0 <= j < job.next_batch().len() ==> #[trigger] job.next_batch()[j]
                    == job.texts()[done + j]
        }),
{
}

/// Jobs that are the same task ask the same endpoint for the same texts in the same way.
pub proof fn law_same_task_is_the_same_in_all<'a, T>(a: EmbedJob<'a, T>, b: EmbedJob<'a, T>)
    requires
        a.same_task(b),
    ensures
        a.config() == b.config(),
        a.dims() == b.dims(),
        a.texts() == b.texts(),
        a.input_type() == b.input_type(),
{
}

/// What users are told where a remote endpoint cannot be used or its reply does not fit.
pub proof fn law_remote_messages(error: RemoteError)
    ensures
        ({
            let text = crate::remote::message_text(error@);
            match error {
                RemoteError::MissingModel => text
                    == "MEMEX_EMBEDDINGS_ENDPOINT is set but MEMEX_EMBEDDINGS_MODEL is empty"@,
                RemoteError::InvalidDimensions { complaint } => text == complaint@,
                RemoteError::MissingDimensions => text
                    == "remote embeddings require MEMEX_EMBEDDINGS_DIMENSIONS (the API does not report output size before the first call)"@,
                RemoteError::Http { service, status, snippet } => match service {
                    Service::Embeddings => text == "remote embeddings"@ + " HTTP "@ + status@
                        + ": "@ + snippet@,
                    Service::Rerank => text == "remote rerank"@ + " HTTP "@ + status@ + ": "@
                        + snippet@,
                },
                RemoteError::VectorCount { vectors, inputs } => text
                    == "remote embeddings returned "@ + crate::text::decimal_text(vectors as nat)
                    + " vectors for "@ + crate::text::decimal_text(inputs as nat) + " inputs"@,
                RemoteError::VectorDims { dims, expected } => text
                    == "remote embeddings returned "@ + crate::text::decimal_text(dims as nat)
                    + " dims, expected "@ + crate::text::decimal_text(expected as nat),
                RemoteError::OutOfRange { index } => text
                    == "remote rerank returned out-of-range document index "@
                    + crate::text::decimal_text(index as nat),
            }
        }),
{
}

/// An error is spoken of by what it holds.
pub proof fn law_error_views_hold_the_fields(error: RemoteError)
    ensures
        error is MissingModel <==> error@ is MissingModel,
        error is MissingDimensions <==> error@ is MissingDimensions,
        error matches RemoteError::InvalidDimensions { complaint } ==> error@ == (
        crate::remote::ErrorView::InvalidDimensions { complaint: complaint@ }),
        error matches RemoteError::Http { service, status, snippet } ==> error@ == (
        crate::remote::ErrorView::Http { service, status: status@, snippet: snippet@ }),
        error matches RemoteError::VectorCount { vectors, inputs } ==> error@ == (
        crate::remote::ErrorView::VectorCount { vectors, inputs }),
        error matches RemoteError::VectorDims { dims, expected } ==> error@ == (
        crate::remote::ErrorView::VectorDims { dims, expected }),
        error matches RemoteError::OutOfRange { index } ==> error@ == (
        crate::remote::ErrorView::OutOfRange { index }),
{
}

} // verus!
