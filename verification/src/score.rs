//! Relevance scores, and the order they put records in.
use vstd::prelude::*;
use vstd::set_lib::{lemma_int_range, lemma_subset_equality, set_int_range};

verus! {

/// A relevance score: a single-precision number, held by its IEEE 754 bit pattern.
#[derive(Debug, Clone, Copy, PartialEq, Eq, Structural)]
pub struct Score {
    pub bits: u32,
}

/// The lowest pattern with the sign bit set.
pub const SIGN_BIT: u32 = 0x8000_0000;

/// The pattern of positive infinity; a magnitude beyond it is not a number.
pub const INFINITY_BITS: u32 = 0x7f80_0000;

impl Score {
    /// The pattern without its sign bit.
    pub open spec fn magnitude(self) -> int {
        if self.bits >= SIGN_BIT {
            self.bits - SIGN_BIT
        } else {
            self.bits as int
        }
    }

    /// Whether the pattern stands for no number at all.
    pub open spec fn is_nan(self) -> bool {
        self.magnitude() > INFINITY_BITS
    }

    /// An integer that orders numbers as their values do; both zeros have rank zero.
    pub open spec fn rank(self) -> int {
        if self.bits >= SIGN_BIT {
            -self.magnitude()
        } else {
            self.magnitude()
        }
    }

    /// Both scores are numbers, and `self` is the greater one.
    pub open spec fn above(self, other: Score) -> bool {
        &&& !self.is_nan()
        &&& !other.is_nan()
        &&& self.rank() > other.rank()
    }

    /// The score zero.
    pub open spec fn zero_spec() -> Score {
        Score { bits: 0 }
    }

    /// The score of a document that no reply mentions.
    pub fn zero() -> (score: Score)
        ensures
            score == Score::zero_spec(),
    {
        Score { bits: 0 }
    }

    fn exceeds(self, other: Score) -> (greater: bool)
        ensures
            greater == self.above(other),
    {
        let self_negative = self.bits >= SIGN_BIT;
        let self_magnitude: u32 = if self_negative { self.bits - SIGN_BIT } else { self.bits };
        let other_negative = other.bits >= SIGN_BIT;
        let other_magnitude: u32 = if other_negative { other.bits - SIGN_BIT } else { other.bits };
        if self_magnitude > INFINITY_BITS || other_magnitude > INFINITY_BITS {
            false
        } else if self_negative {
            other_negative && self_magnitude < other_magnitude
        } else if other_negative {
            self_magnitude > 0 || other_magnitude > 0
        } else {
            self_magnitude > other_magnitude
        }
    }
}

/// Every score is a number.
pub open spec fn all_numbers(scores: Seq<Score>) -> bool {
    forall|i: int| 0 <= i < scores.len() ==> !(#[trigger] scores[i]).is_nan()
}

/// Record `i` goes ahead of record `j`: its score is greater, or the scores do not
/// tell the two apart and `i` ranked first before.
pub open spec fn goes_ahead(scores: Seq<Score>, i: int, j: int) -> bool {
    ||| scores[i].above(scores[j])
    ||| !scores[j].above(scores[i]) && i < j
}

/// `order` lists each position of a list of length `n` once.
pub open spec fn is_order_of(order: Seq<usize>, n: nat) -> bool {
    &&& order.len() == n
    &&& order.no_duplicates()
    &&& forall|p: int| 0 <= p < n ==> (#[trigger] order[p]) < n
}

/// Where record `i` goes in `order`: ahead of the run of lower scores at its end.
pub open spec fn slot(scores: Seq<Score>, order: Seq<usize>, i: int) -> nat
    decreases order.len(),
{
    if order.len() > 0 && scores[i].above(scores[order.last() as int]) {
        slot(scores, order.drop_last(), i)
    } else {
        order.len()
    }
}

/// The order of the first `n` records: each in turn is put ahead of the run of lower
/// scores at the end of those before it.
pub open spec fn ranked_prefix(scores: Seq<Score>, n: nat) -> Seq<usize>
    decreases n,
{
    if n == 0 {
        Seq::empty()
    } else {
        let before = ranked_prefix(scores, (n - 1) as nat);
        before.insert(slot(scores, before, n - 1) as int, (n - 1) as usize)
    }
}

/// The order that `scores` put their records in, as positions in the list before.
pub open spec fn ranked(scores: Seq<Score>) -> Seq<usize> {
    ranked_prefix(scores, scores.len())
}

/// No record is followed by one that goes ahead of it.
pub open spec fn neighbours_in_order(scores: Seq<Score>, order: Seq<usize>) -> bool {
    forall|p: int|
        0 <= p < order.len() - 1 ==> goes_ahead(
            scores,
            #[trigger] order[p] as int,
            order[p + 1] as int,
        )
}

/// Every record goes ahead of all that follow it.
pub open spec fn all_in_order(scores: Seq<Score>, order: Seq<usize>) -> bool {
    forall|p: int, q: int|
        0 <= p < q < order.len() ==> goes_ahead(
            scores,
            #[trigger] order[p] as int,
            #[trigger] order[q] as int,
        )
}

proof fn lemma_slot(scores: Seq<Score>, order: Seq<usize>, i: int)
    ensures
        slot(scores, order, i) <= order.len(),
        forall|p: int|
            slot(scores, order, i) <= p < order.len() ==> scores[i].above(
                scores[#[trigger] order[p] as int],
            ),
        slot(scores, order, i) > 0 ==> !scores[i].above(
            scores[order[slot(scores, order, i) - 1] as int],
        ),
    decreases order.len(),
{
    if order.len() > 0 && scores[i].above(scores[order.last() as int]) {
        lemma_slot(scores, order.drop_last(), i);
        let s = slot(scores, order.drop_last(), i);
        assert forall|p: int| s <= p < order.len() implies scores[i].above(
            scores[#[trigger] order[p] as int],
        ) by {
            if p < order.len() - 1 {
                assert(order.drop_last()[p] == order[p]);
            }
        }
        if s > 0 {
            assert(order.drop_last()[s - 1] == order[s - 1]);
        }
    }
}

proof fn lemma_ranked_prefix(scores: Seq<Score>, n: nat)
    requires
        n <= scores.len(),
        n <= usize::MAX,
    ensures
        is_order_of(ranked_prefix(scores, n), n),
        neighbours_in_order(scores, ranked_prefix(scores, n)),
    decreases n,
{
    if n > 0 {
        let m = (n - 1) as nat;
        lemma_ranked_prefix(scores, m);
        let before = ranked_prefix(scores, m);
        lemma_slot(scores, before, m as int);
        let s = slot(scores, before, m as int) as int;
        let order = before.insert(s, m as usize);
        assert(order == ranked_prefix(scores, n));
        assert forall|p: int| 0 <= p < order.len() implies #[trigger] order[p] == (if p < s {
            before[p]
        } else if p == s {
            m as usize
        } else {
            before[p - 1]
        }) by {}
        assert forall|p: int| 0 <= p < n implies (#[trigger] order[p]) < n by {
            if p < s {
                assert(before[p] < m);
            } else if p > s {
                assert(before[p - 1] < m);
            }
        }
        assert forall|p: int, q: int| 0 <= p < q < order.len() implies order[p] != order[q] by {
            if p < s {
                assert(before[p] < m);
            } else if p > s {
                assert(before[p - 1] < m);
            }
            if q < s {
                assert(before[q] < m);
            } else if q > s {
                assert(before[q - 1] < m);
            }
        }
        assert forall|p: int| 0 <= p < order.len() - 1 implies goes_ahead(
            scores,
            #[trigger] order[p] as int,
            order[p + 1] as int,
        ) by {
            if p + 1 < s {
                assert(goes_ahead(scores, before[p] as int, before[p + 1] as int));
            } else if p + 1 == s {
                assert(before[p] < m);
            } else if p == s {
                assert(scores[m as int].above(scores[before[p] as int]));
            } else {
                assert(goes_ahead(scores, before[p - 1] as int, before[p - 1 + 1] as int));
            }
        }
    }
}

/// The order of any scores lists every record once, and no record in it is followed by
/// one that goes ahead of it. This holds of scores that are no numbers too.
pub proof fn law_ranked_is_an_order(scores: Seq<Score>)
    requires
        scores.len() <= usize::MAX,
    ensures
        is_order_of(ranked(scores), scores.len()),
        neighbours_in_order(scores, ranked(scores)),
{
    lemma_ranked_prefix(scores, scores.len());
}

proof fn lemma_neighbours_chain(scores: Seq<Score>, order: Seq<usize>, p: int, q: int)
    requires
        all_numbers(scores),
        is_order_of(order, scores.len()),
        neighbours_in_order(scores, order),
        0 <= p < q < order.len(),
    ensures
        goes_ahead(scores, order[p] as int, order[q] as int),
    decreases q - p,
{
    assert(order[p] < scores.len());
    assert(order[q] < scores.len());
    if p + 1 < q {
        lemma_neighbours_chain(scores, order, p + 1, q);
        assert(goes_ahead(scores, order[p] as int, order[p + 1] as int));
        assert(order[p + 1] < scores.len());
    } else {
        assert(goes_ahead(scores, order[p] as int, order[p + 1] as int));
    }
}

/// Where every score is a number, records are in descending order of score, and records
/// of equal score keep the order they had.
pub proof fn law_ranked_sorts_descending(scores: Seq<Score>)
    requires
        scores.len() <= usize::MAX,
        all_numbers(scores),
    ensures
        all_in_order(scores, ranked(scores)),
{
    let order = ranked(scores);
    law_ranked_is_an_order(scores);
    assert forall|p: int, q: int| 0 <= p < q < order.len() implies goes_ahead(
        scores,
        #[trigger] order[p] as int,
        #[trigger] order[q] as int,
    ) by {
        lemma_neighbours_chain(scores, order, p, q);
    }
}

/// No score is above another.
pub open spec fn none_above(scores: Seq<Score>) -> bool {
    forall|i: int, j: int|
        0 <= i < scores.len() && 0 <= j < scores.len() ==> !(#[trigger] scores[i]).above(
            #[trigger] scores[j],
        )
}

proof fn lemma_ties_keep_their_order(scores: Seq<Score>, n: nat)
    requires
        n <= scores.len() <= usize::MAX,
        none_above(scores),
    ensures
        ranked_prefix(scores, n) == Seq::new(n, |p: int| p as usize),
    decreases n,
{
    if n > 0 {
        let before = ranked_prefix(scores, (n - 1) as nat);
        lemma_ties_keep_their_order(scores, (n - 1) as nat);
        if before.len() > 0 {
            assert(before.last() == n - 2);
            assert(!scores[n - 1].above(scores[n - 2]));
        }
        assert(ranked_prefix(scores, n) =~= Seq::new(n, |p: int| p as usize));
    } else {
        assert(ranked_prefix(scores, n) =~= Seq::new(n, |p: int| p as usize));
    }
}

/// Where no score is above another, every record keeps its place.
pub proof fn law_ties_keep_their_order(scores: Seq<Score>)
    requires
        scores.len() <= usize::MAX,
        none_above(scores),
    ensures
        ranked(scores) == Seq::new(scores.len(), |p: int| p as usize),
{
    lemma_ties_keep_their_order(scores, scores.len());
}

/// An order lists every record: none is left out.
pub proof fn law_order_covers_all(order: Seq<usize>, n: nat)
    requires
        is_order_of(order, n),
    ensures
        forall|i: usize| i < n ==> #[trigger] order.contains(i),
{
    let positions = Seq::new(n, |p: int| order[p] as int);
    assert(positions.no_duplicates());
    positions.unique_seq_to_set();
    lemma_int_range(0, n as int);
    let all = set_int_range(0, n as int);
    assert(positions.to_set().subset_of(all));
    lemma_subset_equality(positions.to_set(), all);
    assert forall|i: usize| i < n implies #[trigger] order.contains(i) by {
        assert(all.contains(i as int));
        assert(positions.contains(i as int));
        let p = choose|p: int| 0 <= p < positions.len() && positions[p] == i as int;
        assert(order[p] == i);
    }
}

proof fn lemma_same_prefix(scores: Seq<Score>, a: Seq<usize>, b: Seq<usize>, k: nat)
    requires
        is_order_of(a, scores.len()),
        all_in_order(scores, a),
        is_order_of(b, scores.len()),
        all_in_order(scores, b),
        k <= scores.len(),
    ensures
        forall|p: int| 0 <= p < k ==> #[trigger] a[p] == b[p],
    decreases k,
{
    if k > 0 {
        let last = k - 1;
        lemma_same_prefix(scores, a, b, last as nat);
        law_order_covers_all(a, scores.len());
        law_order_covers_all(b, scores.len());
        assert(a[last] < scores.len());
        assert(b[last] < scores.len());
        assert(b.contains(a[last]));
        assert(a.contains(b[last]));
        let q = choose|q: int| 0 <= q < b.len() && b[q] == a[last];
        let r = choose|r: int| 0 <= r < a.len() && a[r] == b[last];
        if q < last {
            assert(a[q] == b[q]);
        }
        if r < last {
            assert(a[r] == b[r]);
        }
        if a[last] != b[last] {
            assert(goes_ahead(scores, a[last] as int, a[r] as int));
            assert(goes_ahead(scores, b[last] as int, b[q] as int));
        }
    }
}

/// Where every score is a number, only one order is descending with ties kept: the
/// scores and the order before decide the order after.
pub proof fn law_ranked_is_unique(scores: Seq<Score>, order: Seq<usize>)
    requires
        scores.len() <= usize::MAX,
        all_numbers(scores),
        is_order_of(order, scores.len()),
        all_in_order(scores, order),
    ensures
        order == ranked(scores),
{
    law_ranked_is_an_order(scores);
    law_ranked_sorts_descending(scores);
    lemma_same_prefix(scores, order, ranked(scores), scores.len());
    assert(order =~= ranked(scores));
}

/// Orders records by descending score. Records that their scores do not tell apart
/// keep the order they had; a score that is no number is told apart from none.
pub fn order_by_score(scores: Vec<Score>) -> (order: Vec<usize>)
    ensures
        order@ == ranked(scores@),
        is_order_of(order@, scores@.len()),
        neighbours_in_order(scores@, order@),
        all_numbers(scores@) ==> all_in_order(scores@, order@),
{
    let mut order: Vec<usize> = Vec::new();
    let mut i: usize = 0;
    while i < scores.len()
        invariant
            i <= scores.len(),
            order@ == ranked_prefix(scores@, i as nat),
        decreases scores.len() - i,
    {
        proof {
            lemma_ranked_prefix(scores@, i as nat);
        }
        let mut at: usize = order.len();
        assert(order@.take(at as int) == order@);
        while at > 0 && scores[i].exceeds(scores[order[at - 1]])
            invariant
                i < scores.len(),
                at <= order.len(),
                is_order_of(order@, i as nat),
                slot(scores@, order@, i as int) == slot(scores@, order@.take(at as int), i as int),
            decreases at,
        {
            assert(order@.take(at as int).drop_last() == order@.take(at - 1));
            at = at - 1;
        }
        order.insert(at, i);
        i = i + 1;
    }
    proof {
        law_ranked_is_an_order(scores@);
        if all_numbers(scores@) {
            law_ranked_sorts_descending(scores@);
        }
    }
    order
}

/// One entry of a reranker's reply: the score of the document at `index`.
#[derive(Debug, Clone, Copy, PartialEq, Eq, Structural)]
pub struct RerankHit {
    pub index: usize,
    pub score: Score,
}

/// The score that `hits` give document `i`: that of its last hit, or zero without one.
pub open spec fn last_score(hits: Seq<RerankHit>, i: int) -> Score
    decreases hits.len(),
{
    if hits.len() == 0 {
        Score::zero_spec()
    } else if hits.last().index == i {
        hits.last().score
    } else {
        last_score(hits.drop_last(), i)
    }
}

/// The scores that `hits` give `n` documents, in the order of the documents.
pub open spec fn aligned(hits: Seq<RerankHit>, n: nat) -> Seq<Score> {
    Seq::new(n, |i: int| last_score(hits, i))
}

/// In an aligned reply a document without a hit scores zero, and one with hits scores what
/// the last of them says.
pub proof fn law_aligned_takes_the_last_hit(hits: Seq<RerankHit>, n: nat, i: int)
    requires
        0 <= i < n,
    ensures
        (forall|k: int| 0 <= k < hits.len() ==> (#[trigger] hits[k]).index != i) ==> aligned(
            hits,
            n,
        )[i] == Score::zero_spec(),
        forall|k: int|
            0 <= k < hits.len() && (#[trigger] hits[k]).index == i && (forall|later: int|
                k < later < hits.len() ==> (#[trigger] hits[later]).index != i) ==> aligned(
                hits,
                n,
            )[i] == hits[k].score,
    decreases hits.len(),
{
    if hits.len() > 0 {
        let earlier = hits.drop_last();
        law_aligned_takes_the_last_hit(earlier, n, i);
        assert(aligned(earlier, n)[i] == last_score(earlier, i));
        assert(hits[hits.len() - 1] == hits.last());
        assert forall|k: int|
            0 <= k < hits.len() && (#[trigger] hits[k]).index == i && (forall|later: int|
                k < later < hits.len() ==> (#[trigger] hits[later]).index != i) implies aligned(
            hits,
            n,
        )[i] == hits[k].score by {
            if k < hits.len() - 1 {
                assert(earlier[k] == hits[k]);
                assert forall|later: int| k < later < earlier.len() implies (
                #[trigger] earlier[later]).index != i by {
                    assert(hits[later].index != i);
                }
            }
        }
        if forall|k: int| 0 <= k < hits.len() ==> (#[trigger] hits[k]).index != i {
            assert forall|k: int| 0 <= k < earlier.len() implies (#[trigger] earlier[k]).index
                != i by {
                assert(hits[k].index != i);
            }
        }
    }
}

/// No two hits are for the same document.
pub open spec fn one_hit_each(hits: Seq<RerankHit>) -> bool {
    forall|k: int, l: int|
        0 <= k < l < hits.len() ==> (#[trigger] hits[k]).index != (#[trigger] hits[l]).index
}

/// Where no document has two hits, the order of the hits does not matter.
pub proof fn law_aligned_ignores_hit_order(a: Seq<RerankHit>, b: Seq<RerankHit>, n: nat)
    requires
        one_hit_each(a),
        one_hit_each(b),
        forall|hit: RerankHit| #[trigger] a.contains(hit) <==> b.contains(hit),
    ensures
        aligned(a, n) == aligned(b, n),
{
    assert forall|i: int| 0 <= i < n implies aligned(a, n)[i] == aligned(b, n)[i] by {
        law_aligned_takes_the_last_hit(a, n, i);
        law_aligned_takes_the_last_hit(b, n, i);
        if exists|k: int| 0 <= k < a.len() && (#[trigger] a[k]).index == i {
            let k = choose|k: int| 0 <= k < a.len() && (#[trigger] a[k]).index == i;
            assert(a.contains(a[k]));
            let l = choose|l: int| 0 <= l < b.len() && b[l] == a[k];
            assert(aligned(a, n)[i] == a[k].score);
            assert(aligned(b, n)[i] == b[l].score);
        } else {
            assert forall|l: int| 0 <= l < b.len() implies (#[trigger] b[l]).index != i by {
                assert(b.contains(b[l]));
                assert(a.contains(b[l]));
                let k = choose|k: int| 0 <= k < a.len() && a[k] == b[l];
                assert(a[k].index != i);
            }
        }
    }
    assert(aligned(a, n) =~= aligned(b, n));
}

/// Every hit is for one of `n` documents.
pub open spec fn all_in_range(hits: Seq<RerankHit>, n: nat) -> bool {
    forall|k: int| 0 <= k < hits.len() ==> (#[trigger] hits[k]).index < n
}

/// Hit `k` is the first that is for none of `n` documents.
pub open spec fn first_out_of_range(hits: Seq<RerankHit>, n: nat, k: int) -> bool {
    &&& 0 <= k < hits.len()
    &&& hits[k].index >= n
    &&& all_in_range(hits.take(k), n)
}

/// Aligns a reply with the `documents` it is for. A reply with a hit for no document is
/// refused with the index of the first such hit.
pub fn align_scores(hits: &Vec<RerankHit>, documents: usize) -> (r: Result<Vec<Score>, usize>)
    ensures
        r is Ok <==> all_in_range(hits@, documents as nat),
        r matches Ok(scores) ==> scores@ == aligned(hits@, documents as nat),
        r matches Err(index) ==> exists|k: int| #[trigger]
            first_out_of_range(hits@, documents as nat, k) && index == hits@[k].index,
{
    let mut scores: Vec<Score> = Vec::new();
    let mut i: usize = 0;
    while i < documents
        invariant
            i <= documents,
            scores@ == Seq::new(i as nat, |j: int| Score::zero_spec()),
        decreases documents - i,
    {
        scores.push(Score::zero());
        i = i + 1;
    }
    assert(scores@ == aligned(hits@.take(0), documents as nat));
    let mut k: usize = 0;
    while k < hits.len()
        invariant
            k <= hits.len(),
            all_in_range(hits@.take(k as int), documents as nat),
            scores@ == aligned(hits@.take(k as int), documents as nat),
        decreases hits.len() - k,
    {
        let hit = hits[k];
        if hit.index >= documents {
            assert(first_out_of_range(hits@, documents as nat, k as int));
            return Err(hit.index);
        }
        scores.set(hit.index, hit.score);
        let ghost seen = hits@.take(k + 1);
        assert(seen.drop_last() == hits@.take(k as int));
        assert(seen.last() == hit);
        assert forall|j: int| 0 <= j < seen.len() implies (#[trigger] seen[j]).index < documents by {
            if j < k {
                assert(hits@.take(k as int)[j] == seen[j]);
            }
        }
        k = k + 1;
    }
    assert(hits@.take(k as int) == hits@);
    Ok(scores)
}

} // verus!
