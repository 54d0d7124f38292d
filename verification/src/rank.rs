//! The ranker: every dictionary entry paired with its edit distance to the
//! query, ordered by distance, dictionary order kept among equal distances.

use vstd::prelude::*;

use crate::distance::edit_dist;
use crate::distance::wagner_fischer;

verus! {

/// A dictionary word together with its edit distance to the query word.
pub struct SpellCheckSuggestion {
    pub distance: usize,
    pub correct_word: String,
}

/// The mathematical content of a suggestion: a distance and a word.
pub ghost struct SuggestionModel {
    pub distance: nat,
    pub word: Seq<char>,
}

impl View for SpellCheckSuggestion {
    type V = SuggestionModel;

    open spec fn view(&self) -> SuggestionModel {
        SuggestionModel { distance: self.distance as nat, word: self.correct_word@ }
    }
}

impl DeepView for SpellCheckSuggestion {
    type V = SuggestionModel;

    open spec fn deep_view(&self) -> SuggestionModel {
        self.view()
    }
}

/// Every dictionary entry paired with its distance to the query, in
/// dictionary order.
pub open spec fn suggestions_for(query: Seq<char>, dict: Seq<Seq<char>>) -> Seq<SuggestionModel> {
    Seq::new(
        dict.len(),
        |i: int| SuggestionModel { distance: edit_dist(query, dict[i]), word: dict[i] },
    )
}

/// `x` placed after every suggestion of `s` whose distance is at most
/// `x.distance`, and before the rest. Inserting each newcomer behind its
/// equals is what keeps the sort stable.
pub open spec fn insert_by_distance(s: Seq<SuggestionModel>, x: SuggestionModel) -> Seq<
    SuggestionModel,
>
    decreases s.len(),
{
    if s.len() == 0 {
        seq![x]
    } else if s.last().distance > x.distance {
        insert_by_distance(s.drop_last(), x).push(s.last())
    } else {
        s.push(x)
    }
}

/// The suggestions of `s` in non-decreasing order of distance, suggestions of
/// equal distance in their order in `s`: each suggestion inserted, in turn,
/// behind the ones already placed that it does not beat.
pub open spec fn rank_by_distance(s: Seq<SuggestionModel>) -> Seq<SuggestionModel>
    decreases s.len(),
{
    if s.len() == 0 {
        Seq::empty()
    } else {
        insert_by_distance(rank_by_distance(s.drop_last()), s.last())
    }
}

/// What ranking a dictionary against a query returns.
pub open spec fn rank_spec(query: Seq<char>, dict: Seq<Seq<char>>) -> Seq<SuggestionModel> {
    rank_by_distance(suggestions_for(query, dict))
}

/// Distances never decrease along the sequence.
pub open spec fn sorted_by_distance(s: Seq<SuggestionModel>) -> bool {
    forall|i: int, j: int| 0 <= i < j < s.len() ==> s[i].distance <= s[j].distance
}

/// Inserting by distance keeps the count.
proof fn lemma_insert_len(s: Seq<SuggestionModel>, x: SuggestionModel)
    ensures
        insert_by_distance(s, x).len() == s.len() + 1,
    decreases s.len(),
{
    if s.len() > 0 && s.last().distance > x.distance {
        lemma_insert_len(s.drop_last(), x);
    }
}

/// Ranking keeps the count: no suggestion appears or disappears.
proof fn lemma_rank_len(s: Seq<SuggestionModel>)
    ensures
        rank_by_distance(s).len() == s.len(),
    decreases s.len(),
{
    if s.len() > 0 {
        lemma_rank_len(s.drop_last());
        lemma_insert_len(rank_by_distance(s.drop_last()), s.last());
    }
}

/// Where `insert_by_distance` places the newcomer: right after the last
/// suggestion whose distance does not exceed the newcomer's.
spec fn insert_pos(s: Seq<SuggestionModel>, x: SuggestionModel) -> int
    decreases s.len(),
{
    if s.len() == 0 {
        0
    } else if s.last().distance > x.distance {
        insert_pos(s.drop_last(), x)
    } else {
        s.len() as int
    }
}

/// `insert_by_distance` is insertion at `insert_pos`: everything at or past
/// that position has a strictly greater distance, everything before it does
/// not beat the newcomer.
proof fn lemma_insert_pos(s: Seq<SuggestionModel>, x: SuggestionModel)
    ensures
        0 <= insert_pos(s, x) <= s.len(),
        forall|k: int| insert_pos(s, x) <= k < s.len() ==> s[k].distance > x.distance,
        insert_pos(s, x) > 0 ==> s[insert_pos(s, x) - 1].distance <= x.distance,
        insert_by_distance(s, x) == s.insert(insert_pos(s, x), x),
    decreases s.len(),
{
    let p = insert_pos(s, x);
    if s.len() == 0 {
        assert(insert_by_distance(s, x) =~= s.insert(0, x));
    } else if s.last().distance > x.distance {
        lemma_insert_pos(s.drop_last(), x);
        assert forall|k: int| p <= k < s.len() implies s[k].distance > x.distance by {
            if k < s.len() - 1 {
                assert(s[k] == s.drop_last()[k]);
            }
        }
        assert(s.drop_last().insert(p, x).push(s.last()) =~= s.insert(p, x));
    } else {
        assert(insert_by_distance(s, x) =~= s.insert(s.len() as int, x));
    }
}

/// Inserting by distance keeps a sorted sequence sorted.
proof fn lemma_insert_sorted(s: Seq<SuggestionModel>, x: SuggestionModel)
    requires
        sorted_by_distance(s),
    ensures
        sorted_by_distance(insert_by_distance(s, x)),
{
    lemma_insert_pos(s, x);
    let p = insert_pos(s, x);
    let t = s.insert(p, x);
    assert forall|i: int, j: int| 0 <= i < j < t.len() implies t[i].distance <= t[j].distance by {
        if i < p {
            assert(t[i] == s[i]);
        }
        if j < p {
            assert(t[j] == s[j]);
        }
        if i > p {
            assert(t[i] == s[i - 1]);
        }
        if j > p {
            assert(t[j] == s[j - 1]);
        }
        if i == p {
            assert(t[i] == x);
        }
        if j == p {
            assert(t[j] == x);
        }
        if j == p && 0 < p {
            assert(s[i].distance <= s[p - 1].distance);
        }
        if i == p && j > p {
            assert(s[j - 1].distance > x.distance);
        }
    }
}

/// The ranking is sorted: distances never decrease along the result.
proof fn lemma_rank_sorted(s: Seq<SuggestionModel>)
    ensures
        sorted_by_distance(rank_by_distance(s)),
    decreases s.len(),
{
    if s.len() > 0 {
        lemma_rank_sorted(s.drop_last());
        lemma_insert_sorted(rank_by_distance(s.drop_last()), s.last());
    }
}

/// The suggestions of `s` whose distance is exactly `d`, in their order in
/// `s`.
pub open spec fn with_distance(s: Seq<SuggestionModel>, d: nat) -> Seq<SuggestionModel>
    decreases s.len(),
{
    if s.len() == 0 {
        s
    } else if s.last().distance == d {
        with_distance(s.drop_last(), d).push(s.last())
    } else {
        with_distance(s.drop_last(), d)
    }
}

/// A suggestion appended at the end lands at the end of its distance class.
proof fn lemma_with_distance_push(s: Seq<SuggestionModel>, e: SuggestionModel, d: nat)
    ensures
        with_distance(s.push(e), d) == if e.distance == d {
            with_distance(s, d).push(e)
        } else {
            with_distance(s, d)
        },
{
    assert(s.push(e).drop_last() =~= s);
    assert(s.push(e).last() == e);
}

/// Inserting by distance appends the newcomer to its own distance class and
/// leaves every other class alone.
proof fn lemma_insert_with_distance(s: Seq<SuggestionModel>, x: SuggestionModel, d: nat)
    ensures
        with_distance(insert_by_distance(s, x), d) == if x.distance == d {
            with_distance(s, d).push(x)
        } else {
            with_distance(s, d)
        },
    decreases s.len(),
{
    if s.len() == 0 {
        assert(seq![x] =~= Seq::<SuggestionModel>::empty().push(x));
        lemma_with_distance_push(Seq::<SuggestionModel>::empty(), x, d);
    } else if s.last().distance > x.distance {
        lemma_insert_with_distance(s.drop_last(), x, d);
        lemma_with_distance_push(insert_by_distance(s.drop_last(), x), s.last(), d);
    } else {
        lemma_with_distance_push(s, x, d);
    }
}

/// Ranking keeps each distance class as it stood: the suggestions of one
/// distance appear in the result in their original order.
proof fn lemma_rank_by_distance_stable(s: Seq<SuggestionModel>, d: nat)
    ensures
        with_distance(rank_by_distance(s), d) == with_distance(s, d),
    decreases s.len(),
{
    if s.len() > 0 {
        lemma_rank_by_distance_stable(s.drop_last(), d);
        lemma_insert_with_distance(rank_by_distance(s.drop_last()), s.last(), d);
    }
}

/// Ranking returns one suggestion per dictionary entry: taking any prefix of
/// a result over a shorter dictionary takes the whole result.
pub proof fn lemma_rank_count(query: Seq<char>, dict: Seq<Seq<char>>)
    ensures
        rank_spec(query, dict).len() == dict.len(),
{
    lemma_rank_len(suggestions_for(query, dict));
}

/// The ranked result is in non-decreasing order of distance.
pub proof fn lemma_rank_ordered(query: Seq<char>, dict: Seq<Seq<char>>)
    ensures
        sorted_by_distance(rank_spec(query, dict)),
{
    lemma_rank_sorted(suggestions_for(query, dict));
}

/// Every element of an insertion comes from the sequence or is the newcomer.
proof fn lemma_insert_elems(s: Seq<SuggestionModel>, x: SuggestionModel, k: int)
    requires
        0 <= k < insert_by_distance(s, x).len(),
    ensures
        insert_by_distance(s, x)[k] == x || exists|t: int|
            0 <= t < s.len() && insert_by_distance(s, x)[k] == s[t],
{
    lemma_insert_pos(s, x);
    let p = insert_pos(s, x);
    s.insert_ensures(p, x);
    if k < p {
        assert(insert_by_distance(s, x)[k] == s[k]);
    } else if k > p {
        assert(insert_by_distance(s, x)[k] == s[k - 1]);
    }
}

/// Every suggestion the ranker yields is one of the given suggestions.
proof fn lemma_rank_by_distance_elems(s: Seq<SuggestionModel>)
    ensures
        forall|k: int|
            0 <= k < rank_by_distance(s).len() ==> exists|t: int|
                0 <= t < s.len() && #[trigger] rank_by_distance(s)[k] == s[t],
    decreases s.len(),
{
    if s.len() > 0 {
        lemma_rank_by_distance_elems(s.drop_last());
        let r1 = rank_by_distance(s.drop_last());
        assert forall|k: int| 0 <= k < rank_by_distance(s).len() implies exists|t: int|
            0 <= t < s.len() && #[trigger] rank_by_distance(s)[k] == s[t] by {
            lemma_insert_elems(r1, s.last(), k);
            if rank_by_distance(s)[k] == s.last() {
                assert(0 <= s.len() - 1 < s.len() && rank_by_distance(s)[k] == s[s.len() - 1]);
            } else {
                let t0 = choose|t: int| 0 <= t < r1.len() && rank_by_distance(s)[k] == r1[t];
                assert(exists|t: int| 0 <= t < s.drop_last().len() && r1[t0] == s.drop_last()[t]);
                let t1 = choose|t: int| 0 <= t < s.drop_last().len() && r1[t0] == s.drop_last()[t];
                assert(s.drop_last()[t1] == s[t1]);
                assert(rank_by_distance(s)[k] == s[t1]);
            }
        }
    }
}

/// Every suggestion the ranker yields carries the exact edit distance between
/// the query and its word.
pub proof fn lemma_rank_distances(query: Seq<char>, dict: Seq<Seq<char>>)
    ensures
        forall|k: int|
            0 <= k < rank_spec(query, dict).len() ==> #[trigger] rank_spec(query, dict)[k].distance
                == edit_dist(query, rank_spec(query, dict)[k].word),
{
    let s = suggestions_for(query, dict);
    lemma_rank_by_distance_elems(s);
    assert forall|k: int| 0 <= k < rank_spec(query, dict).len() implies #[trigger] rank_spec(
        query,
        dict,
    )[k].distance == edit_dist(query, rank_spec(query, dict)[k].word) by {
        let t = choose|t: int| 0 <= t < s.len() && rank_by_distance(s)[k] == s[t];
        assert(s[t].distance == edit_dist(query, s[t].word));
    }
}

/// Stability of the ranker: for any dictionary and query, two entries at the
/// same distance to the query keep their dictionary order — each distance
/// class of the ranked result is exactly its dictionary-ordered counterpart.
pub proof fn lemma_rank_stable(query: Seq<char>, dict: Seq<Seq<char>>, d: nat)
    ensures
        with_distance(rank_spec(query, dict), d) == with_distance(
            suggestions_for(query, dict),
            d,
        ),
{
    lemma_rank_by_distance_stable(suggestions_for(query, dict), d);
}

/// Ranks every dictionary entry by its edit distance to `word`: the result
/// pairs each entry with its exact distance, in non-decreasing order of
/// distance, entries of equal distance in dictionary order, duplicates kept.
pub fn spell_check(word: &str, dictionary: &[String]) -> (results: Vec<SpellCheckSuggestion>)
    ensures
        results.deep_view() == rank_spec(word@, dictionary.deep_view()),
{
    let ghost dictv = dictionary.deep_view();
    let mut unsorted: Vec<SpellCheckSuggestion> = Vec::new();
    let mut k: usize = 0;
    while k < dictionary.len()
        invariant
            k <= dictionary@.len(),
            dictv == dictionary.deep_view(),
            dictv.len() == dictionary@.len(),
            unsorted.deep_view() == suggestions_for(word@, dictv.take(k as int)),
        decreases dictionary@.len() - k,
    {
        let entry = &dictionary[k];
        let d = wagner_fischer(word, entry.as_str());
        let ghost before = unsorted.deep_view();
        unsorted.push(SpellCheckSuggestion { distance: d, correct_word: entry.clone() });
        proof {
            assert(entry@ == dictv[k as int]);
            assert(unsorted.deep_view() =~= before.push(
                SuggestionModel { distance: d as nat, word: entry@ },
            ));
            assert(suggestions_for(word@, dictv.take(k as int + 1)) =~= suggestions_for(
                word@,
                dictv.take(k as int),
            ).push(SuggestionModel { distance: edit_dist(word@, dictv[k as int]), word: dictv[k as int] }));
        }
        k += 1;
    }
    proof {
        assert(dictv.take(dictv.len() as int) =~= dictv);
    }

    let ghost all = unsorted.deep_view();
    let total = unsorted.len();
    let mut results: Vec<SpellCheckSuggestion> = Vec::new();
    let mut t: usize = 0;
    while t < total
        invariant
            t <= total,
            total == all.len(),
            all == unsorted.deep_view(),
            total == unsorted@.len(),
            results.deep_view() == rank_by_distance(all.take(t as int)),
            results@.len() == results.deep_view().len(),
        decreases total - t,
    {
        let item = SpellCheckSuggestion {
            distance: unsorted[t].distance,
            correct_word: unsorted[t].correct_word.clone(),
        };
        let ghost s = results.deep_view();
        let ghost x = item@;
        assert(x == all[t as int]);
        let mut p: usize = results.len();
        while p > 0 && results[p - 1].distance > item.distance
            invariant
                p <= results@.len(),
                s == results.deep_view(),
                x == item@,
                results@.len() == s.len(),
                forall|k: int| p <= k < s.len() ==> s[k].distance > x.distance,
            decreases p,
        {
            assert(s[p - 1].distance == results@[p - 1].distance as nat);
            p -= 1;
        }
        proof {
            lemma_insert_pos(s, x);
            let q = insert_pos(s, x);
            if (p as int) < q {
                assert(s[q - 1].distance > x.distance);
            }
            if q < p as int {
                assert(s[p - 1].distance == results@[p - 1].distance as nat);
                assert(s[p - 1].distance > x.distance);
            }
            assert(p as int == q);
        }
        let ghost before = results@;
        results.insert(p, item);
        proof {
            before.insert_ensures(p as int, item);
            s.insert_ensures(p as int, x);
            assert(results.deep_view() =~= s.insert(p as int, x));
            assert(all.take(t as int + 1).drop_last() =~= all.take(t as int));
            assert(all.take(t as int + 1).last() == all[t as int]);
        }
        t += 1;
    }
    proof {
        assert(all.take(total as int) =~= all);
    }
    results
}

} // verus!
