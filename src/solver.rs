//! The query: from the dictionary, the seed phrase and the limits to the ranked list of
//! multi-word anagrams.
use crate::alphabet::{
    fingerprint, letter_frequencies, letter_primes, letter_slots, primes, slot_of, slot_order,
    total_occurrences, min_int,
};
use crate::classes::{build_classes, class_of_words, in_some_class, listed_once, SolveError};
use crate::counter_trie::CounterTrie;
use crate::letters::{all_letters, counts_bag, is_letter, letter_of, words_view, ALPHA_SIZE};
use crate::normalize::bytes_as_chars;
use crate::search::{class_wf, distinct_from, path_count, SearchSpace, WordClass};
use crate::expand::{cartesian, cartesian_product, lemma_cartesian_complete, lemma_cartesian_distinct, lemma_cartesian_members};
use crate::ordering::{pair_le, pairs_sorted, sort_pairs};
use vstd::arithmetic::div_mod::lemma_div_by_multiple;
use vstd::prelude::*;
use vstd::seq_lib::lemma_multiset_commutative;
use vstd::slice::slice_to_vec;

verus! {

broadcast use vstd::seq_lib::group_to_multiset_ensures;

/// The letter frequencies over the candidate words, as counted for the letter order.
pub open spec fn query_frequencies(words: Seq<Seq<u8>>) -> Seq<usize> {
    Seq::new(26, |i: int| min_int(total_occurrences(words, i) as int, usize::MAX as int) as usize)
}

/// The prime of each letter in a query over the candidate words `words`.
pub open spec fn query_primes(words: Seq<Seq<u8>>) -> Seq<u128> {
    Seq::new(26, |l: int| primes()[slot_of(query_frequencies(words), l) as int])
}

/// Builds the search space over the candidate words: the letter order, the classes and the
/// trie over their counters.
pub fn prepare(words: &Vec<Vec<u8>>, min_length: usize, max_words: usize) -> (r: Result<
    (SearchSpace, Vec<u128>),
    SolveError,
>)
    requires
        forall|i: int| 0 <= i < words@.len() ==> all_letters(#[trigger] words@[i]@) && words@[i]@.len() >= 1,
        words@.len() * 26 < usize::MAX,
        min_length >= 1,
        max_words >= 1,
    ensures
        match r {
            Ok((space, primes_of)) => {
                &&& space.wf()
                &&& space.min_length == min_length
                &&& space.max_words == max_words
                &&& primes_of@ == query_primes(words_view(words@))
                &&& forall|l: int| 0 <= l < 26 ==> #[trigger] primes_of@[l] >= 2
                &&& forall|k: int|
                    0 <= k < space.classes@.len() ==> #[trigger] class_of_words(
                        space.classes@[k],
                        words_view(words@),
                        primes_of@,
                    )
                &&& forall|i: int| 0 <= i < words@.len() ==> #[trigger] in_some_class(space.classes@, i as usize)
                &&& listed_once(space.classes@)
            },
            Err(SolveError::FingerprintOverflow) => exists|i: int|
                0 <= i < words@.len() && fingerprint(#[trigger] words@[i]@, query_primes(words_view(words@))) > u128::MAX,
        },
        r is Ok ==> forall|i: int|
            0 <= i < words@.len() ==> fingerprint(#[trigger] words@[i]@, query_primes(words_view(words@))) <= u128::MAX,
{
    let freq = letter_frequencies(words);
    let slot = letter_slots(&freq);
    let order = slot_order(&freq, &slot);
    let primes_of = letter_primes(&slot);
    proof {
        assert(freq@ =~= query_frequencies(words_view(words@)));
        assert(primes_of@ =~= query_primes(words_view(words@)));
        assert forall|l: int| 0 <= l < 26 implies #[trigger] primes_of@[l] >= 2 by {
            assert(slot@[l] < 26);
            crate::alphabet::lemma_primes_at_least_two(slot@[l] as int);
        }
    }
    let classes = match build_classes(words, &primes_of) {
        Ok(c) => c,
        Err(e) => {
            return Err(e);
        },
    };
    let ghost counters = classes@.map_values(|c: WordClass| c.counter@);
    let mut trie = CounterTrie::new(order, Ghost(slot@), Ghost(counters));
    proof {
        assert(trie.chains@.dom() =~= Set::new(|x: int| 0 <= x < 0));
    }
    let mut k: usize = 0;
    while k < classes.len()
        invariant
            k <= classes@.len(),
            trie.wf(),
            trie.counters@ == counters,
            counters == classes@.map_values(|c: WordClass| c.counter@),
            trie.chains@.dom() == Set::new(|x: int| 0 <= x < k),
            trie.nodes@.len() <= 1 + 26 * k,
            classes@.len() <= words@.len(),
            words@.len() * 26 < usize::MAX,
            forall|a: int, b: int|
                0 <= a < b < classes@.len() ==> (#[trigger] classes@[a]).counter@ != (#[trigger] classes@[b]).counter@,
            primes_of@ == query_primes(words_view(words@)),
            forall|i: int| 0 <= i < words@.len() ==> fingerprint(#[trigger] words@[i]@, primes_of@) <= u128::MAX,
            forall|x: int|
                0 <= x < classes@.len() ==> #[trigger] class_of_words(
                    classes@[x],
                    words_view(words@),
                    primes_of@,
                ),
        decreases classes@.len() - k,
    {
        proof {
            assert(class_of_words(classes@[k as int], words_view(words@), primes_of@));
        }
        proof {
            assert forall|x: int| #[trigger] trie.chains@.contains_key(x) implies trie.counters@[x]
                != classes@[k as int].counter@ by {
                assert(Set::new(|y: int| 0 <= y < k).contains(x));
                assert(classes@[x].counter@ != classes@[k as int].counter@);
            }
            assert(trie.nodes@.len() + 26 <= usize::MAX) by (nonlinear_arith)
                requires
                    trie.nodes@.len() <= 1 + 26 * k,
                    k < classes@.len(),
                    classes@.len() <= words@.len(),
                    words@.len() * 26 < usize::MAX,
            ;
        }
        let named = trie.insert(&classes[k].counter, k);
        proof {
            assert(named);
            assert(trie.chains@.dom() =~= Set::new(|x: int| 0 <= x < k + 1));
            assert(trie.nodes@.len() <= 1 + 26 * (k + 1)) by (nonlinear_arith)
                requires
                    trie.nodes@.len() <= 1 + 26 * k + 26,
            ;
        }
        k += 1;
    }
    let space = SearchSpace { classes, trie, min_length, max_words };
    proof {
        assert forall|x: int| 0 <= x < space.classes@.len() implies #[trigger] space.trie.chains@.contains_key(x) by {
            assert(Set::new(|y: int| 0 <= y < k).contains(x));
        }
        assert forall|x: int| 0 <= x < space.classes@.len() implies #[trigger] class_wf(space.classes@[x]) by {
            assert(class_of_words(space.classes@[x], words_view(words@), primes_of@));
        }
    }
    Ok((space, primes_of))
}

/// The views of a list of picks.
pub open spec fn picks_view(ps: Seq<Vec<usize>>) -> Seq<Seq<usize>> {
    ps.map_values(|p: Vec<usize>| p@)
}

/// The sum of the scores of the picked words.
pub open spec fn score_sum(scores: Seq<i32>, pick: Seq<usize>) -> int
    decreases pick.len(),
{
    if pick.len() == 0 {
        0
    } else {
        score_sum(scores, pick.drop_last()) + scores[pick.last() as int]
    }
}

/// The mean score of `a` is at least that of `b` (compared without division).
pub open spec fn mean_at_least(scores: Seq<i32>, a: Seq<usize>, b: Seq<usize>) -> bool {
    score_sum(scores, a) * b.len() >= score_sum(scores, b) * a.len()
}

/// A common multiple of every word count from 1 to 16.
pub const COUNT_MULTIPLE: i64 = 720720;

proof fn lemma_count_multiple(n: int)
    requires
        1 <= n <= 16,
    ensures
        (720720int / n) * n == 720720,
        720720int / n >= 1,
{
    let q: int = if n == 1 {
        720720
    } else if n == 2 {
        360360
    } else if n == 3 {
        240240
    } else if n == 4 {
        180180
    } else if n == 5 {
        144144
    } else if n == 6 {
        120120
    } else if n == 7 {
        102960
    } else if n == 8 {
        90090
    } else if n == 9 {
        80080
    } else if n == 10 {
        72072
    } else if n == 11 {
        65520
    } else if n == 12 {
        60060
    } else if n == 13 {
        55440
    } else if n == 14 {
        51480
    } else if n == 15 {
        48048
    } else {
        45045
    };
    assert(q * n == 720720);
    lemma_div_by_multiple(q, n);
    assert((q * n) / n == q);
}

proof fn lemma_scaled_order(sa: int, na: int, sb: int, nb: int, qa: int, qb: int)
    requires
        1 <= na,
        1 <= nb,
        qa * na == 720720,
        qb * nb == 720720,
        sa * qa >= sb * qb,
    ensures
        sa * nb >= sb * na,
{
    assert(sa * qa * na * nb >= sb * qb * na * nb) by (nonlinear_arith)
        requires
            sa * qa >= sb * qb,
            na >= 1,
            nb >= 1,
    ;
    assert(sa * qa * na * nb == sa * nb * 720720) by (nonlinear_arith)
        requires
            qa * na == 720720,
    ;
    assert(sb * qb * na * nb == sb * na * 720720) by (nonlinear_arith)
        requires
            qb * nb == 720720,
    ;
    assert(sa * nb >= sb * na) by (nonlinear_arith)
        requires
            sa * nb * 720720 >= sb * na * 720720,
    ;
}

proof fn lemma_scaled_order_back(sa: int, na: int, sb: int, nb: int, qa: int, qb: int)
    requires
        1 <= na,
        1 <= nb,
        qa * na == 720720,
        qb * nb == 720720,
        sa * nb >= sb * na,
    ensures
        sa * qa >= sb * qb,
{
    assert(sa * nb * qa * qb >= sb * na * qa * qb) by (nonlinear_arith)
        requires
            sa * nb >= sb * na,
            qa * na == 720720,
            qb * nb == 720720,
            na >= 1,
            nb >= 1,
    ;
    assert(sa * nb * qa * qb == sa * qa * 720720) by (nonlinear_arith)
        requires
            qb * nb == 720720,
    ;
    assert(sb * na * qa * qb == sb * qb * 720720) by (nonlinear_arith)
        requires
            qa * na == 720720,
    ;
    assert(sa * qa >= sb * qb) by (nonlinear_arith)
        requires
            sa * qa * 720720 >= sb * qb * 720720,
    ;
}

/// The sum of the scores of the picked candidates.
pub fn pick_score(pick: &Vec<usize>, scores: &Vec<i32>) -> (r: i64)
    requires
        pick@.len() <= 16,
        forall|j: int| 0 <= j < pick@.len() ==> #[trigger] pick@[j] < scores@.len(),
    ensures
        r == score_sum(scores@, pick@),
        -pick@.len() * 2147483648 <= r <= pick@.len() * 2147483648,
{
    let mut total: i64 = 0;
    let mut j: usize = 0;
    while j < pick.len()
        invariant
            j <= pick@.len() <= 16,
            forall|x: int| 0 <= x < pick@.len() ==> #[trigger] pick@[x] < scores@.len(),
            total == score_sum(scores@, pick@.take(j as int)),
            -j * 2147483648 <= total <= j * 2147483648,
        decreases pick@.len() - j,
    {
        assert(pick@.take(j + 1).drop_last() =~= pick@.take(j as int));
        total = total + scores[pick[j]] as i64;
        j += 1;
    }
    assert(pick@.take(j as int) =~= pick@);
    total
}

/// Orders the answers by descending mean score; answers of equal mean keep their order.
/// Alongside, the position in `picks` of each ranked answer.
pub fn rank_answers(picks: Vec<Vec<usize>>, scores: &Vec<i32>) -> (r: (Vec<Vec<usize>>, Vec<usize>))
    requires
        forall|k: int|
            0 <= k < picks@.len() ==> 1 <= (#[trigger] picks@[k])@.len() <= 16 && forall|j: int|
                0 <= j < picks@[k]@.len() ==> #[trigger] picks@[k]@[j] < scores@.len(),
    ensures
        r.0@.len() == picks@.len(),
        r.1@.len() == picks@.len(),
        forall|k: int| 0 <= k < r.1@.len() ==> #[trigger] r.1@[k] < picks@.len() && r.0@[k]@ == picks@[r.1@[k] as int]@,
        forall|a: int, b: int| 0 <= a < b < r.1@.len() ==> #[trigger] r.1@[a] != #[trigger] r.1@[b],
        forall|k: int| 0 <= k < r.0@.len() ==> picks_view(picks@).contains(#[trigger] r.0@[k]@),
        forall|i: int| 0 <= i < picks@.len() ==> picks_view(r.0@).contains(#[trigger] picks@[i]@),
        forall|a: int, b: int|
            0 <= a < b < r.0@.len() ==> mean_at_least(scores@, (#[trigger] r.0@[a])@, (#[trigger] r.0@[b])@),
        forall|a: int, b: int|
            0 <= a < b < r.0@.len() && mean_at_least(scores@, r.0@[b]@, r.0@[a]@) ==> #[trigger] r.1@[a]
                < #[trigger] r.1@[b],
        picks_view(picks@).no_duplicates() ==> picks_view(r.0@).no_duplicates(),
{
    let mut pairs: Vec<(u128, usize)> = Vec::new();
    let mut k: usize = 0;
    while k < picks.len()
        invariant
            k <= picks@.len(),
            pairs@.len() == k,
            forall|k: int|
                0 <= k < picks@.len() ==> 1 <= (#[trigger] picks@[k])@.len() <= 16 && forall|j: int|
                    0 <= j < picks@[k]@.len() ==> #[trigger] picks@[k]@[j] < scores@.len(),
            forall|x: int|
                0 <= x < k ==> (#[trigger] pairs@[x]).1 == x && pairs@[x].0 == 4611686018427387904 - score_sum(
                    scores@,
                    picks@[x]@,
                ) * (720720int / (picks@[x]@.len() as int)),
        decreases picks@.len() - k,
    {
        let pick = &picks[k];
        let n = pick.len();
        let sum = pick_score(pick, scores);
        proof {
            lemma_count_multiple(n as int);
        }
        let q: i64 = COUNT_MULTIPLE / (n as i64);
        assert(-2147483648 * 16 <= sum <= 2147483648 * 16);
        assert(1 <= q <= 720720);
        assert(-2147483648 * 16 * 720720 <= sum * q <= 2147483648 * 16 * 720720) by (nonlinear_arith)
            requires
                -2147483648 * 16 <= sum <= 2147483648 * 16,
                1 <= q <= 720720,
        ;
        let scaled: i64 = sum * q;
        let key: i64 = 4611686018427387904 - scaled;
        pairs.push((key as u128, k));
        k += 1;
    }
    let ghost unsorted = pairs@;
    sort_pairs(&mut pairs);
    proof {
        assert(pairs@.to_multiset().len() == unsorted.to_multiset().len());
        assert forall|x: int| 0 <= x < pairs@.len() implies (#[trigger] pairs@[x]).1 < picks@.len()
            && pairs@[x] == unsorted[pairs@[x].1 as int] by {
            assert(pairs@.to_multiset().count(pairs@[x]) > 0);
            assert(unsorted.contains(pairs@[x]));
        }
    }
    proof {
        assert(unsorted.no_duplicates());
        unsorted.lemma_multiset_has_no_duplicates();
        pairs@.lemma_multiset_has_no_duplicates_conv();
    }
    let mut r: Vec<Vec<usize>> = Vec::new();
    let mut order: Vec<usize> = Vec::new();
    let mut j: usize = 0;
    while j < pairs.len()
        invariant
            j <= pairs@.len(),
            pairs@.len() == picks@.len(),
            r@.len() == j,
            order@.len() == j,
            forall|x: int| 0 <= x < j ==> #[trigger] order@[x] == pairs@[x].1,
            pairs@.to_multiset() == unsorted.to_multiset(),
            pairs_sorted(pairs@),
            forall|k: int|
                0 <= k < picks@.len() ==> 1 <= (#[trigger] picks@[k])@.len() <= 16,
            forall|x: int|
                0 <= x < unsorted.len() ==> (#[trigger] unsorted[x]).1 == x && unsorted[x].0 == 4611686018427387904 - score_sum(
                    scores@,
                    picks@[x]@,
                ) * (720720int / (picks@[x]@.len() as int)),
            forall|x: int| 0 <= x < j ==> #[trigger] r@[x]@ == picks@[pairs@[x].1 as int]@,
            forall|x: int| 0 <= x < pairs@.len() ==> (#[trigger] pairs@[x]).1 < picks@.len()
                && pairs@[x] == unsorted[pairs@[x].1 as int],
            pairs@.no_duplicates(),
        decreases pairs@.len() - j,
    {
        let (_, i) = pairs[j];
        r.push(slice_to_vec(picks[i].as_slice()));
        order.push(i);
        j += 1;
    }
    proof {
        assert forall|k: int| 0 <= k < r@.len() implies picks_view(picks@).contains(#[trigger] r@[k]@) by {
            assert(r@[k]@ == picks_view(picks@)[pairs@[k].1 as int]);
        }
        assert forall|i: int| 0 <= i < picks@.len() implies picks_view(r@).contains(#[trigger] picks@[i]@) by {
            let pr = unsorted[i];
            assert(unsorted.to_multiset().count(pr) > 0);
            assert(pairs@.contains(pr));
            let x = choose|x: int| 0 <= x < pairs@.len() && pairs@[x] == pr;
            assert(picks_view(r@)[x] == picks@[i]@);
        }
        assert forall|a: int, b: int| 0 <= a < b < r@.len() implies mean_at_least(scores@, (#[trigger] r@[a])@, (#[trigger] r@[b])@) by {
            let ia = pairs@[a].1 as int;
            let ib = pairs@[b].1 as int;
            let pa = picks@[ia]@;
            let pb = picks@[ib]@;
            assert(pair_le(pairs@[a], pairs@[b]));
            assert(unsorted[ia].1 == ia);
            assert(unsorted[ib].1 == ib);
            lemma_count_multiple(pa.len() as int);
            lemma_count_multiple(pb.len() as int);
            lemma_scaled_order(
                score_sum(scores@, pa),
                pa.len() as int,
                score_sum(scores@, pb),
                pb.len() as int,
                720720int / (pa.len() as int),
                720720int / (pb.len() as int),
            );
        }
        assert forall|k: int| 0 <= k < order@.len() implies #[trigger] order@[k] < picks@.len() && r@[k]@ == picks@[order@[k] as int]@ by {}
        assert forall|a: int, b: int| 0 <= a < b < order@.len() implies #[trigger] order@[a] != #[trigger] order@[b] by {
            assert(pairs@[a] != pairs@[b]);
        }
        assert forall|a: int, b: int|
            0 <= a < b < r@.len() && mean_at_least(scores@, r@[b]@, r@[a]@) implies #[trigger] order@[a] < #[trigger] order@[b] by {
            let ia = pairs@[a].1 as int;
            let ib = pairs@[b].1 as int;
            let pa = picks@[ia]@;
            let pb = picks@[ib]@;
            assert(pair_le(pairs@[a], pairs@[b]));
            assert(unsorted[ia].1 == ia);
            assert(unsorted[ib].1 == ib);
            lemma_count_multiple(pa.len() as int);
            lemma_count_multiple(pb.len() as int);
            lemma_scaled_order_back(
                score_sum(scores@, pb),
                pb.len() as int,
                score_sum(scores@, pa),
                pa.len() as int,
                720720int / (pb.len() as int),
                720720int / (pa.len() as int),
            );
            assert(pairs@[a] != pairs@[b]);
        }
        if picks_view(picks@).no_duplicates() {
            assert forall|a: int, b: int| 0 <= a < r@.len() && 0 <= b < r@.len() && a != b implies picks_view(r@)[a] != picks_view(r@)[b] by {
                assert(pairs@[a] != pairs@[b]);
                assert(picks_view(r@)[a] == picks_view(picks@)[order@[a] as int]);
                assert(picks_view(r@)[b] == picks_view(picks@)[order@[b] as int]);
            }
        }
    }
    (r, order)
}

/// The words that a pick of candidate positions names.
pub open spec fn picked_words(words: Seq<Seq<u8>>, pick: Seq<usize>) -> Seq<Seq<u8>> {
    pick.map_values(|p: usize| words[p as int])
}

/// Where two neighbouring classes of `path` share a fingerprint (one class taken twice), the
/// spellings picked for them come in candidate order, so that each choice of words is
/// written once.
pub open spec fn spellings_ordered(classes: Seq<WordClass>, path: Seq<usize>, pick: Seq<usize>) -> bool {
    forall|j: int|
        0 <= j < path.len() - 1 ==> classes[#[trigger] path[j] as int].fingerprint == classes[path[j
            + 1] as int].fingerprint ==> pick[j] <= pick[j + 1]
}

/// `pick` takes, at each position, a word of the class at that position of `path`, with
/// the spellings of a repeated fingerprint in candidate order.
pub open spec fn picks_from(classes: Seq<WordClass>, path: Seq<usize>, pick: Seq<usize>) -> bool {
    &&& pick.len() == path.len()
    &&& forall|j: int| 0 <= j < path.len() ==> #[trigger] path[j] < classes.len()
    &&& forall|j: int| 0 <= j < path.len() ==> classes[path[j] as int].words@.contains(#[trigger] pick[j])
    &&& spellings_ordered(classes, path, pick)
}

/// Whether the spellings picked for neighbouring classes of equal fingerprint come in
/// candidate order.
fn spellings_in_order(space: &SearchSpace, path: &Vec<usize>, pick: &Vec<usize>) -> (r: bool)
    requires
        forall|j: int| 0 <= j < path@.len() ==> #[trigger] path@[j] < space.classes@.len(),
        pick@.len() == path@.len(),
    ensures
        r == spellings_ordered(space.classes@, path@, pick@),
{
    let mut j: usize = 0;
    while j < path.len() && j + 1 < path.len()
        invariant
            forall|j: int| 0 <= j < path@.len() ==> #[trigger] path@[j] < space.classes@.len(),
            pick@.len() == path@.len(),
            j <= path@.len(),
            forall|x: int|
                0 <= x < j && x < path@.len() - 1 ==> space.classes@[#[trigger] path@[x] as int].fingerprint
                    == space.classes@[path@[x + 1] as int].fingerprint ==> pick@[x] <= pick@[x + 1],
        decreases path@.len() - j,
    {
        if space.classes[path[j]].fingerprint == space.classes[path[j + 1]].fingerprint && pick[j] > pick[j + 1] {
            return false;
        }
        j += 1;
    }
    true
}

/// The letters of the picked words, counted per letter, are those of the classes on the path.
pub proof fn lemma_pick_letters(
    classes: Seq<WordClass>,
    words: Seq<Seq<u8>>,
    primes_of: Seq<u128>,
    path: Seq<usize>,
    pick: Seq<usize>,
)
    requires
        picks_from(classes, path, pick),
        forall|k: int| 0 <= k < classes.len() ==> #[trigger] class_of_words(classes[k], words, primes_of),
    ensures
        all_letters(picked_words(words, pick).flatten()),
        forall|l: int|
            0 <= l < 26 ==> #[trigger] picked_words(words, pick).flatten().to_multiset().count(letter_of(l))
                == path_count(classes, path, l),
    decreases path.len(),
{
    let ws = picked_words(words, pick);
    if path.len() > 0 {
        let rest_path = path.drop_first();
        let rest_pick = pick.drop_first();
        assert forall|j: int| 0 <= j < rest_path.len() implies classes[rest_path[j] as int].words@.contains(#[trigger] rest_pick[j]) by {
            assert(rest_path[j] == path[j + 1]);
            assert(rest_pick[j] == pick[j + 1]);
        }
        assert forall|j: int| 0 <= j < rest_path.len() implies #[trigger] rest_path[j] < classes.len() by {
            assert(rest_path[j] == path[j + 1]);
        }
        lemma_pick_letters(classes, words, primes_of, rest_path, rest_pick);
        assert(ws.drop_first() =~= picked_words(words, rest_pick));
        let c = classes[path[0] as int];
        assert(class_of_words(c, words, primes_of));
        assert(c.words@.contains(pick[0]));
        let x = choose|x: int| 0 <= x < c.words@.len() && c.words@[x] == pick[0];
        assert(c.words@[x] < words.len());
        let w = words[pick[0] as int];
        assert(counts_bag(c.counter@, w.to_multiset()));
        assert(ws.first() == w);
        assert(ws.flatten() == w + ws.drop_first().flatten());
        lemma_multiset_commutative(w, ws.drop_first().flatten());
        assert forall|i: int| 0 <= i < ws.flatten().len() implies is_letter(#[trigger] ws.flatten()[i]) by {
            if i < w.len() {
                assert(ws.flatten()[i] == w[i]);
            } else {
                assert(ws.flatten()[i] == ws.drop_first().flatten()[i - w.len()]);
            }
        }
    } else {
        assert(ws =~= Seq::<Seq<u8>>::empty());
        assert(ws.flatten() =~= Seq::<u8>::empty());
    }
}

/// `pick` takes its words from the classes of one of the paths.
pub open spec fn from_some_path(classes: Seq<WordClass>, paths: Seq<Seq<usize>>, pick: Seq<usize>) -> bool {
    exists|f: int| 0 <= f < paths.len() && #[trigger] picks_from(classes, paths[f], pick)
}

/// `pick` takes its words from the classes of one of the first `f` paths.
pub open spec fn from_path_before(classes: Seq<WordClass>, paths: Seq<Seq<usize>>, f: int, pick: Seq<usize>) -> bool {
    exists|g: int| 0 <= g < f && #[trigger] picks_from(classes, paths[g], pick)
}

/// `v` is one of the first `t` tuples of `prod`.
pub open spec fn among_first(prod: Seq<Seq<usize>>, t: int, v: Seq<usize>) -> bool {
    exists|x: int| 0 <= x < t && #[trigger] prod[x] == v
}

/// When each word is listed in one class only, a pick comes from one path only.
pub proof fn lemma_one_path(classes: Seq<WordClass>, p1: Seq<usize>, p2: Seq<usize>, pick: Seq<usize>)
    requires
        listed_once(classes),
        picks_from(classes, p1, pick),
        picks_from(classes, p2, pick),
    ensures
        p1 == p2,
{
    assert forall|j: int| 0 <= j < p1.len() implies p1[j] == p2[j] by {
        let c1 = classes[p1[j] as int];
        let c2 = classes[p2[j] as int];
        assert(c1.words@.contains(pick[j]));
        assert(c2.words@.contains(pick[j]));
        let x1 = choose|x: int| 0 <= x < c1.words@.len() && c1.words@[x] == pick[j];
        let x2 = choose|x: int| 0 <= x < c2.words@.len() && c2.words@[x] == pick[j];
        assert(classes[p1[j] as int].words@[x1] == classes[p2[j] as int].words@[x2]);
    }
    assert(p1 =~= p2);
}

/// Expands each class path into every choice of one word per class, as candidate positions.
pub fn expand_paths(space: &SearchSpace, found: &Vec<Vec<usize>>) -> (r: Vec<Vec<usize>>)
    requires
        space.wf(),
        forall|f: int|
            0 <= f < found@.len() ==> forall|j: int|
                0 <= j < (#[trigger] found@[f])@.len() ==> #[trigger] found@[f]@[j] < space.classes@.len(),
        listed_once(space.classes@),
        distinct_from(found@, 0),
    ensures
        picks_view(r@).no_duplicates(),
        forall|t: int|
            0 <= t < r@.len() ==> from_some_path(space.classes@, picks_view(found@), #[trigger] r@[t]@),
        forall|f: int, pick: Seq<usize>|
            0 <= f < found@.len() && #[trigger] picks_from(space.classes@, found@[f]@, pick) ==> picks_view(
                r@,
            ).contains(pick),
{
    let mut r: Vec<Vec<usize>> = Vec::new();
    let mut f: usize = 0;
    while f < found.len()
        invariant
            space.wf(),
            f <= found@.len(),
            forall|f: int|
                0 <= f < found@.len() ==> forall|j: int|
                    0 <= j < (#[trigger] found@[f])@.len() ==> #[trigger] found@[f]@[j] < space.classes@.len(),
            forall|t: int|
                0 <= t < r@.len() ==> from_some_path(space.classes@, picks_view(found@), #[trigger] r@[t]@),
            forall|g: int, pick: Seq<usize>|
                0 <= g < f && #[trigger] picks_from(space.classes@, found@[g]@, pick) ==> picks_view(
                    r@,
                ).contains(pick),
            listed_once(space.classes@),
            distinct_from(found@, 0),
            picks_view(r@).no_duplicates(),
            forall|a: int| 0 <= a < r@.len() ==> from_path_before(space.classes@, picks_view(found@), f as int, #[trigger] r@[a]@),
        decreases found@.len() - f,
    {
        let path = &found[f];
        let mut lists: Vec<Vec<usize>> = Vec::new();
        let mut j: usize = 0;
        while j < path.len()
            invariant
                space.wf(),
                path == found@[f as int],
                f < found@.len(),
                forall|x: int| 0 <= x < path@.len() ==> #[trigger] path@[x] < space.classes@.len(),
                j <= path@.len(),
                lists@.len() == j,
                forall|x: int| 0 <= x < j ==> (#[trigger] lists@[x])@ == space.classes@[path@[x] as int].words@,
            decreases path@.len() - j,
        {
            lists.push(slice_to_vec(space.classes[path[j]].words.as_slice()));
            j += 1;
        }
        let ghost lv = lists@.map_values(|l: Vec<usize>| l@);
        let ghost r_start = r@;
        proof {
            assert forall|x: int| 0 <= x < lv.len() implies (#[trigger] lv[x]).no_duplicates() by {
                let c = space.classes@[path@[x] as int];
                assert(lv[x] == c.words@);
                assert forall|a: int, b: int| 0 <= a < c.words@.len() && 0 <= b < c.words@.len() && a != b implies c.words@[a] != c.words@[b] by {
                    assert(space.classes@[path@[x] as int].words@[a] == c.words@[a]);
                    assert(space.classes@[path@[x] as int].words@[b] == c.words@[b]);
                }
            }
        }
        let tuples = cartesian_product(lists);
        let mut t: usize = 0;
        while t < tuples.len()
            invariant
                space.wf(),
                f < found@.len(),
                path == found@[f as int],
                forall|x: int| 0 <= x < path@.len() ==> #[trigger] path@[x] < space.classes@.len(),
                lv.len() == path@.len(),
                forall|x: int| 0 <= x < lv.len() ==> #[trigger] lv[x] == space.classes@[path@[x] as int].words@,
                tuples@.len() == cartesian(lv).len(),
                forall|k: int| 0 <= k < tuples@.len() ==> #[trigger] tuples@[k]@ == cartesian(lv)[k],
                t <= tuples@.len(),
                forall|t: int|
                    0 <= t < r@.len() ==> from_some_path(space.classes@, picks_view(found@), #[trigger] r@[t]@),
                forall|g: int, pick: Seq<usize>|
                    0 <= g < f && #[trigger] picks_from(space.classes@, found@[g]@, pick) ==> picks_view(
                        r@,
                    ).contains(pick),
                forall|x: int| 0 <= x < t && spellings_ordered(space.classes@, path@, #[trigger] cartesian(lv)[x])
                    ==> picks_view(r@).contains(cartesian(lv)[x]),
                listed_once(space.classes@),
                distinct_from(found@, 0),
                forall|x: int| 0 <= x < lv.len() ==> (#[trigger] lv[x]).no_duplicates(),
                picks_view(r@).no_duplicates(),
                r@.len() >= r_start.len(),
                forall|a: int| 0 <= a < r_start.len() ==> #[trigger] r@[a] == r_start[a],
                forall|a: int| 0 <= a < r_start.len() ==> from_path_before(space.classes@, picks_view(found@), f as int, #[trigger] r_start[a]@),
                forall|a: int| r_start.len() <= a < r@.len() ==> picks_from(space.classes@, found@[f as int]@, #[trigger] r@[a]@)
                    && among_first(cartesian(lv), t as int, r@[a]@),
            decreases tuples@.len() - t,
        {
            let tuple = slice_to_vec(tuples[t].as_slice());
            proof {
                lemma_cartesian_members(lv, t as int);
                assert(tuple@ == cartesian(lv)[t as int]);
            }
            if spellings_in_order(space, path, &tuple) {
                proof {
                    assert forall|x: int| 0 <= x < path@.len() implies space.classes@[path@[x] as int].words@.contains(#[trigger] tuple@[x]) by {
                        assert(lv[x].contains(cartesian(lv)[t as int][x]));
                    }
                    assert(picks_from(space.classes@, found@[f as int]@, tuple@));
                }
                let ghost r_before = r@;
                proof {
                    assert forall|a: int| 0 <= a < r_before.len() implies r_before[a]@ != tuple@ by {
                        if a < r_start.len() {
                            assert(r_before[a] == r_start[a]);
                            let g = choose|g: int| 0 <= g < f && #[trigger] picks_from(space.classes@, picks_view(found@)[g], r_start[a]@);
                            if r_before[a]@ == tuple@ {
                                lemma_one_path(space.classes@, picks_view(found@)[g], found@[f as int]@, tuple@);
                                reveal(distinct_from);
                                assert(found@[g]@ == picks_view(found@)[g]);
                            }
                        } else {
                            let x = choose|x: int| 0 <= x < t && #[trigger] cartesian(lv)[x] == r_before[a]@;
                            lemma_cartesian_distinct(lv, x, t as int);
                        }
                    }
                }
                r.push(tuple);
                proof {
                    assert(picks_view(r@) =~= picks_view(r_before).push(tuple@));
                    assert forall|a: int, b: int| 0 <= a < picks_view(r@).len() && 0 <= b < picks_view(r@).len() && a != b
                        implies picks_view(r@)[a] != picks_view(r@)[b] by {
                        if a < r_before.len() && b < r_before.len() {
                            assert(picks_view(r@)[a] == picks_view(r_before)[a]);
                            assert(picks_view(r@)[b] == picks_view(r_before)[b]);
                        } else if a < r_before.len() {
                            assert(picks_view(r@)[a] == r_before[a]@);
                        } else {
                            assert(picks_view(r@)[b] == r_before[b]@);
                        }
                    }
                    assert forall|a: int| r_start.len() <= a < r@.len() implies picks_from(space.classes@, found@[f as int]@, #[trigger] r@[a]@)
                        && among_first(cartesian(lv), t + 1, r@[a]@) by {
                        if a < r_before.len() {
                            assert(r@[a] == r_before[a]);
                            let x = choose|x: int| 0 <= x < t && #[trigger] cartesian(lv)[x] == r_before[a]@;
                        } else {
                            assert(cartesian(lv)[t as int] == r@[a]@);
                        }
                    }
                    assert forall|g: int, pick: Seq<usize>|
                        0 <= g < f && #[trigger] picks_from(space.classes@, found@[g]@, pick) implies picks_view(r@).contains(pick) by {
                        let w = choose|w: int| 0 <= w < r_before.len() && picks_view(r_before)[w] == pick;
                        assert(picks_view(r@)[w] == pick);
                    }
                    assert forall|x: int| 0 <= x < t + 1 && spellings_ordered(space.classes@, path@, #[trigger] cartesian(lv)[x])
                        implies picks_view(r@).contains(cartesian(lv)[x]) by {
                        if x < t {
                            let w = choose|w: int| 0 <= w < r_before.len() && picks_view(r_before)[w] == cartesian(lv)[x];
                            assert(picks_view(r@)[w] == cartesian(lv)[x]);
                        } else {
                            assert(picks_view(r@)[r_before.len() as int] == cartesian(lv)[x]);
                        }
                    }
                    assert forall|u: int| 0 <= u < r@.len() implies from_some_path(space.classes@, picks_view(found@), #[trigger] r@[u]@) by {
                        if u == r@.len() - 1 {
                            assert(picks_view(found@)[f as int] == found@[f as int]@);
                            assert(picks_from(space.classes@, picks_view(found@)[f as int], r@[u]@));
                        }
                    }
                }
            }
            t += 1;
        }
        proof {
            assert forall|a: int| 0 <= a < r@.len() implies from_path_before(space.classes@, picks_view(found@), f + 1, #[trigger] r@[a]@) by {
                if a < r_start.len() {
                    assert(r@[a] == r_start[a]);
                    let g = choose|g: int| 0 <= g < f && #[trigger] picks_from(space.classes@, picks_view(found@)[g], r_start[a]@);
                } else {
                    assert(picks_view(found@)[f as int] == found@[f as int]@);
                    assert(picks_from(space.classes@, picks_view(found@)[f as int], r@[a]@));
                }
            }
            assert forall|g: int, pick: Seq<usize>|
                0 <= g < f + 1 && #[trigger] picks_from(space.classes@, found@[g]@, pick) implies picks_view(r@).contains(pick) by {
                if g == f {
                    assert forall|x: int| 0 <= x < lv.len() implies lv[x].contains(#[trigger] pick[x]) by {
                        assert(space.classes@[path@[x] as int].words@.contains(pick[x]));
                    }
                    lemma_cartesian_complete(lv, pick);
                    let x = choose|x: int| 0 <= x < cartesian(lv).len() && cartesian(lv)[x] == pick;
                    assert(spellings_ordered(space.classes@, path@, cartesian(lv)[x]));
                    assert(picks_view(r@).contains(cartesian(lv)[x]));
                }
            }
        }
        f += 1;
    }
    r
}

/// The words joined by single spaces.
pub open spec fn join_words(ws: Seq<Seq<u8>>) -> Seq<u8>
    decreases ws.len(),
{
    if ws.len() == 0 {
        Seq::empty()
    } else if ws.len() == 1 {
        ws[0]
    } else {
        join_words(ws.drop_last()) + seq![32u8] + ws.last()
    }
}

/// Joins the words with single spaces.
pub fn join_bytes(ws: &Vec<Vec<u8>>) -> (r: Vec<u8>)
    ensures
        r@ == join_words(words_view(ws@)),
{
    let ghost views = words_view(ws@);
    let mut r: Vec<u8> = Vec::new();
    let mut j: usize = 0;
    while j < ws.len()
        invariant
            j <= ws@.len(),
            views == words_view(ws@),
            r@ == join_words(views.take(j as int)),
        decreases ws@.len() - j,
    {
        let ghost before = r@;
        if j > 0 {
            r.push(32u8);
        }
        let w = ws[j].as_slice();
        let mut k: usize = 0;
        while k < w.len()
            invariant
                k <= w@.len(),
                r@ == (if j > 0 { before + seq![32u8] } else { before }) + w@.take(k as int),
            decreases w@.len() - k,
        {
            r.push(w[k]);
            k += 1;
            assert(w@.take(k as int) =~= w@.take(k - 1).push(w@[k - 1]));
        }
        proof {
            let t = views.take(j + 1);
            assert(t.drop_last() =~= views.take(j as int));
            assert(t.last() == w@);
            assert(w@.take(w@.len() as int) =~= w@);
            if j == 0 {
                assert(views.take(0) =~= Seq::<Seq<u8>>::empty());
                assert(r@ =~= w@);
            } else {
                assert(r@ =~= before + seq![32u8] + w@);
            }
        }
        j += 1;
    }
    assert(views.take(j as int) =~= views);
    r
}

/// Relies on `String::from_utf8`: bytes below 128 are valid UTF-8, each the character of
/// that code.
#[verifier::external_body]
pub(crate) fn ascii_string(b: Vec<u8>) -> (r: String)
    requires
        forall|i: int| 0 <= i < b@.len() ==> #[trigger] b@[i] < 128,
    ensures
        r@ == bytes_as_chars(b@),
{
    String::from_utf8(b).unwrap_or_default()
}

/// A key for the cache: the product of the primes of the counter's letters, or the largest
/// `u128` if that does not fit.
pub(crate) fn residual_key(counter: &Vec<usize>, primes_of: &Vec<u128>) -> u128
    requires
        counter@.len() == ALPHA_SIZE,
        primes_of@.len() == ALPHA_SIZE,
{
    let mut key: u128 = 1;
    let mut i: usize = 0;
    while i < ALPHA_SIZE
        invariant
            i <= ALPHA_SIZE,
            counter@.len() == ALPHA_SIZE,
            primes_of@.len() == ALPHA_SIZE,
        decreases ALPHA_SIZE - i,
    {
        let mut n: usize = 0;
        while n < counter[i]
            invariant
                i < ALPHA_SIZE,
                counter@.len() == ALPHA_SIZE,
                primes_of@.len() == ALPHA_SIZE,
                n <= counter@[i as int],
            decreases counter@[i as int] - n,
        {
            key = match key.checked_mul(primes_of[i]) {
                Some(v) => v,
                None => u128::MAX,
            };
            n += 1;
        }
        i += 1;
    }
    key
}

} // verus!
