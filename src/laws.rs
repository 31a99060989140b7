//! Properties of queries that follow from the contracts of `solve` and its parts.
use crate::alphabet::fingerprint;
use crate::normalize::{bytes_as_chars, lemma_normalize_idempotent, normalize};
use crate::query::{answers_listed, canonical, is_answer, query_bag};
use crate::solver::{picked_words, query_primes};
use vstd::multiset::Multiset;
use vstd::prelude::*;

verus! {

broadcast use vstd::seq_lib::group_to_multiset_ensures;

/// A seed that is already normalized gives the same bag as the raw seed it came from, so a
/// query on either is the same query: normalizing is idempotent, and characters other than
/// letters play no part.
pub proof fn lemma_normalized_seed_same_query(seed: Seq<char>, includes: Seq<Seq<char>>)
    ensures
        normalize(bytes_as_chars(normalize(seed))) == normalize(seed),
        query_bag(bytes_as_chars(normalize(seed)), includes) == query_bag(seed, includes),
{
    lemma_normalize_idempotent(seed);
}

proof fn lemma_flatten_len_at_least(ws: Seq<Seq<u8>>, i: int)
    requires
        0 <= i < ws.len(),
    ensures
        ws.flatten().len() >= ws[i].len(),
    decreases ws.len(),
{
    if i == 0 {
        assert(ws.flatten() == ws[0] + ws.drop_first().flatten());
    } else {
        lemma_flatten_len_at_least(ws.drop_first(), i - 1);
        assert(ws.drop_first()[i - 1] == ws[i]);
        assert(ws.flatten() == ws[0] + ws.drop_first().flatten());
    }
}

/// No answer exists when the minimum word length exceeds the number of letters in the bag.
pub proof fn lemma_min_length_above_bag_no_answer(
    words: Seq<Seq<u8>>,
    pick: Seq<usize>,
    bag: Multiset<u8>,
    min_length: usize,
    max_words: usize,
    n_includes: int,
)
    requires
        min_length > bag.len(),
    ensures
        !is_answer(words, pick, bag, min_length, max_words, n_includes),
{
    if is_answer(words, pick, bag, min_length, max_words, n_includes) {
        let ws = picked_words(words, pick);
        assert(ws[0] == words[pick[0] as int]);
        lemma_flatten_len_at_least(ws, 0);
        assert(ws.flatten().to_multiset().len() == ws.flatten().len());
    }
}

/// With at most one word in all and nothing included, the listed answers are exactly the
/// candidate words, each alone and each once, whose letters are the bag and that are long
/// enough.
pub proof fn lemma_one_word_query_lists_single_anagrams(
    picks: Seq<Seq<usize>>,
    strings: Seq<String>,
    words: Seq<Seq<u8>>,
    scores: Seq<i32>,
    bag: Multiset<u8>,
    min_length: usize,
)
    requires
        answers_listed(picks, strings, words, scores, Seq::empty(), bag, min_length, 1),
    ensures
        picks.no_duplicates(),
        forall|k: int| 0 <= k < picks.len() ==> (#[trigger] picks[k]).len() == 1,
        forall|i: usize|
            i < words.len() ==> (picks.contains(#[trigger] seq![i]) <==> (words[i as int].len()
                >= min_length && words[i as int].to_multiset() == bag)),
{
    assert forall|k: int| 0 <= k < picks.len() implies (#[trigger] picks[k]).len() == 1 by {
        assert(is_answer(words, picks[k], bag, min_length, 1, 0));
    }
    assert forall|i: usize| i < words.len() implies (picks.contains(#[trigger] seq![i]) <==> (words[i as int].len()
        >= min_length && words[i as int].to_multiset() == bag)) by {
        let pick = seq![i];
        let ws = picked_words(words, pick);
        assert(ws.drop_first() =~= Seq::<Seq<u8>>::empty());
        assert(ws.drop_first().flatten() =~= Seq::<u8>::empty());
        assert(ws.flatten() =~= words[i as int]);
        if words[i as int].len() >= min_length && words[i as int].to_multiset() == bag {
            assert(is_answer(words, pick, bag, min_length, 1, 0));
            assert(canonical(words, pick, query_primes(words)));
        }
        if picks.contains(pick) {
            let k = choose|k: int| 0 <= k < picks.len() && picks[k] == pick;
            assert(is_answer(words, picks[k], bag, min_length, 1, 0));
        }
    }
}

proof fn lemma_sorted_all_pairs(ws: Seq<Seq<u8>>, ps: Seq<u128>)
    requires
        forall|j: int| 0 <= j < ws.len() - 1 ==> fingerprint(#[trigger] ws[j], ps) <= fingerprint(ws[j + 1], ps),
    ensures
        forall|i: int, j: int| 0 <= i <= j < ws.len() ==> fingerprint(#[trigger] ws[i], ps) <= fingerprint(#[trigger] ws[j], ps),
    decreases ws.len(),
{
    if ws.len() > 1 {
        let d = ws.drop_last();
        assert forall|j: int| 0 <= j < d.len() - 1 implies fingerprint(#[trigger] d[j], ps) <= fingerprint(d[j + 1], ps) by {
            assert(d[j] == ws[j]);
            assert(d[j + 1] == ws[j + 1]);
        }
        lemma_sorted_all_pairs(d, ps);
        assert forall|i: int, j: int| 0 <= i <= j < ws.len() implies fingerprint(#[trigger] ws[i], ps) <= fingerprint(#[trigger] ws[j], ps) by {
            if j < ws.len() - 1 {
                assert(d[i] == ws[i]);
                assert(d[j] == ws[j]);
            } else if i < j {
                assert(d[i] == ws[i]);
                assert(d[j - 1] == ws[j - 1]);
                assert(fingerprint(ws[j - 1], ps) <= fingerprint(ws[j], ps));
            }
        }
    }
}

proof fn lemma_sorted_same_bag_equal(a: Seq<Seq<u8>>, b: Seq<Seq<u8>>, ps: Seq<u128>)
    requires
        a.to_multiset() == b.to_multiset(),
        forall|i: int, j: int| 0 <= i < j < a.len() ==> fingerprint(#[trigger] a[i], ps) < fingerprint(#[trigger] a[j], ps),
        forall|i: int, j: int| 0 <= i <= j < b.len() ==> fingerprint(#[trigger] b[i], ps) <= fingerprint(#[trigger] b[j], ps),
    ensures
        a == b,
    decreases a.len(),
{
    if a.len() == 0 {
        vstd::seq_lib::to_multiset_len(a);
        vstd::seq_lib::to_multiset_len(b);
        assert(b.to_multiset().len() == 0);
        assert(b =~= a);
    } else {
        vstd::seq_lib::to_multiset_len(a);
        vstd::seq_lib::to_multiset_len(b);
        assert(b.len() == a.len());
        assert(a.to_multiset().count(a[0]) > 0);
        assert(b.contains(a[0]));
        let i2 = choose|i: int| 0 <= i < b.len() && b[i] == a[0];
        assert(b.to_multiset().count(b[0]) > 0);
        assert(a.contains(b[0]));
        let i1 = choose|i: int| 0 <= i < a.len() && a[i] == b[0];
        assert(fingerprint(b[0], ps) <= fingerprint(b[i2], ps));
        if i1 > 0 {
            assert(fingerprint(a[0], ps) < fingerprint(a[i1], ps));
        }
        assert(a[0] == b[0]);
        let da = a.drop_first();
        let db = b.drop_first();
        assert(a.remove(0) =~= da);
        assert(b.remove(0) =~= db);
        assert(da.to_multiset() =~= db.to_multiset());
        assert forall|i: int, j: int| 0 <= i < j < da.len() implies fingerprint(#[trigger] da[i], ps) < fingerprint(#[trigger] da[j], ps) by {
            assert(da[i] == a[i + 1]);
            assert(da[j] == a[j + 1]);
        }
        assert forall|i: int, j: int| 0 <= i <= j < db.len() implies fingerprint(#[trigger] db[i], ps) <= fingerprint(#[trigger] db[j], ps) by {
            assert(db[i] == b[i + 1]);
            assert(db[j] == b[j + 1]);
        }
        lemma_sorted_same_bag_equal(da, db, ps);
        assert forall|i: int| 0 <= i < a.len() implies a[i] == b[i] by {
            if i > 0 {
                assert(a[i] == da[i - 1]);
                assert(b[i] == db[i - 1]);
            }
        }
        assert(a =~= b);
    }
}

/// Two answers in canonical order that use the same words, each word from a different
/// anagram class, are the same answer: the order of fingerprints leaves no other way to
/// write them. (When one class gives two of the words, its spellings may swap places.)
pub proof fn lemma_canonical_answers_of_distinct_classes_agree(
    words: Seq<Seq<u8>>,
    a: Seq<usize>,
    b: Seq<usize>,
    primes_of: Seq<u128>,
)
    requires
        canonical(words, a, primes_of),
        canonical(words, b, primes_of),
        picked_words(words, a).to_multiset() == picked_words(words, b).to_multiset(),
        forall|i: int, j: int|
            0 <= i < j < a.len() ==> fingerprint(words[#[trigger] a[i] as int], primes_of) != fingerprint(
                words[#[trigger] a[j] as int],
                primes_of,
            ),
    ensures
        picked_words(words, a) == picked_words(words, b),
{
    let wa = picked_words(words, a);
    let wb = picked_words(words, b);
    assert forall|j: int| 0 <= j < wa.len() - 1 implies fingerprint(#[trigger] wa[j], primes_of) <= fingerprint(wa[j + 1], primes_of) by {
        assert(wa[j] == words[a[j] as int]);
        assert(wa[j + 1] == words[a[j + 1] as int]);
    }
    assert forall|j: int| 0 <= j < wb.len() - 1 implies fingerprint(#[trigger] wb[j], primes_of) <= fingerprint(wb[j + 1], primes_of) by {
        assert(wb[j] == words[b[j] as int]);
        assert(wb[j + 1] == words[b[j + 1] as int]);
    }
    lemma_sorted_all_pairs(wa, primes_of);
    lemma_sorted_all_pairs(wb, primes_of);
    assert forall|i: int, j: int| 0 <= i < j < wa.len() implies fingerprint(#[trigger] wa[i], primes_of) < fingerprint(#[trigger] wa[j], primes_of) by {
        assert(wa[i] == words[a[i] as int]);
        assert(wa[j] == words[a[j] as int]);
    }
    lemma_sorted_same_bag_equal(wa, wb, primes_of);
}

/// Candidate `p` comes no later than `q` in canonical order: by fingerprint, then by
/// candidate position.
pub open spec fn comes_before(words: Seq<Seq<u8>>, ps: Seq<u128>, p: usize, q: usize) -> bool {
    fingerprint(words[p as int], ps) < fingerprint(words[q as int], ps) || (fingerprint(words[p as int], ps)
        == fingerprint(words[q as int], ps) && p <= q)
}

proof fn lemma_canonical_all_pairs(words: Seq<Seq<u8>>, pick: Seq<usize>, ps: Seq<u128>)
    requires
        canonical(words, pick, ps),
    ensures
        forall|i: int, j: int| 0 <= i <= j < pick.len() ==> comes_before(words, ps, #[trigger] pick[i], #[trigger] pick[j]),
    decreases pick.len(),
{
    if pick.len() > 1 {
        let d = pick.drop_last();
        assert forall|j: int| 0 <= j < d.len() - 1 implies fingerprint(words[#[trigger] d[j] as int], ps) < fingerprint(
            words[d[j + 1] as int],
            ps,
        ) || (fingerprint(words[d[j] as int], ps) == fingerprint(words[d[j + 1] as int], ps) && d[j] <= d[j + 1]) by {
            assert(d[j] == pick[j]);
            assert(d[j + 1] == pick[j + 1]);
        }
        lemma_canonical_all_pairs(words, d, ps);
        assert forall|i: int, j: int| 0 <= i <= j < pick.len() implies comes_before(words, ps, #[trigger] pick[i], #[trigger] pick[j]) by {
            if j < pick.len() - 1 {
                assert(d[i] == pick[i]);
                assert(d[j] == pick[j]);
            } else if i < j {
                assert(d[i] == pick[i]);
                assert(d[j - 1] == pick[j - 1]);
                assert(comes_before(words, ps, pick[i], pick[j - 1]));
                assert(comes_before(words, ps, pick[j - 1], pick[j]));
            }
        }
    }
}

proof fn lemma_sorted_picks_equal(words: Seq<Seq<u8>>, a: Seq<usize>, b: Seq<usize>, ps: Seq<u128>)
    requires
        a.to_multiset() == b.to_multiset(),
        forall|i: int, j: int| 0 <= i <= j < a.len() ==> comes_before(words, ps, #[trigger] a[i], #[trigger] a[j]),
        forall|i: int, j: int| 0 <= i <= j < b.len() ==> comes_before(words, ps, #[trigger] b[i], #[trigger] b[j]),
    ensures
        a == b,
    decreases a.len(),
{
    vstd::seq_lib::to_multiset_len(a);
    vstd::seq_lib::to_multiset_len(b);
    if a.len() == 0 {
        assert(b =~= a);
    } else {
        assert(a.to_multiset().count(a[0]) > 0);
        assert(b.contains(a[0]));
        let i2 = choose|i: int| 0 <= i < b.len() && b[i] == a[0];
        assert(b.to_multiset().count(b[0]) > 0);
        assert(a.contains(b[0]));
        let i1 = choose|i: int| 0 <= i < a.len() && a[i] == b[0];
        assert(comes_before(words, ps, b[0], b[i2]));
        assert(comes_before(words, ps, a[0], a[i1]));
        assert(a[0] == b[0]);
        let da = a.drop_first();
        let db = b.drop_first();
        assert(a.remove(0) =~= da);
        assert(b.remove(0) =~= db);
        assert(da.to_multiset() =~= db.to_multiset());
        assert forall|i: int, j: int| 0 <= i <= j < da.len() implies comes_before(words, ps, #[trigger] da[i], #[trigger] da[j]) by {
            assert(da[i] == a[i + 1]);
            assert(da[j] == a[j + 1]);
        }
        assert forall|i: int, j: int| 0 <= i <= j < db.len() implies comes_before(words, ps, #[trigger] db[i], #[trigger] db[j]) by {
            assert(db[i] == b[i + 1]);
            assert(db[j] == b[j + 1]);
        }
        lemma_sorted_picks_equal(words, da, db, ps);
        assert forall|i: int| 0 <= i < a.len() implies a[i] == b[i] by {
            if i > 0 {
                assert(a[i] == da[i - 1]);
                assert(b[i] == db[i - 1]);
            }
        }
        assert(a =~= b);
    }
}

/// Two answers in canonical order that pick the same candidates, in any numbers, are the
/// same answer: no answer is a reordering of another.
pub proof fn lemma_canonical_picks_agree(words: Seq<Seq<u8>>, a: Seq<usize>, b: Seq<usize>, primes_of: Seq<u128>)
    requires
        canonical(words, a, primes_of),
        canonical(words, b, primes_of),
        a.to_multiset() == b.to_multiset(),
    ensures
        a == b,
{
    lemma_canonical_all_pairs(words, a, primes_of);
    lemma_canonical_all_pairs(words, b, primes_of);
    lemma_sorted_picks_equal(words, a, b, primes_of);
}

/// No two listed answers pick the same candidates in another order.
pub proof fn lemma_listed_answers_not_permutations(
    picks: Seq<Seq<usize>>,
    strings: Seq<String>,
    words: Seq<Seq<u8>>,
    scores: Seq<i32>,
    lead: Seq<Seq<u8>>,
    bag: Multiset<u8>,
    min_length: usize,
    max_words: usize,
)
    requires
        answers_listed(picks, strings, words, scores, lead, bag, min_length, max_words),
    ensures
        forall|a: int, b: int|
            0 <= a < picks.len() && 0 <= b < picks.len() && a != b ==> (#[trigger] picks[a]).to_multiset()
                != (#[trigger] picks[b]).to_multiset(),
{
    assert forall|a: int, b: int|
        0 <= a < picks.len() && 0 <= b < picks.len() && a != b implies (#[trigger] picks[a]).to_multiset()
            != (#[trigger] picks[b]).to_multiset() by {
        if picks[a].to_multiset() == picks[b].to_multiset() {
            assert(canonical(words, picks[a], query_primes(words)));
            assert(canonical(words, picks[b], query_primes(words)));
            lemma_canonical_picks_agree(words, picks[a], picks[b], query_primes(words));
        }
    }
}

/// Two listings of the answers to one query hold the same answers, as many of them: they
/// can differ only in the order of answers of equal mean score.
pub proof fn lemma_listings_hold_same_answers(
    p1: Seq<Seq<usize>>,
    s1: Seq<String>,
    p2: Seq<Seq<usize>>,
    s2: Seq<String>,
    words: Seq<Seq<u8>>,
    scores: Seq<i32>,
    lead: Seq<Seq<u8>>,
    bag: Multiset<u8>,
    min_length: usize,
    max_words: usize,
)
    requires
        answers_listed(p1, s1, words, scores, lead, bag, min_length, max_words),
        answers_listed(p2, s2, words, scores, lead, bag, min_length, max_words),
    ensures
        p1.to_set() == p2.to_set(),
        p1.len() == p2.len(),
{
    assert forall|x: Seq<usize>| p1.to_set().contains(x) <==> p2.to_set().contains(x) by {
        if p1.contains(x) {
            let i = choose|i: int| 0 <= i < p1.len() && p1[i] == x;
            assert(is_answer(words, p1[i], bag, min_length, max_words, lead.len() as int));
            assert(canonical(words, p1[i], query_primes(words)));
        }
        if p2.contains(x) {
            let i = choose|i: int| 0 <= i < p2.len() && p2[i] == x;
            assert(is_answer(words, p2[i], bag, min_length, max_words, lead.len() as int));
            assert(canonical(words, p2[i], query_primes(words)));
        }
    }
    assert(p1.to_set() =~= p2.to_set());
    p1.unique_seq_to_set();
    p2.unique_seq_to_set();
}

} // verus!
