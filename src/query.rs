//! The entry point: one query against a parsed dictionary.
use crate::alphabet::fingerprint;
use crate::classes::{class_of_words, in_some_class, lemma_counter_total_is_length, listed_once, SolveError};
use crate::dictionary::{entries_view, keeps, lemma_selected_keeps, select_candidates, selected, Entry};
use crate::letters::{
    all_letters, counts_bag, fits_in, is_letter, letter_of, lemma_no_other_bytes, to_counter,
    words_view, ALPHA_SIZE,
};
use crate::normalize::{
    bytes_as_chars, letter_bag, normalize, normalize_seed, remove_includes, remove_words,
    strings_view, word_bytes,
};
use crate::search::{
    cache_ok, counter_sum, counter_total, find_anagrams_counter, lemma_total_bounds, path_count,
    covered_all, emitted_ok, paths_of, valid_tail, SearchSpace, WordClass,
};
use crate::solver::{
    ascii_string, expand_paths, from_some_path, join_bytes, join_words, lemma_pick_letters,
    mean_at_least, picked_words, picks_from, picks_view, prepare, query_primes, rank_answers,
    residual_key,
};
use std::collections::HashMap;
use vstd::multiset::Multiset;
use vstd::prelude::*;
use vstd::slice::slice_to_vec;

verus! {

broadcast use {vstd::std_specs::hash::group_hash_axioms, vstd::seq_lib::group_to_multiset_ensures};

/// The answers to a query, best first, and the dictionary words that could take part in
/// one.
pub struct ResultsStruct {
    pub anagrams: Vec<String>,
    pub partials: Vec<String>,
}

/// The bag of letters that the searched words must spell: the seed's letters less those
/// of the included words, or `None` if an included word does not fit.
pub open spec fn query_bag(seed: Seq<char>, includes: Seq<Seq<char>>) -> Option<Multiset<u8>> {
    remove_words(normalize(seed).to_multiset(), includes)
}

/// The bytes of the included words.
pub open spec fn include_words(includes: Seq<Seq<char>>) -> Seq<Seq<u8>> {
    includes.map_values(|w: Seq<char>| word_bytes(w)->0)
}

/// The positions of the candidate entries of a query on the bag `bag`.
pub open spec fn candidates_of(
    entries: Seq<Entry>,
    top_n: usize,
    bag: Multiset<u8>,
    min_length: usize,
    excludes: Seq<Seq<char>>,
) -> Seq<usize> {
    let es = entries_view(entries);
    selected(
        es.take(if top_n < es.len() { top_n as int } else { es.len() as int }),
        bag,
        min_length,
        excludes,
    )
}

/// The words of the candidate entries at `cands`.
pub open spec fn cand_words(entries: Seq<Entry>, cands: Seq<usize>) -> Seq<Seq<u8>> {
    cands.map_values(|p: usize| entries[p as int].word@)
}

/// The scores of the candidate entries at `cands`.
pub open spec fn cand_scores(entries: Seq<Entry>, cands: Seq<usize>) -> Seq<i32> {
    cands.map_values(|p: usize| entries[p as int].score)
}

/// `pick` (positions among the candidate words `words`) is an answer: one or more words,
/// each of at least `min_length` letters, no more than `max_words` counting the
/// `n_includes` included words, whose letters together are exactly the bag.
pub open spec fn is_answer(
    words: Seq<Seq<u8>>,
    pick: Seq<usize>,
    bag: Multiset<u8>,
    min_length: usize,
    max_words: usize,
    n_includes: int,
) -> bool {
    &&& 1 <= pick.len()
    &&& pick.len() + n_includes <= max_words
    &&& forall|j: int| 0 <= j < pick.len() ==> #[trigger] pick[j] < words.len()
    &&& forall|j: int| 0 <= j < pick.len() ==> words[#[trigger] pick[j] as int].len() >= min_length
    &&& picked_words(words, pick).flatten().to_multiset() == bag
}

/// The picked words come in order of non-decreasing fingerprint, the order in which the
/// search produces them, and words of equal fingerprint in candidate order: each choice
/// of words has exactly one canonical order.
pub open spec fn canonical(words: Seq<Seq<u8>>, pick: Seq<usize>, primes_of: Seq<u128>) -> bool {
    forall|j: int|
        0 <= j < pick.len() - 1 ==> fingerprint(words[#[trigger] pick[j] as int], primes_of) < fingerprint(
            words[pick[j + 1] as int],
            primes_of,
        ) || (fingerprint(words[pick[j] as int], primes_of) == fingerprint(words[pick[j + 1] as int], primes_of)
            && pick[j] <= pick[j + 1])
}

/// `strings` lists the answers `picks`, each written as the included words `lead` and then
/// its own words, joined by spaces, in order of non-increasing mean score; the picks are
/// exactly the answers whose words come in canonical order, each listed once.
pub open spec fn answers_listed(
    picks: Seq<Seq<usize>>,
    strings: Seq<String>,
    words: Seq<Seq<u8>>,
    scores: Seq<i32>,
    lead: Seq<Seq<u8>>,
    bag: Multiset<u8>,
    min_length: usize,
    max_words: usize,
) -> bool {
    &&& picks.len() == strings.len()
    &&& picks.no_duplicates()
    &&& forall|k: int|
        0 <= k < picks.len() ==> is_answer(words, #[trigger] picks[k], bag, min_length, max_words, lead.len() as int)
    &&& forall|k: int|
        0 <= k < picks.len() ==> (#[trigger] strings[k])@ == bytes_as_chars(
            join_words(lead + picked_words(words, picks[k])),
        )
    &&& forall|a: int, b: int|
        0 <= a < b < picks.len() ==> mean_at_least(scores, #[trigger] picks[a], #[trigger] picks[b])
    &&& forall|k: int| 0 <= k < picks.len() ==> canonical(words, #[trigger] picks[k], query_primes(words))
    &&& forall|pick: Seq<usize>|
        #[trigger] is_answer(words, pick, bag, min_length, max_words, lead.len() as int) && canonical(
            words,
            pick,
            query_primes(words),
        ) ==> picks.contains(pick)
}

/// A pick drawn from a decomposition of `target` is an answer for the bag that `target`
/// counts.
proof fn lemma_answer(
    space: SearchSpace,
    words: Seq<Seq<u8>>,
    primes_of: Seq<u128>,
    paths: Seq<Seq<usize>>,
    target: Seq<usize>,
    bag: Multiset<u8>,
    pick: Seq<usize>,
)
    requires
        space.wf(),
        forall|k: int| 0 <= k < space.classes@.len() ==> #[trigger] class_of_words(space.classes@[k], words, primes_of),
        forall|f: int|
            0 <= f < paths.len() ==> (#[trigger] paths[f]).len() <= space.max_words && valid_tail(
                space.classes@,
                paths[f],
                target,
                2,
                space.min_length,
            ),
        counts_bag(target, bag),
        letter_bag(bag),
        from_some_path(space.classes@, paths, pick),
    ensures
        1 <= pick.len() <= space.max_words,
        forall|j: int| 0 <= j < pick.len() ==> #[trigger] pick[j] < words.len(),
        forall|j: int| 0 <= j < pick.len() ==> words[#[trigger] pick[j] as int].len() >= space.min_length,
        picked_words(words, pick).flatten().to_multiset() == bag,
        canonical(words, pick, primes_of),
{
    let classes = space.classes@;
    let f = choose|f: int| 0 <= f < paths.len() && #[trigger] picks_from(classes, paths[f], pick);
    let path = paths[f];
    assert(valid_tail(classes, path, target, 2, space.min_length));
    assert forall|j: int| 0 <= j < pick.len() implies #[trigger] pick[j] < words.len()
        && words[pick[j] as int].len() >= space.min_length by {
        let c = classes[path[j] as int];
        assert(path[j] < classes.len());
        assert(class_of_words(c, words, primes_of));
        assert(c.words@.contains(pick[j]));
        let x = choose|x: int| 0 <= x < c.words@.len() && c.words@[x] == pick[j];
        assert(c.words@[x] < words.len());
        assert(classes[path[j] as int].length >= space.min_length);
    }
    lemma_pick_letters(classes, words, primes_of, path, pick);
    let flat = picked_words(words, pick).flatten();
    assert forall|v: u8| flat.to_multiset().count(v) == bag.count(v) by {
        if is_letter(v) {
            let l = v - 97;
            assert(letter_of(l) == v);
            assert(path_count(classes, path, l) == target[l]);
        } else {
            lemma_no_other_bytes(flat, v);
        }
    }
    assert(flat.to_multiset() =~= bag);
    assert forall|j: int| 0 <= j < pick.len() - 1 implies fingerprint(words[#[trigger] pick[j] as int], primes_of)
        < fingerprint(words[pick[j + 1] as int], primes_of) || (fingerprint(words[pick[j] as int], primes_of)
        == fingerprint(words[pick[j + 1] as int], primes_of) && pick[j] <= pick[j + 1]) by {
        let c1 = classes[path[j] as int];
        let c2 = classes[path[j + 1] as int];
        assert(path[j] < classes.len());
        assert(path[j + 1] < classes.len());
        assert(class_of_words(c1, words, primes_of));
        assert(class_of_words(c2, words, primes_of));
        assert(c1.words@.contains(pick[j]));
        assert(c2.words@.contains(pick[j + 1]));
        let x1 = choose|x: int| 0 <= x < c1.words@.len() && c1.words@[x] == pick[j];
        let x2 = choose|x: int| 0 <= x < c2.words@.len() && c2.words@[x] == pick[j + 1];
        assert(c1.words@[x1] == pick[j]);
        assert(c2.words@[x2] == pick[j + 1]);
        assert(c1.fingerprint <= c2.fingerprint);
    }
}

/// A canonical answer is made of the words of one decomposition into classes.
proof fn lemma_answer_has_path(
    space: SearchSpace,
    words: Seq<Seq<u8>>,
    primes_of: Seq<u128>,
    target: Seq<usize>,
    bag: Multiset<u8>,
    pick: Seq<usize>,
) -> (path: Seq<usize>)
    requires
        space.wf(),
        forall|k: int| 0 <= k < space.classes@.len() ==> #[trigger] class_of_words(space.classes@[k], words, primes_of),
        forall|i: int| 0 <= i < words.len() ==> #[trigger] in_some_class(space.classes@, i as usize),
        forall|i: int| 0 <= i < words.len() ==> all_letters(#[trigger] words[i]) && words[i].len() >= 1,
        primes_of.len() == 26,
        forall|l: int| 0 <= l < 26 ==> #[trigger] primes_of[l] >= 2,
        counts_bag(target, bag),
        space.classes@.len() <= usize::MAX,
        1 <= pick.len() <= space.max_words,
        forall|j: int| 0 <= j < pick.len() ==> #[trigger] pick[j] < words.len(),
        forall|j: int| 0 <= j < pick.len() ==> words[#[trigger] pick[j] as int].len() >= space.min_length,
        picked_words(words, pick).flatten().to_multiset() == bag,
        canonical(words, pick, primes_of),
    ensures
        picks_from(space.classes@, path, pick),
        valid_tail(space.classes@, path, target, 2, space.min_length),
        path.len() <= space.max_words,
{
    let classes = space.classes@;
    let path = Seq::new(
        pick.len(),
        |j: int| (choose|k: int| 0 <= k < classes.len() && #[trigger] classes[k].words@.contains(pick[j])) as usize,
    );
    assert forall|j: int| 0 <= j < pick.len() implies #[trigger] path[j] < classes.len()
        && classes[path[j] as int].words@.contains(pick[j]) && classes[path[j] as int].fingerprint == fingerprint(
        words[pick[j] as int],
        primes_of,
    ) && classes[path[j] as int].length == words[pick[j] as int].len() by {
        assert(in_some_class(space.classes@, (pick[j] as int) as usize));
        let k = choose|k: int| 0 <= k < classes.len() && #[trigger] classes[k].words@.contains(pick[j]);
        assert(path[j] == k as usize);
        assert(class_of_words(classes[k], words, primes_of));
        let x = choose|x: int| 0 <= x < classes[k].words@.len() && classes[k].words@[x] == pick[j];
        assert(classes[k].words@[x] == pick[j]);
    }
    assert(picks_from(classes, path, pick));
    lemma_pick_letters(classes, words, primes_of, path, pick);
    let flat = picked_words(words, pick).flatten();
    assert forall|l: int| 0 <= l < 26 implies #[trigger] path_count(classes, path, l) == target[l] by {
        assert(flat.to_multiset().count(letter_of(l)) == path_count(classes, path, l));
    }
    assert(path[0] < classes.len());
    crate::alphabet::lemma_fingerprint_at_least_two(words[pick[0] as int], primes_of);
    assert forall|j: int| 0 <= j < path.len() - 1 implies classes[#[trigger] path[j] as int].fingerprint
        <= classes[path[j + 1] as int].fingerprint by {
        assert(path[j] < classes.len());
        assert(path[j + 1] < classes.len());
    }
    assert forall|j: int| 0 <= j < path.len() implies classes[#[trigger] path[j] as int].length >= space.min_length by {
        assert(path[j] < classes.len());
    }
    path
}

proof fn lemma_total_zero(c: Seq<usize>)
    ensures
        (counter_total(c) == 0) == (forall|i: int| 0 <= i < c.len() ==> #[trigger] c[i] == 0),
    decreases c.len(),
{
    if c.len() > 0 {
        lemma_total_zero(c.drop_last());
        crate::search::lemma_total_nonneg(c.drop_last());
        if counter_total(c) == 0 {
            assert forall|i: int| 0 <= i < c.len() implies #[trigger] c[i] == 0 by {
                if i < c.len() - 1 {
                    assert(c[i] == c.drop_last()[i]);
                }
            }
        } else if forall|i: int| 0 <= i < c.len() ==> #[trigger] c[i] == 0 {
            assert forall|i: int| 0 <= i < c.drop_last().len() implies #[trigger] c.drop_last()[i] == 0 by {
                assert(c[i] == 0);
            }
            assert(c[c.len() - 1] == 0);
        }
    }
}

/// A bag is empty exactly when its counter adds up to zero.
proof fn lemma_empty_bag(c: Seq<usize>, bag: Multiset<u8>)
    requires
        counts_bag(c, bag),
        letter_bag(bag),
    ensures
        (counter_total(c) == 0) == (bag.len() == 0),
{
    lemma_total_zero(c);
    vstd::multiset::lemma_multiset_empty_len(bag);
    if counter_total(c) == 0 {
        assert forall|v: u8| bag.count(v) == Multiset::<u8>::empty().count(v) by {
            if is_letter(v) {
                let l = v - 97;
                assert(letter_of(l) == v);
                assert(c[l] == 0);
            }
        }
        assert(bag =~= Multiset::empty());
    } else {
        let i = choose|i: int| 0 <= i < c.len() && c[i] != 0;
        assert(bag.count(letter_of(i)) > 0);
        assert(bag.count(letter_of(i)) != Multiset::<u8>::empty().count(letter_of(i)));
    }
}

/// `res` answers a query on the bag `bag` whose candidates are the entries at `cands`: the
/// partials are the candidate words, each of them kept by the query; if the bag is empty,
/// the only answer is the included words `lead` (when there are some, and no more than
/// `max_words`); else the answers are listed as `answers_listed` says.
pub open spec fn query_answered(
    res: ResultsStruct,
    entries: Seq<Entry>,
    cands: Seq<usize>,
    bag: Multiset<u8>,
    lead: Seq<Seq<u8>>,
    min_length: usize,
    max_words: usize,
    excludes: Seq<Seq<char>>,
) -> bool {
    let words = cand_words(entries, cands);
    let scores = cand_scores(entries, cands);
    &&& res.partials@.len() == cands.len()
    &&& forall|i: int|
        0 <= i < cands.len() ==> (#[trigger] res.partials@[i])@ == bytes_as_chars(words[i])
    &&& forall|i: int|
        0 <= i < cands.len() ==> keeps(entries_view(entries)[#[trigger] cands[i] as int], bag, min_length, excludes)
    &&& if bag.len() == 0 {
        &&& res.anagrams@.len() == (if 0 < lead.len() <= max_words { 1int } else { 0int })
        &&& 0 < lead.len() <= max_words ==> res.anagrams@[0]@ == bytes_as_chars(join_words(lead))
    } else {
        exists|picks: Seq<Seq<usize>>|
            answers_listed(picks, res.anagrams@, words, scores, lead, bag, min_length, max_words)
    }
}

/// Words of lowercase letters joined by spaces are ASCII.
proof fn lemma_join_ascii(ws: Seq<Seq<u8>>)
    requires
        forall|i: int| 0 <= i < ws.len() ==> all_letters(#[trigger] ws[i]),
    ensures
        forall|x: int| 0 <= x < join_words(ws).len() ==> #[trigger] join_words(ws)[x] < 128,
    decreases ws.len(),
{
    if ws.len() == 1 {
        assert(all_letters(ws[0]));
    } else if ws.len() > 1 {
        let d = ws.drop_last();
        assert forall|i: int| 0 <= i < d.len() implies all_letters(#[trigger] d[i]) by {
            assert(d[i] == ws[i]);
        }
        lemma_join_ascii(d);
        let j = join_words(ws);
        let a = join_words(d);
        assert(all_letters(ws[ws.len() - 1]));
        assert forall|x: int| 0 <= x < j.len() implies #[trigger] j[x] < 128 by {
            if x < a.len() {
                assert(j[x] == a[x]);
            } else if x == a.len() {
                assert(j[x] == 32);
            } else {
                assert(j[x] == ws.last()[x - a.len() - 1]);
            }
        }
    }
}

/// Writes an answer: the included words and then the picked ones, joined by spaces.
fn render_answer(lead: &Vec<Vec<u8>>, words: &Vec<Vec<u8>>, pick: &Vec<usize>) -> (r: String)
    requires
        forall|i: int| 0 <= i < lead@.len() ==> all_letters(#[trigger] lead@[i]@),
        forall|i: int| 0 <= i < words@.len() ==> all_letters(#[trigger] words@[i]@),
        forall|j: int| 0 <= j < pick@.len() ==> #[trigger] pick@[j] < words@.len(),
    ensures
        r@ == bytes_as_chars(join_words(words_view(lead@) + picked_words(words_view(words@), pick@))),
{
    let ghost full = words_view(lead@) + picked_words(words_view(words@), pick@);
    let mut line: Vec<Vec<u8>> = Vec::new();
    let mut j: usize = 0;
    while j < lead.len()
        invariant
            j <= lead@.len(),
            line@.len() == j,
            forall|x: int| 0 <= x < j ==> (#[trigger] line@[x])@ == lead@[x]@,
        decreases lead@.len() - j,
    {
        line.push(slice_to_vec(lead[j].as_slice()));
        j += 1;
    }
    let mut j: usize = 0;
    while j < pick.len()
        invariant
            j <= pick@.len(),
            forall|j: int| 0 <= j < pick@.len() ==> #[trigger] pick@[j] < words@.len(),
            line@.len() == lead@.len() + j,
            forall|x: int| 0 <= x < lead@.len() ==> (#[trigger] line@[x])@ == lead@[x]@,
            forall|x: int| lead@.len() <= x < lead@.len() + j ==> (#[trigger] line@[x])@ == words@[pick@[x - lead@.len()] as int]@,
        decreases pick@.len() - j,
    {
        line.push(slice_to_vec(words[pick[j]].as_slice()));
        j += 1;
    }
    let joined = join_bytes(&line);
    proof {
        assert forall|x: int| 0 <= x < full.len() implies #[trigger] words_view(line@)[x] == full[x] by {
            if x < lead@.len() {
                assert(full[x] == words_view(lead@)[x]);
            } else {
                assert(full[x] == picked_words(words_view(words@), pick@)[x - lead@.len()]);
            }
        }
        assert(words_view(line@) =~= full);
        assert forall|x: int| 0 <= x < full.len() implies all_letters(#[trigger] full[x]) by {
            if x < lead@.len() {
                assert(full[x] == lead@[x]@);
            } else {
                assert(full[x] == words@[pick@[x - lead@.len()] as int]@);
            }
        }
        lemma_join_ascii(full);
    }
    ascii_string(joined)
}

/// Searches the space for the decompositions of the bag counted by `bag_counter`, expands
/// them into picks of candidate words and ranks those by mean score.
fn find_answers(
    space: &SearchSpace,
    words: &Vec<Vec<u8>>,
    primes_of: &Vec<u128>,
    bag_counter: &Vec<usize>,
    total: usize,
    scores: &Vec<i32>,
    bag: Ghost<Multiset<u8>>,
) -> (r: Vec<Vec<usize>>)
    requires
        space.wf(),
        space.max_words <= 16,
        forall|k: int|
            0 <= k < space.classes@.len() ==> #[trigger] class_of_words(
                space.classes@[k],
                words_view(words@),
                primes_of@,
            ),
        bag_counter@.len() == ALPHA_SIZE,
        primes_of@.len() == ALPHA_SIZE,
        counts_bag(bag_counter@, bag@),
        letter_bag(bag@),
        total == counter_total(bag_counter@),
        scores@.len() == words@.len(),
        forall|i: int| 0 <= i < words@.len() ==> #[trigger] in_some_class(space.classes@, i as usize),
        forall|i: int| 0 <= i < words@.len() ==> all_letters(#[trigger] words@[i]@) && words@[i]@.len() >= 1,
        forall|l: int| 0 <= l < 26 ==> #[trigger] primes_of@[l] >= 2,
        listed_once(space.classes@),
    ensures
        picks_view(r@).no_duplicates(),
        forall|k: int|
            0 <= k < r@.len() ==> {
                let pick = (#[trigger] r@[k])@;
                &&& 1 <= pick.len() <= space.max_words
                &&& forall|j: int| 0 <= j < pick.len() ==> #[trigger] pick[j] < words@.len()
                &&& forall|j: int| 0 <= j < pick.len() ==> words@[#[trigger] pick[j] as int]@.len() >= space.min_length
                &&& picked_words(words_view(words@), pick).flatten().to_multiset() == bag@
            },
        forall|a: int, b: int|
            0 <= a < b < r@.len() ==> mean_at_least(scores@, (#[trigger] r@[a])@, (#[trigger] r@[b])@),
        forall|k: int| 0 <= k < r@.len() ==> canonical(words_view(words@), #[trigger] r@[k]@, primes_of@),
        forall|pick: Seq<usize>|
            1 <= pick.len() <= space.max_words && (forall|j: int| 0 <= j < pick.len() ==> #[trigger] pick[j] < words@.len())
                && (forall|j: int| 0 <= j < pick.len() ==> words@[#[trigger] pick[j] as int]@.len() >= space.min_length)
                && #[trigger] picked_words(words_view(words@), pick).flatten().to_multiset() == bag@
                && canonical(words_view(words@), pick, primes_of@) ==> picks_view(r@).contains(pick),
{
    let ghost wv = words_view(words@);
    let mut target = slice_to_vec(bag_counter.as_slice());
    let key = residual_key(bag_counter, primes_of);
    let mut path: Vec<usize> = Vec::new();
    let mut found: Vec<Vec<usize>> = Vec::new();
    let mut cache: HashMap<u128, (Vec<usize>, Vec<usize>)> = HashMap::new();
    proof {
        assert(cache_ok(cache@, space.classes@));
    }
    find_anagrams_counter(space, total, &mut target, key, &mut path, &mut found, 2, &mut cache);
    let ghost paths = picks_view(found@);
    proof {
        reveal(emitted_ok);
        reveal(covered_all);
        assert forall|f: int| 0 <= f < paths.len() implies (#[trigger] paths[f]).len() <= space.max_words
            && valid_tail(space.classes@, paths[f], bag_counter@, 2, space.min_length) by {
            assert(paths[f] == found@[f]@);
            assert(found@[f]@.skip(0) =~= found@[f]@);
        }
        assert forall|f: int| 0 <= f < found@.len() implies forall|j: int|
            0 <= j < (#[trigger] found@[f])@.len() ==> #[trigger] found@[f]@[j] < space.classes@.len() by {
            assert(paths[f] == found@[f]@);
            assert(valid_tail(space.classes@, paths[f], bag_counter@, 2, space.min_length));
            assert forall|j: int| 0 <= j < found@[f]@.len() implies #[trigger] found@[f]@[j] < space.classes@.len() by {
                assert(paths[f][j] == found@[f]@[j]);
            }
        }
    }
    proof {
        assert(path@ =~= Seq::<usize>::empty());
    }
    // the number of classes fits in a usize, so each class has a usize index
    let _n_classes = space.classes.len();
    let picks = expand_paths(space, &found);
    proof {
        assert forall|k: int| 0 <= k < picks@.len() implies 1 <= (#[trigger] picks@[k])@.len() <= 16
            && forall|j: int| 0 <= j < picks@[k]@.len() ==> #[trigger] picks@[k]@[j] < scores@.len() by {
            lemma_answer(*space, wv, primes_of@, paths, bag_counter@, bag@, picks@[k]@);
        }
    }
    let ghost unranked = picks_view(picks@);
    let (ranked, _order) = rank_answers(picks, scores);
    proof {
        assert forall|k: int| 0 <= k < ranked@.len() implies {
            let pick = (#[trigger] ranked@[k])@;
            &&& 1 <= pick.len() <= space.max_words
            &&& forall|j: int| 0 <= j < pick.len() ==> #[trigger] pick[j] < words@.len()
            &&& forall|j: int| 0 <= j < pick.len() ==> words@[#[trigger] pick[j] as int]@.len() >= space.min_length
            &&& picked_words(words_view(words@), pick).flatten().to_multiset() == bag@
        } by {
            assert(unranked.contains(ranked@[k]@));
            let i = choose|i: int| 0 <= i < unranked.len() && unranked[i] == ranked@[k]@;
            lemma_answer(*space, wv, primes_of@, paths, bag_counter@, bag@, unranked[i]);
            let pick = ranked@[k]@;
            assert forall|j: int| 0 <= j < pick.len() implies words@[#[trigger] pick[j] as int]@.len() >= space.min_length by {
                assert(wv[pick[j] as int] == words@[pick[j] as int]@);
            }
        }
        assert forall|k: int| 0 <= k < ranked@.len() implies canonical(words_view(words@), #[trigger] ranked@[k]@, primes_of@) by {
            assert(unranked.contains(ranked@[k]@));
            let i = choose|i: int| 0 <= i < unranked.len() && unranked[i] == ranked@[k]@;
            lemma_answer(*space, wv, primes_of@, paths, bag_counter@, bag@, unranked[i]);
        }
        assert forall|pick: Seq<usize>|
            1 <= pick.len() <= space.max_words && (forall|j: int| 0 <= j < pick.len() ==> #[trigger] pick[j] < words@.len())
                && (forall|j: int| 0 <= j < pick.len() ==> words@[#[trigger] pick[j] as int]@.len() >= space.min_length)
                && #[trigger] picked_words(words_view(words@), pick).flatten().to_multiset() == bag@
                && canonical(words_view(words@), pick, primes_of@) implies picks_view(ranked@).contains(pick) by {
            assert forall|i: int| 0 <= i < wv.len() implies all_letters(#[trigger] wv[i]) && wv[i].len() >= 1 by {
                assert(wv[i] == words@[i]@);
            }
            assert forall|j: int| 0 <= j < pick.len() implies wv[#[trigger] pick[j] as int].len() >= space.min_length by {
                assert(wv[pick[j] as int] == words@[pick[j] as int]@);
            }
            let path = lemma_answer_has_path(*space, wv, primes_of@, bag_counter@, bag@, pick);
            assert(Seq::<usize>::empty() + path =~= path);
            reveal(covered_all);
            assert(valid_tail(space.classes@, path, bag_counter@, 2, space.min_length));
            assert(paths_of(found@).contains(Seq::<usize>::empty() + path));
            let f = choose|f: int| 0 <= f < found@.len() && paths_of(found@)[f] == Seq::<usize>::empty() + path;
            assert(found@[f]@ == path);
            assert(picks_from(space.classes@, found@[f]@, pick));
            assert(picks_view(picks@).contains(pick));
            let i = choose|i: int| 0 <= i < picks@.len() && picks_view(picks@)[i] == pick;
            assert(picks@[i]@ == pick);
        }
    }
    ranked
}

/// Searches for the answers on the bag counted by `bag_counter` and writes each, best first,
/// after the included words `lead`.
fn answer_list(
    space: &SearchSpace,
    words: &Vec<Vec<u8>>,
    primes_of: &Vec<u128>,
    bag_counter: &Vec<usize>,
    total: usize,
    scores: &Vec<i32>,
    lead: &Vec<Vec<u8>>,
    max_words: usize,
    bag: Ghost<Multiset<u8>>,
) -> (r: Vec<String>)
    requires
        space.wf(),
        space.max_words + lead@.len() == max_words,
        max_words <= 16,
        forall|k: int|
            0 <= k < space.classes@.len() ==> #[trigger] class_of_words(
                space.classes@[k],
                words_view(words@),
                primes_of@,
            ),
        primes_of@ == query_primes(words_view(words@)),
        bag_counter@.len() == ALPHA_SIZE,
        counts_bag(bag_counter@, bag@),
        letter_bag(bag@),
        total == counter_total(bag_counter@),
        scores@.len() == words@.len(),
        forall|i: int| 0 <= i < words@.len() ==> #[trigger] in_some_class(space.classes@, i as usize),
        forall|i: int| 0 <= i < words@.len() ==> all_letters(#[trigger] words@[i]@) && words@[i]@.len() >= 1,
        forall|l: int| 0 <= l < 26 ==> #[trigger] primes_of@[l] >= 2,
        forall|i: int| 0 <= i < lead@.len() ==> all_letters(#[trigger] lead@[i]@),
        listed_once(space.classes@),
    ensures
        exists|picks: Seq<Seq<usize>>|
            answers_listed(picks, r@, words_view(words@), scores@, words_view(lead@), bag@, space.min_length, max_words),
{
    let ghost wv = words_view(words@);
    let ghost lead_view = words_view(lead@);
    let ranked = find_answers(space, words, primes_of, bag_counter, total, scores, bag);
    let mut anagrams: Vec<String> = Vec::new();
    let mut k: usize = 0;
    while k < ranked.len()
        invariant
            k <= ranked@.len(),
            anagrams@.len() == k,
            wv == words_view(words@),
            lead_view == words_view(lead@),
            forall|i: int| 0 <= i < lead@.len() ==> all_letters(#[trigger] lead@[i]@),
            forall|i: int| 0 <= i < words@.len() ==> all_letters(#[trigger] words@[i]@) && words@[i]@.len() >= 1,
            forall|x: int|
                0 <= x < ranked@.len() ==> forall|j: int| 0 <= j < (#[trigger] ranked@[x])@.len() ==> #[trigger] ranked@[x]@[j] < words@.len(),
            forall|x: int| 0 <= x < k ==> (#[trigger] anagrams@[x])@ == bytes_as_chars(
                join_words(lead_view + picked_words(wv, ranked@[x]@)),
            ),
        decreases ranked@.len() - k,
    {
        anagrams.push(render_answer(lead, words, &ranked[k]));
        k += 1;
    }
    proof {
        let rv = picks_view(ranked@);
        assert forall|x: int| 0 <= x < rv.len() implies is_answer(wv, #[trigger] rv[x], bag@, space.min_length, max_words, lead_view.len() as int) by {
            assert(rv[x] == ranked@[x]@);
        }
        assert forall|a: int, b: int| 0 <= a < b < rv.len() implies mean_at_least(scores@, #[trigger] rv[a], #[trigger] rv[b]) by {
            assert(rv[a] == ranked@[a]@);
            assert(rv[b] == ranked@[b]@);
        }
        assert forall|x: int| 0 <= x < rv.len() implies canonical(wv, #[trigger] rv[x], query_primes(wv)) by {
            assert(rv[x] == ranked@[x]@);
        }
        assert forall|pick: Seq<usize>|
            #[trigger] is_answer(wv, pick, bag@, space.min_length, max_words, lead_view.len() as int) && canonical(
                wv,
                pick,
                query_primes(wv),
            ) implies rv.contains(pick) by {
            assert forall|j: int| 0 <= j < pick.len() implies words@[#[trigger] pick[j] as int]@.len() >= space.min_length by {
                assert(wv[pick[j] as int] == words@[pick[j] as int]@);
            }
        }
        assert(answers_listed(rv, anagrams@, wv, scores@, lead_view, bag@, space.min_length, max_words));
    }
    anagrams
}

/// Answers a query: every way to spell the seed's letters, less those of `includes`, with
/// up to `max_words` words in all (the included words count) of at least `min_length`
/// letters each, drawn from the first `top_n` dictionary entries but not from `excludes`;
/// each answer is the included words and then its own, joined by spaces, best mean score
/// first. Alongside, the dictionary words that fit in the bag (the partials).
#[verifier::loop_isolation(false)]
pub fn solve(
    entries: &Vec<Entry>,
    seed: &str,
    min_length: usize,
    max_words: usize,
    excludes: &Vec<String>,
    includes: &Vec<String>,
    top_n: usize,
) -> (r: Result<ResultsStruct, SolveError>)
    requires
        min_length >= 1,
        1 <= max_words <= 16,
        entries@.len() * 26 < usize::MAX,
    ensures
        match query_bag(seed@, strings_view(includes@)) {
            None => r is Ok && r->Ok_0.anagrams@.len() == 0 && r->Ok_0.partials@.len() == 0,
            Some(bag) => {
                let cands = candidates_of(entries@, top_n, bag, min_length, strings_view(excludes@));
                let words = cand_words(entries@, cands);
                &&& (r matches Err(SolveError::FingerprintOverflow)) <==> (bag.len() > 0 && includes@.len()
                    < max_words && exists|i: int|
                    0 <= i < words.len() && fingerprint(#[trigger] words[i], query_primes(words)) > u128::MAX)
                &&& match r {
                    Ok(res) => query_answered(
                        res,
                        entries@,
                        cands,
                        bag,
                        include_words(strings_view(includes@)),
                        min_length,
                        max_words,
                        strings_view(excludes@),
                    ),
                    Err(SolveError::FingerprintOverflow) => exists|i: int|
                        0 <= i < words.len() && fingerprint(#[trigger] words[i], query_primes(words)) > u128::MAX,
                }
            },
        },
{
    let letters = normalize_seed(seed);
    let letters_len = letters.len();
    let mut bag_counter = to_counter(letters.as_slice());
    let ghost seed_counter = bag_counter@;
    let ghost seed_bag = letters@.to_multiset();
    proof {
        assert forall|v: u8| !is_letter(v) implies #[trigger] seed_bag.count(v) == 0 by {
            lemma_no_other_bytes(letters@, v);
        }
        lemma_counter_total_is_length(letters@, seed_counter);
    }
    let lead = match remove_includes(&mut bag_counter, includes) {
        Some(w) => w,
        None => {
            return Ok(ResultsStruct { anagrams: Vec::new(), partials: Vec::new() });
        },
    };
    let ghost bag = remove_words(seed_bag, strings_view(includes@))->0;
    let ghost lead_view = include_words(strings_view(includes@));
    proof {
        assert(counts_bag(bag_counter@, bag));
        assert(words_view(lead@) =~= lead_view);
        assert forall|i: int| 0 <= i < lead@.len() implies all_letters(#[trigger] lead@[i]@) by {
            assert(word_bytes(includes@[i]@) == Some(lead@[i]@));
            assert forall|x: int| 0 <= x < lead@[i]@.len() implies is_letter(#[trigger] lead@[i]@[x]) by {
                assert('a' <= includes@[i]@[x] && includes@[i]@[x] <= 'z');
            }
        }
        lemma_total_bounds(bag_counter@, seed_counter);
        assert(counter_total(seed_counter) == letters@.len());
        assert(letters@.len() <= usize::MAX);
        assert(counter_total(bag_counter@) <= counter_total(seed_counter));
        lemma_empty_bag(bag_counter@, bag);
    }
    let positions = select_candidates(entries, top_n, &bag_counter, min_length, excludes);
    let ghost es = entries_view(entries@);
    let ghost cands = positions@;
    let ghost tk = es.take(if top_n < es.len() { top_n as int } else { es.len() as int });
    proof {
        lemma_selected_keeps(tk, bag, min_length, strings_view(excludes@));
        crate::dictionary::lemma_selected_len(tk, bag, min_length, strings_view(excludes@));
        assert forall|x: int| 0 <= x < cands.len() implies {
            let p = #[trigger] cands[x];
            p < es.len() && keeps(es[p as int], bag, min_length, strings_view(excludes@))
        } by {
            assert(tk[cands[x] as int] == es[cands[x] as int]);
        }
    }
    let mut words: Vec<Vec<u8>> = Vec::new();
    let mut scores: Vec<i32> = Vec::new();
    let mut partials: Vec<String> = Vec::new();
    let mut i: usize = 0;
    while i < positions.len()
        invariant
            i <= positions@.len(),
            cands == positions@,
            es == entries_view(entries@),
            cands == candidates_of(entries@, top_n, bag, min_length, strings_view(excludes@)),
            forall|x: int| 0 <= x < cands.len() ==> {
                let p = #[trigger] cands[x];
                p < es.len() && keeps(es[p as int], bag, min_length, strings_view(excludes@))
            },
            words@.len() == i,
            scores@.len() == i,
            partials@.len() == i,
            forall|x: int| 0 <= x < i ==> (#[trigger] words@[x])@ == es[cands[x] as int].0,
            forall|x: int| 0 <= x < i ==> #[trigger] scores@[x] == entries@[cands[x] as int].score,
            forall|x: int| 0 <= x < i ==> (#[trigger] partials@[x])@ == bytes_as_chars(es[cands[x] as int].0),
        decreases positions@.len() - i,
    {
        let p = positions[i];
        let w = slice_to_vec(entries[p].word.as_slice());
        let shown = slice_to_vec(entries[p].word.as_slice());
        proof {
            assert(keeps(es[p as int], bag, min_length, strings_view(excludes@)));
            assert forall|x: int| 0 <= x < shown@.len() implies #[trigger] shown@[x] < 128 by {
                assert(is_letter(shown@[x]));
            }
        }
        words.push(w);
        scores.push(entries[p].score);
        partials.push(ascii_string(shown));
        i += 1;
    }
    let ghost wv = cand_words(entries@, cands);
    let ghost sv = cand_scores(entries@, cands);
    proof {
        assert(words_view(words@) =~= wv);
        assert(scores@ =~= sv);
        assert forall|x: int| 0 <= x < words@.len() implies all_letters(#[trigger] words@[x]@) && words@[x]@.len() >= 1 by {
            assert(keeps(es[cands[x] as int], bag, min_length, strings_view(excludes@)));
        }
    }
    let total = counter_sum(&bag_counter);
    if total == 0 {
        let mut anagrams: Vec<String> = Vec::new();
        if 0 < lead.len() && lead.len() <= max_words {
            let joined = join_bytes(&lead);
            proof {
                lemma_join_ascii(words_view(lead@));
            }
            anagrams.push(ascii_string(joined));
        }
        return Ok(ResultsStruct { anagrams, partials });
    }
    let n_inc = lead.len();
    if max_words <= n_inc {
        let anagrams: Vec<String> = Vec::new();
        proof {
            assert(answers_listed(Seq::empty(), anagrams@, wv, sv, lead_view, bag, min_length, max_words));
        }
        let res = ResultsStruct { anagrams, partials };
        proof {
            assert(answers_listed(Seq::empty(), res.anagrams@, wv, sv, lead_view, bag, min_length, max_words));
            assert(query_answered(res, entries@, cands, bag, lead_view, min_length, max_words, strings_view(excludes@)));
        }
        return Ok(res);
    }
    let (space, primes_of) = match prepare(&words, min_length, max_words - n_inc) {
        Ok(p) => p,
        Err(e) => {
            proof {
                if e == SolveError::FingerprintOverflow {
                    let i = choose|i: int| 0 <= i < words@.len() && fingerprint(#[trigger] words@[i]@, query_primes(words_view(words@))) > u128::MAX;
                    assert(wv[i] == words@[i]@);
                }
            }
            return Err(e);
        },
    };
    let anagrams = answer_list(&space, &words, &primes_of, &bag_counter, total, &scores, &lead, max_words, Ghost(bag));
    let res = ResultsStruct { anagrams, partials };
    proof {
        let picks = choose|picks: Seq<Seq<usize>>|
            answers_listed(picks, anagrams@, words_view(words@), scores@, words_view(lead@), bag, space.min_length, max_words);
        assert(answers_listed(picks, res.anagrams@, wv, sv, lead_view, bag, min_length, max_words));
        assert(query_answered(res, entries@, cands, bag, lead_view, min_length, max_words, strings_view(excludes@)));
    }
    Ok(res)
}

} // verus!
