//! Anagram classes: candidate words grouped by fingerprint, each group sharing one counter.
use crate::alphabet::{fingerprint, word_fingerprint};
use crate::letters::{words_view, all_letters, counter_contains, counts_bag, is_letter, letter_of, to_counter, ALPHA_SIZE};
use crate::ordering::{pair_le, pairs_sorted, sort_pairs};
use vstd::slice::slice_to_vec;
use crate::search::{class_wf, counter_total, WordClass};
use vstd::prelude::*;

verus! {

broadcast use vstd::seq_lib::group_to_multiset_ensures;

/// Why a query could not be answered.
#[derive(Debug, PartialEq, Eq, Structural)]
pub enum SolveError {
    /// The fingerprint of a candidate word does not fit in 128 bits.
    FingerprintOverflow,
}

/// No word is listed twice, in one class or in two.
pub open spec fn listed_once(classes: Seq<WordClass>) -> bool {
    forall|k1: int, x1: int, k2: int, x2: int|
        0 <= k1 < classes.len() && 0 <= k2 < classes.len() && 0 <= x1 < classes[k1].words@.len() && 0 <= x2
            < classes[k2].words@.len() && (#[trigger] classes[k1].words@[x1]) == (#[trigger] classes[k2].words@[x2])
            ==> k1 == k2 && x1 == x2
}

/// Every word listed in the classes is the word of one of the first `j` pairs.
pub open spec fn placed_before(classes: Seq<WordClass>, pairs: Seq<(u128, usize)>, j: int) -> bool {
    forall|k: int, x: int|
        0 <= k < classes.len() && 0 <= x < classes[k].words@.len() ==> exists|y: int|
            0 <= y < j && pairs[y].1 == #[trigger] classes[k].words@[x]
}

/// Some class lists word `i`.
pub open spec fn in_some_class(classes: Seq<WordClass>, i: usize) -> bool {
    exists|k: int| 0 <= k < classes.len() && #[trigger] classes[k].words@.contains(i)
}

/// Class `c` is made of candidate words that all have its counter, its length and its
/// fingerprint.
pub open spec fn class_of_words(c: WordClass, words: Seq<Seq<u8>>, primes_of: Seq<u128>) -> bool {
    &&& class_wf(c)
    &&& c.words@.len() >= 1
    &&& forall|j: int| 0 <= j < c.words@.len() ==> #[trigger] c.words@[j] < words.len()
    &&& forall|j: int|
        0 <= j < c.words@.len() ==> {
            let w = words[#[trigger] c.words@[j] as int];
            &&& all_letters(w)
            &&& counts_bag(c.counter@, w.to_multiset())
            &&& w.len() == c.length
            &&& fingerprint(w, primes_of) == c.fingerprint
        }
}

proof fn lemma_total_update(c: Seq<usize>, x: int, v: usize)
    requires
        0 <= x < c.len(),
    ensures
        counter_total(c.update(x, v)) == counter_total(c) - c[x] + v,
    decreases c.len(),
{
    if x < c.len() - 1 {
        lemma_total_update(c.drop_last(), x, v);
        assert(c.update(x, v).drop_last() =~= c.drop_last().update(x, v));
    } else {
        assert(c.update(x, v).drop_last() =~= c.drop_last());
    }
}

/// The counter of a letter-only word adds up to its length.
pub proof fn lemma_counter_total_is_length(w: Seq<u8>, c: Seq<usize>)
    requires
        all_letters(w),
        counts_bag(c, w.to_multiset()),
    ensures
        counter_total(c) == w.len(),
    decreases w.len(),
{
    if w.len() == 0 {
        assert forall|i: int| 0 <= i < 26 implies #[trigger] c[i] == 0usize by {}
        lemma_total_zero(c, 26);
    } else {
        let b = w.last();
        assert(is_letter(w[w.len() - 1]));
        let x = b - 97;
        assert(letter_of(x) == b);
        let d = w.drop_last();
        assert(w =~= d.push(b));
        assert(w.to_multiset() =~= d.to_multiset().insert(b));
        let c2 = c.update(x, (c[x] - 1) as usize);
        assert forall|i: int| 0 <= i < 26 implies #[trigger] c2[i] == d.to_multiset().count(letter_of(i)) by {
            if i != x {
                assert(letter_of(i) != b);
            }
        }
        lemma_counter_total_is_length(d, c2);
        lemma_total_update(c, x, (c[x] - 1) as usize);
    }
}

proof fn lemma_total_zero(c: Seq<usize>, n: int)
    requires
        n == c.len(),
        forall|i: int| 0 <= i < n ==> #[trigger] c[i] == 0usize,
    ensures
        counter_total(c) == 0,
    decreases n,
{
    if n > 0 {
        lemma_total_zero(c.drop_last(), n - 1);
    }
}

/// Groups the candidate words into anagram classes, one per letter counter, in descending
/// order of fingerprint; each class lists its words in candidate order.
pub fn build_classes(words: &Vec<Vec<u8>>, primes_of: &Vec<u128>) -> (r: Result<Vec<WordClass>, SolveError>)
    requires
        forall|i: int| 0 <= i < words@.len() ==> all_letters(#[trigger] words@[i]@) && words@[i]@.len() >= 1,
        primes_of@.len() == ALPHA_SIZE,
        forall|l: int| 0 <= l < 26 ==> #[trigger] primes_of@[l] >= 1,
    ensures
        match r {
            Ok(classes) => {
                &&& forall|k: int|
                    0 <= k < classes@.len() ==> #[trigger] class_of_words(
                        classes@[k],
                        words_view(words@),
                        primes_of@,
                    )
                &&& forall|i: int| 0 <= i < words@.len() ==> #[trigger] in_some_class(classes@, i as usize)
                &&& forall|a: int, b: int|
                    0 <= a < b < classes@.len() ==> (#[trigger] classes@[a]).counter@ != (#[trigger] classes@[b]).counter@
                &&& classes@.len() <= words@.len()
                &&& listed_once(classes@)
            },
            Err(SolveError::FingerprintOverflow) => exists|i: int|
                0 <= i < words@.len() && fingerprint(#[trigger] words@[i]@, primes_of@) > u128::MAX,
        },
        !(r matches Err(SolveError::FingerprintOverflow)) ==> forall|i: int|
            0 <= i < words@.len() ==> fingerprint(#[trigger] words@[i]@, primes_of@) <= u128::MAX,
{
    let ghost views = words_view(words@);
    let mut pairs: Vec<(u128, usize)> = Vec::new();
    let mut i: usize = 0;
    while i < words.len()
        invariant
            i <= words@.len(),
            views == words_view(words@),
            forall|i: int| 0 <= i < words@.len() ==> all_letters(#[trigger] words@[i]@) && words@[i]@.len() >= 1,
            primes_of@.len() == ALPHA_SIZE,
            forall|l: int| 0 <= l < 26 ==> #[trigger] primes_of@[l] >= 1,
            pairs@.len() == i,
            forall|x: int|
                0 <= x < i ==> (#[trigger] pairs@[x]).1 < words@.len() && u128::MAX - pairs@[x].0
                    == fingerprint(words@[pairs@[x].1 as int]@, primes_of@),
            forall|x: int| 0 <= x < i ==> (#[trigger] pairs@[x]).1 == x,
        decreases words@.len() - i,
    {
        match word_fingerprint(words[i].as_slice(), primes_of) {
            Some(p) => {
                pairs.push((u128::MAX - p, i));
            },
            None => {
                return Err(SolveError::FingerprintOverflow);
            },
        }
        i += 1;
    }
    let ghost unsorted = pairs@;
    proof {
        assert forall|i: int| 0 <= i < words@.len() implies fingerprint(#[trigger] words@[i]@, primes_of@) <= u128::MAX by {
            assert(pairs@[i].1 == i);
        }
    }
    proof {
        assert(unsorted.no_duplicates());
        unsorted.lemma_multiset_has_no_duplicates();
    }
    sort_pairs(&mut pairs);
    proof {
        pairs@.lemma_multiset_has_no_duplicates_conv();
        assert forall|y1: int, y2: int| 0 <= y1 < pairs@.len() && 0 <= y2 < pairs@.len() && y1 != y2 implies
            (#[trigger] pairs@[y1]).1 != (#[trigger] pairs@[y2]).1 by {
            assert(pairs@.to_multiset().count(pairs@[y1]) > 0);
            assert(pairs@.to_multiset().count(pairs@[y2]) > 0);
            assert(unsorted.contains(pairs@[y1]));
            assert(unsorted.contains(pairs@[y2]));
        }
    }
    let mut classes: Vec<WordClass> = Vec::new();
    let mut run_start: usize = 0;
    let mut j: usize = 0;
    while j < pairs.len()
        invariant
            j <= pairs@.len(),
            views == words_view(words@),
            forall|i: int| 0 <= i < words@.len() ==> all_letters(#[trigger] words@[i]@) && words@[i]@.len() >= 1,
            primes_of@.len() == ALPHA_SIZE,
            forall|l: int| 0 <= l < 26 ==> #[trigger] primes_of@[l] >= 1,
            pairs@.to_multiset() == unsorted.to_multiset(),
            pairs_sorted(pairs@),
            forall|x: int|
                0 <= x < unsorted.len() ==> (#[trigger] unsorted[x]).1 < words@.len() && u128::MAX
                    - unsorted[x].0 == fingerprint(words@[unsorted[x].1 as int]@, primes_of@),
            forall|k: int| 0 <= k < classes@.len() ==> #[trigger] class_of_words(classes@[k], views, primes_of@),
            forall|x: int| 0 <= x < unsorted.len() ==> (#[trigger] unsorted[x]).1 == x,
            unsorted.len() == words@.len(),
            forall|x: int| 0 <= x < j ==> #[trigger] in_some_class(classes@, pairs@[x].1),
            forall|i: int| 0 <= i < words@.len() ==> fingerprint(#[trigger] words@[i]@, primes_of@) <= u128::MAX,
            classes@.len() <= j,
            run_start <= classes@.len(),
            classes@.len() == 0 ==> run_start == 0,
            classes@.len() > 0 ==> run_start < classes@.len(),
            forall|a: int|
                run_start <= a < classes@.len() ==> (#[trigger] classes@[a]).fingerprint
                    == classes@[classes@.len() - 1].fingerprint,
            forall|a: int|
                0 <= a < run_start ==> (#[trigger] classes@[a]).fingerprint
                    > classes@[classes@.len() - 1].fingerprint,
            forall|a: int, x: int|
                0 <= a < classes@.len() && j <= x < pairs@.len() ==> (#[trigger] classes@[a]).fingerprint
                    >= u128::MAX - (#[trigger] pairs@[x]).0,
            forall|a: int, b: int|
                0 <= a < b < classes@.len() ==> (#[trigger] classes@[a]).counter@ != (#[trigger] classes@[b]).counter@,
            forall|y1: int, y2: int| 0 <= y1 < pairs@.len() && 0 <= y2 < pairs@.len() && y1 != y2 ==>
                (#[trigger] pairs@[y1]).1 != (#[trigger] pairs@[y2]).1,
            listed_once(classes@),
            placed_before(classes@, pairs@, j as int),
        decreases pairs@.len() - j,
    {
        let (key, w) = pairs[j];
        proof {
            assert(pairs@.to_multiset().count(pairs@[j as int]) > 0);
            assert(unsorted.contains(pairs@[j as int]));
        }
        let fp = u128::MAX - key;
        let word = words[w].as_slice();
        let counter = to_counter(word);
        let length = word.len();
        proof {
            assert(views[w as int] == word@);
            lemma_counter_total_is_length(word@, counter@);
            crate::alphabet::lemma_fingerprint_positive(word@, primes_of@);
        }
        let ghost classes_before = classes@;
        let n = classes.len();
        let mut found: usize = n;
        let same_run = n > 0 && classes[n - 1].fingerprint == fp;
        if same_run {
            let mut i: usize = run_start;
            while i < n && found == n
                invariant
                    run_start <= i <= n,
                    n == classes@.len(),
                    classes@ == classes_before,
                    found == n || (run_start <= found < n && classes@[found as int].counter@ == counter@),
                    forall|k: int| 0 <= k < classes@.len() ==> #[trigger] class_of_words(classes@[k], views, primes_of@),
                    found == n ==> forall|a: int| run_start <= a < i ==> (#[trigger] classes@[a]).counter@ != counter@,
                    counter@.len() == ALPHA_SIZE,
                decreases n - i + (if found == n { 1int } else { 0int }),
            {
                proof {
                    assert(class_of_words(classes@[i as int], views, primes_of@));
                }
                if counter_contains(&classes[i].counter, &counter) && counter_contains(&counter, &classes[i].counter) {
                    proof {
                        assert(classes@[i as int].counter@ =~= counter@);
                    }
                    found = i;
                } else {
                    i += 1;
                }
            }
        }
        proof {
            // a class with this word's counter would have its fingerprint, so it lies in the
            // current run
            assert forall|a: int| 0 <= a < n && classes_before[a].counter@ == counter@ implies #[trigger] classes_before[a].fingerprint == fp by {
                let c = classes_before[a];
                assert(class_of_words(c, views, primes_of@));
                let v = views[c.words@[0] as int];
                crate::alphabet::lemma_same_counter_same_fingerprint(v, word@, counter@, primes_of@);
            }
        }
        if found < n {
            let old = &classes[found];
            let mut members = slice_to_vec(old.words.as_slice());
            let ghost old_members = members@;
            members.push(w);
            let grown = WordClass {
                fingerprint: old.fingerprint,
                length: old.length,
                counter: slice_to_vec(old.counter.as_slice()),
                words: members,
            };
            proof {
                assert(class_of_words(classes_before[found as int], views, primes_of@));
                assert(old_members == classes_before[found as int].words@);
                assert forall|x: int| 0 <= x < grown.words@.len() implies #[trigger] grown.words@[x] < views.len() by {
                    if x < old_members.len() {
                        assert(grown.words@[x] == old_members[x]);
                    }
                }
                assert forall|x: int| 0 <= x < grown.words@.len() implies {
                    let v = views[#[trigger] grown.words@[x] as int];
                    &&& all_letters(v)
                    &&& counts_bag(grown.counter@, v.to_multiset())
                    &&& v.len() == grown.length
                    &&& fingerprint(v, primes_of@) == grown.fingerprint
                } by {
                    if x < old_members.len() {
                        assert(grown.words@[x] == old_members[x]);
                    } else {
                        assert(grown.words@[x] == w);
                        assert(classes_before[found as int].fingerprint == classes_before[n - 1].fingerprint);
                    }
                }
                assert(class_of_words(grown, views, primes_of@));
            }
            classes.set(found, grown);
            proof {
                assert(placed_before(classes@, pairs@, j + 1)) by {
                    assert forall|k: int, x: int|
                        0 <= k < classes@.len() && 0 <= x < classes@[k].words@.len() implies exists|y: int|
                            0 <= y < j + 1 && pairs@[y].1 == #[trigger] classes@[k].words@[x] by {
                        if k == found as int && x == old_members.len() {
                            assert(pairs@[j as int].1 == classes@[k].words@[x]);
                        } else if k == found as int {
                            assert(classes@[k].words@[x] == classes_before[k].words@[x]);
                        } else {
                            assert(classes@[k] == classes_before[k]);
                        }
                    }
                }
                assert(listed_once(classes@)) by {
                    assert forall|k1: int, x1: int, k2: int, x2: int|
                        0 <= k1 < classes@.len() && 0 <= k2 < classes@.len() && 0 <= x1 < classes@[k1].words@.len() && 0 <= x2
                            < classes@[k2].words@.len() && (#[trigger] classes@[k1].words@[x1]) == (#[trigger] classes@[k2].words@[x2])
                            implies k1 == k2 && x1 == x2 by {
                        let new1 = k1 == found as int && x1 == old_members.len();
                        let new2 = k2 == found as int && x2 == old_members.len();
                        if !new1 {
                            if k1 == found as int {
                                assert(classes@[k1].words@[x1] == classes_before[k1].words@[x1]);
                            } else {
                                assert(classes@[k1] == classes_before[k1]);
                            }
                        }
                        if !new2 {
                            if k2 == found as int {
                                assert(classes@[k2].words@[x2] == classes_before[k2].words@[x2]);
                            } else {
                                assert(classes@[k2] == classes_before[k2]);
                            }
                        }
                        if new1 && !new2 {
                            let y = choose|y: int| 0 <= y < j && pairs@[y].1 == classes_before[k2].words@[x2];
                        }
                        if new2 && !new1 {
                            let y = choose|y: int| 0 <= y < j && pairs@[y].1 == classes_before[k1].words@[x1];
                        }
                    }
                }
                assert forall|x: int| 0 <= x < j + 1 implies #[trigger] in_some_class(classes@, pairs@[x].1) by {
                    if x < j {
                        assert(in_some_class(classes_before, pairs@[x].1));
                        let k = choose|k: int| 0 <= k < classes_before.len() && #[trigger] classes_before[k].words@.contains(pairs@[x].1);
                        if k == found as int {
                            let y = choose|y: int| 0 <= y < old_members.len() && old_members[y] == pairs@[x].1;
                            assert(classes@[k].words@[y] == pairs@[x].1);
                            assert(classes@[k].words@.contains(pairs@[x].1));
                        } else {
                            assert(classes@[k] == classes_before[k]);
                            assert(classes@[k].words@.contains(pairs@[x].1));
                        }
                    } else {
                        assert(classes@[found as int].words@[old_members.len() as int] == w);
                        assert(classes@[found as int].words@.contains(pairs@[x].1));
                    }
                }
                assert forall|a: int, x: int|
                    0 <= a < classes@.len() && j + 1 <= x < pairs@.len() implies (#[trigger] classes@[a]).fingerprint
                        >= u128::MAX - (#[trigger] pairs@[x]).0 by {
                    assert(classes@[a].fingerprint == classes_before[a].fingerprint);
                }
            }
        } else {
            proof {
                if n > 0 {
                    assert(classes_before[n - 1].fingerprint >= u128::MAX - pairs@[j as int].0);
                }
                assert forall|a: int| 0 <= a < n implies #[trigger] classes_before[a].counter@ != counter@ by {
                    if classes_before[a].counter@ == counter@ {
                        assert(classes_before[a].fingerprint == fp);
                        if a < run_start {
                            assert(classes_before[a].fingerprint > classes_before[n - 1].fingerprint);
                        } else {
                            assert(classes_before[a].fingerprint == classes_before[n - 1].fingerprint);
                        }
                    }
                }
            }
            if n == 0 || classes[n - 1].fingerprint != fp {
                run_start = n;
            }
            let mut members: Vec<usize> = Vec::new();
            members.push(w);
            let fresh = WordClass { fingerprint: fp, length, counter, words: members };
            proof {
                assert(fresh.words@[0] == w);
                assert(class_of_words(fresh, views, primes_of@));
            }
            classes.push(fresh);
            proof {
                assert(placed_before(classes@, pairs@, j + 1)) by {
                    assert forall|k: int, x: int|
                        0 <= k < classes@.len() && 0 <= x < classes@[k].words@.len() implies exists|y: int|
                            0 <= y < j + 1 && pairs@[y].1 == #[trigger] classes@[k].words@[x] by {
                        if k == n as int {
                            assert(pairs@[j as int].1 == classes@[k].words@[x]);
                        } else {
                            assert(classes@[k] == classes_before[k]);
                        }
                    }
                }
                assert(listed_once(classes@)) by {
                    assert forall|k1: int, x1: int, k2: int, x2: int|
                        0 <= k1 < classes@.len() && 0 <= k2 < classes@.len() && 0 <= x1 < classes@[k1].words@.len() && 0 <= x2
                            < classes@[k2].words@.len() && (#[trigger] classes@[k1].words@[x1]) == (#[trigger] classes@[k2].words@[x2])
                            implies k1 == k2 && x1 == x2 by {
                        if k1 < n {
                            assert(classes@[k1] == classes_before[k1]);
                        }
                        if k2 < n {
                            assert(classes@[k2] == classes_before[k2]);
                        }
                        if k1 == n as int && k2 < n {
                            let y = choose|y: int| 0 <= y < j && pairs@[y].1 == classes_before[k2].words@[x2];
                        }
                        if k2 == n as int && k1 < n {
                            let y = choose|y: int| 0 <= y < j && pairs@[y].1 == classes_before[k1].words@[x1];
                        }
                    }
                }
                assert forall|x: int| 0 <= x < j + 1 implies #[trigger] in_some_class(classes@, pairs@[x].1) by {
                    if x < j {
                        assert(in_some_class(classes_before, pairs@[x].1));
                        let k = choose|k: int| 0 <= k < classes_before.len() && #[trigger] classes_before[k].words@.contains(pairs@[x].1);
                        assert(classes@[k] == classes_before[k]);
                        assert(classes@[k].words@.contains(pairs@[x].1));
                    } else {
                        assert(classes@[n as int].words@[0] == w);
                        assert(classes@[n as int].words@.contains(pairs@[x].1));
                    }
                }
                assert forall|a: int, x: int|
                    0 <= a < classes@.len() && j + 1 <= x < pairs@.len() implies (#[trigger] classes@[a]).fingerprint
                        >= u128::MAX - (#[trigger] pairs@[x]).0 by {
                    assert(pair_le(pairs@[j as int], pairs@[x]));
                    if a < n {
                        assert(classes@[a] == classes_before[a]);
                    }
                }
                assert forall|a: int, b: int|
                    0 <= a < b < classes@.len() implies (#[trigger] classes@[a]).counter@ != (#[trigger] classes@[b]).counter@ by {
                    if b < n {
                        assert(classes@[a] == classes_before[a]);
                        assert(classes@[b] == classes_before[b]);
                    } else {
                        assert(classes@[a] == classes_before[a]);
                    }
                }
                assert forall|a: int| 0 <= a < run_start implies (#[trigger] classes@[a]).fingerprint
                    > classes@[classes@.len() - 1].fingerprint by {
                    assert(classes@[a] == classes_before[a]);
                }
                assert forall|a: int| run_start <= a < classes@.len() implies (#[trigger] classes@[a]).fingerprint
                    == classes@[classes@.len() - 1].fingerprint by {
                    if a < n {
                        assert(classes@[a] == classes_before[a]);
                    }
                }
            }
        }
        j += 1;
    }
    proof {
        assert(pairs@.to_multiset().len() == unsorted.to_multiset().len());
        assert forall|i: int| 0 <= i < words@.len() implies #[trigger] in_some_class(classes@, i as usize) by {
            let pr = unsorted[i];
            assert(unsorted.to_multiset().count(pr) > 0);
            assert(pairs@.contains(pr));
            let x = choose|x: int| 0 <= x < pairs@.len() && pairs@[x] == pr;
            assert(in_some_class(classes@, pairs@[x].1));
        }
    }
    Ok(classes)
}

} // verus!
