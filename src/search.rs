//! Decomposition of a letter counter into anagram classes: a depth-first search over the
//! classes that fit, taken in descending order of fingerprint, with the candidates of each
//! residual counter kept in a cache.
use crate::counter_trie::{found_in, CounterTrie};
use crate::letters::{counter_contains, add_counters, fits_in, subtract_counters, ALPHA_SIZE};
use crate::ordering::{pair_le, pairs_sorted, sort_pairs};
use std::collections::HashMap;
use vstd::prelude::*;
use vstd::slice::slice_to_vec;

verus! {

broadcast use {vstd::std_specs::hash::group_hash_axioms, vstd::seq_lib::group_to_multiset_ensures};

/// An anagram class: the candidate words that share one counter.
pub struct WordClass {
    /// The product of the primes of the class's letters.
    pub fingerprint: u128,
    /// The number of letters of each word of the class.
    pub length: usize,
    /// The letter counter shared by the words, in alphabetical order.
    pub counter: Vec<usize>,
    /// The words, as indices into the candidate list, in candidate order.
    pub words: Vec<usize>,
}

/// The sum of the slots of `c`.
pub open spec fn counter_total(c: Seq<usize>) -> int
    decreases c.len(),
{
    if c.len() == 0 {
        0
    } else {
        counter_total(c.drop_last()) + c.last()
    }
}

/// A class is well formed: a full counter whose total is the class's length, which is at
/// least one, and a positive fingerprint.
pub open spec fn class_wf(c: WordClass) -> bool {
    &&& c.counter@.len() == ALPHA_SIZE
    &&& c.length == counter_total(c.counter@)
    &&& c.length >= 1
    &&& c.fingerprint >= 1
}

/// Slot `i` summed over the counters of the classes on `path`.
pub open spec fn path_count(classes: Seq<WordClass>, path: Seq<usize>, i: int) -> int
    decreases path.len(),
{
    if path.len() == 0 {
        0
    } else {
        classes[path[0] as int].counter@[i] + path_count(classes, path.drop_first(), i)
    }
}

/// `rest` is a way to complete a search: a non-empty run of classes of at least
/// `min_length` letters, the first with a fingerprint of at least `min_fp`, fingerprints
/// never falling along it, whose counters add up to `target`.
pub open spec fn valid_tail(
    classes: Seq<WordClass>,
    rest: Seq<usize>,
    target: Seq<usize>,
    min_fp: u128,
    min_length: usize,
) -> bool {
    &&& rest.len() >= 1
    &&& forall|j: int| 0 <= j < rest.len() ==> #[trigger] rest[j] < classes.len()
    &&& forall|j: int| 0 <= j < rest.len() ==> classes[#[trigger] rest[j] as int].length >= min_length
    &&& classes[rest[0] as int].fingerprint >= min_fp
    &&& forall|j: int|
        0 <= j < rest.len() - 1 ==> classes[#[trigger] rest[j] as int].fingerprint
            <= classes[rest[j + 1] as int].fingerprint
    &&& forall|i: int| 0 <= i < 26 ==> #[trigger] path_count(classes, rest, i) == target[i]
}

/// The classes at positions `cands` come in descending order of fingerprint.
pub open spec fn by_falling_fingerprint(classes: Seq<WordClass>, cands: Seq<usize>) -> bool {
    forall|a: int, b: int|
        0 <= a < b < cands.len() ==> classes[#[trigger] cands[a] as int].fingerprint >= classes[#[trigger] cands[b] as int].fingerprint
}

/// The cache holds, for each residual counter met so far, the classes that fit in it, each
/// once.
pub open spec fn cache_ok(cache: Map<u128, (Vec<usize>, Vec<usize>)>, classes: Seq<WordClass>) -> bool {
    forall|key: u128|
        #[trigger] cache.contains_key(key) ==> {
            let (c, cands) = cache[key];
            &&& c@.len() == ALPHA_SIZE
            &&& forall|j: int|
                0 <= j < cands@.len() ==> #[trigger] cands@[j] < classes.len() && fits_in(
                    classes[cands@[j] as int].counter@,
                    c@,
                )
            &&& forall|k: int|
                0 <= k < classes.len() && fits_in(#[trigger] classes[k].counter@, c@) ==> cands@.contains(
                    k as usize,
                )
            &&& by_falling_fingerprint(classes, cands@)
            &&& cands@.no_duplicates()
        }
}

/// Everything a search reads: the classes, the trie over their counters, and the limits on
/// word length and word count.
pub struct SearchSpace {
    pub classes: Vec<WordClass>,
    pub trie: CounterTrie,
    pub min_length: usize,
    pub max_words: usize,
}

impl SearchSpace {
    /// The trie names exactly these classes, each class is well formed, and the limits are
    /// at least one.
    pub open spec fn wf(&self) -> bool {
        &&& self.trie.wf()
        &&& self.trie.counters@.len() == self.classes@.len()
        &&& forall|k: int|
            0 <= k < self.classes@.len() ==> #[trigger] self.trie.counters@[k]
                == self.classes@[k].counter@
        &&& forall|k: int| 0 <= k < self.classes@.len() ==> #[trigger] class_wf(self.classes@[k])
        &&& forall|k: int| 0 <= k < self.classes@.len() ==> #[trigger] self.trie.chains@.contains_key(k)
        &&& self.min_length >= 1
        &&& self.max_words >= 1
    }
}

/// A counter that fits under another adds up to no more, and to the same only if equal.
pub proof fn lemma_total_bounds(a: Seq<usize>, b: Seq<usize>)
    requires
        a.len() == b.len(),
        forall|i: int| 0 <= i < a.len() ==> #[trigger] a[i] <= b[i],
    ensures
        counter_total(a) <= counter_total(b),
        counter_total(a) == counter_total(b) ==> a =~= b,
    decreases a.len(),
{
    if a.len() > 0 {
        lemma_total_bounds(a.drop_last(), b.drop_last());
        if counter_total(a) == counter_total(b) {
            assert(a.drop_last() =~= b.drop_last());
            assert(a =~= a.drop_last().push(a.last()));
            assert(b =~= b.drop_last().push(b.last()));
        }
    }
}

proof fn lemma_total_difference(a: Seq<usize>, b: Seq<usize>, d: Seq<usize>)
    requires
        a.len() == b.len(),
        d.len() == a.len(),
        forall|i: int| 0 <= i < a.len() ==> #[trigger] d[i] == a[i] - b[i],
    ensures
        counter_total(d) == counter_total(a) - counter_total(b),
    decreases a.len(),
{
    if a.len() > 0 {
        lemma_total_difference(a.drop_last(), b.drop_last(), d.drop_last());
    }
}

/// A counter adds up to zero or more.
pub proof fn lemma_total_nonneg(a: Seq<usize>)
    ensures
        counter_total(a) >= 0,
    decreases a.len(),
{
    if a.len() > 0 {
        lemma_total_nonneg(a.drop_last());
    }
}

/// The candidates of a residual counter: every class that fits in it, by descending
/// fingerprint.
fn candidates(space: &SearchSpace, target: &Vec<usize>) -> (r: Vec<usize>)
    requires
        space.wf(),
        target@.len() == ALPHA_SIZE,
    ensures
        forall|j: int|
            0 <= j < r@.len() ==> #[trigger] r@[j] < space.classes@.len() && fits_in(
                space.classes@[r@[j] as int].counter@,
                target@,
            ),
        forall|k: int|
            0 <= k < space.classes@.len() && fits_in(#[trigger] space.classes@[k].counter@, target@)
                ==> r@.contains(k as usize),
        by_falling_fingerprint(space.classes@, r@),
        r@.no_duplicates(),
{
    let mut found: Vec<usize> = Vec::new();
    proof {
        assert(space.trie.node_wf(0));
    }
    space.trie.retrieve_anagrams(0, 0, target, &mut found);
    proof {
        assert forall|k: int| 0 <= k < space.classes@.len() && fits_in(#[trigger] space.classes@[k].counter@, target@)
            implies found_in(found@, 0, k) by {
            assert(space.trie.chains@.contains_key(k));
            assert(space.trie.chain_ok(k, space.trie.chains@[k]));
            assert(space.trie.counters@[k] == space.classes@[k].counter@);
        }
    }
    let mut pairs: Vec<(u128, usize)> = Vec::new();
    let mut j: usize = 0;
    while j < found.len()
        invariant
            space.wf(),
            j <= found@.len(),
            pairs@.len() == j,
            forall|i: int|
                0 <= i < found@.len() ==> #[trigger] found@[i] < space.classes@.len() && fits_in(
                    space.classes@[found@[i] as int].counter@,
                    target@,
                ),
            forall|i: int|
                0 <= i < j ==> (#[trigger] pairs@[i]).1 < space.classes@.len() && fits_in(
                    space.classes@[pairs@[i].1 as int].counter@,
                    target@,
                ),
            forall|i: int| 0 <= i < j ==> (#[trigger] pairs@[i]).1 == found@[i],
            forall|i: int| 0 <= i < j ==> (#[trigger] pairs@[i]).0 == u128::MAX - space.classes@[pairs@[i].1 as int].fingerprint,
            forall|a: int, b: int| 0 <= a < b < found@.len() ==> #[trigger] found@[a] != #[trigger] found@[b],
        decreases found@.len() - j,
    {
        let k = found[j];
        pairs.push((u128::MAX - space.classes[k].fingerprint, k));
        j += 1;
    }
    let ghost unsorted = pairs@;
    proof {
        assert(unsorted.no_duplicates());
        unsorted.lemma_multiset_has_no_duplicates();
    }
    sort_pairs(&mut pairs);
    proof {
        assert forall|i: int| 0 <= i < pairs@.len() implies #[trigger] unsorted.contains(pairs@[i]) by {
            assert(pairs@.to_multiset().count(pairs@[i]) > 0);
        }
        pairs@.lemma_multiset_has_no_duplicates_conv();
    }
    let mut r: Vec<usize> = Vec::new();
    let mut j: usize = 0;
    while j < pairs.len()
        invariant
            space.wf(),
            j <= pairs@.len(),
            r@.len() == j,
            pairs@.to_multiset() == unsorted.to_multiset(),
            forall|i: int|
                0 <= i < unsorted.len() ==> (#[trigger] unsorted[i]).1 < space.classes@.len()
                    && fits_in(space.classes@[unsorted[i].1 as int].counter@, target@)
                    && unsorted[i].0 == u128::MAX - space.classes@[unsorted[i].1 as int].fingerprint,
            pairs_sorted(pairs@),
            forall|i: int|
                0 <= i < j ==> #[trigger] r@[i] < space.classes@.len() && fits_in(
                    space.classes@[r@[i] as int].counter@,
                    target@,
                ),
            forall|i: int| 0 <= i < j ==> #[trigger] r@[i] == pairs@[i].1,
            forall|i: int| 0 <= i < pairs@.len() ==> #[trigger] unsorted.contains(pairs@[i]),
            pairs@.no_duplicates(),
        decreases pairs@.len() - j,
    {
        let (_, k) = pairs[j];
        proof {
            assert(pairs@.to_multiset().count(pairs@[j as int]) > 0);
            assert(unsorted.contains(pairs@[j as int]));
        }
        r.push(k);
        j += 1;
    }
    proof {
        assert forall|k: int| 0 <= k < space.classes@.len() && fits_in(#[trigger] space.classes@[k].counter@, target@)
            implies r@.contains(k as usize) by {
            let i = choose|i: int| 0 <= i < found@.len() && found@[i] == k;
            let pr = unsorted[i];
            assert(unsorted.to_multiset().count(pr) > 0);
            assert(pairs@.contains(pr));
            let x = choose|x: int| 0 <= x < pairs@.len() && pairs@[x] == pr;
            assert(r@[x] == k as usize);
        }
        assert forall|a: int, b: int| 0 <= a < r@.len() && 0 <= b < r@.len() && a != b implies r@[a] != r@[b] by {
            assert(pairs@[a] != pairs@[b]);
            assert(unsorted.contains(pairs@[a]));
            assert(unsorted.contains(pairs@[b]));
        }
        assert forall|a: int, b: int| 0 <= a < b < r@.len() implies space.classes@[#[trigger] r@[a] as int].fingerprint
            >= space.classes@[#[trigger] r@[b] as int].fingerprint by {
            assert(pair_le(pairs@[a], pairs@[b]));
            assert(unsorted.contains(pairs@[a]));
            assert(unsorted.contains(pairs@[b]));
        }
    }
    r
}

/// The candidates of `target`, from the cache when it holds them for this very counter,
/// else from the trie, and then kept in the cache under `key`.
fn cached_candidates(
    space: &SearchSpace,
    target: &Vec<usize>,
    key: u128,
    cache: &mut HashMap<u128, (Vec<usize>, Vec<usize>)>,
) -> (r: Vec<usize>)
    requires
        space.wf(),
        target@.len() == ALPHA_SIZE,
        cache_ok(old(cache)@, space.classes@),
    ensures
        cache_ok(final(cache)@, space.classes@),
        forall|j: int|
            0 <= j < r@.len() ==> #[trigger] r@[j] < space.classes@.len() && fits_in(
                space.classes@[r@[j] as int].counter@,
                target@,
            ),
        forall|k: int|
            0 <= k < space.classes@.len() && fits_in(#[trigger] space.classes@[k].counter@, target@)
                ==> r@.contains(k as usize),
        by_falling_fingerprint(space.classes@, r@),
        r@.no_duplicates(),
        forall|other: u128|
            other != key && #[trigger] old(cache)@.contains_key(other) ==> final(cache)@.contains_key(other)
                && final(cache)@[other] == old(cache)@[other],
{
    match cache.get(&key) {
        Some(entry) => {
            let (c, cands) = entry;
            proof {
                assert(cache@.contains_key(key));
            }
            if counter_contains(c, target) && counter_contains(target, c) {
                proof {
                    assert(c@ =~= target@);
                }
                return slice_to_vec(cands.as_slice());
            }
        },
        None => {},
    }
    let cands = candidates(space, target);
    let c = slice_to_vec(target.as_slice());
    let kept = slice_to_vec(cands.as_slice());
    cache.insert(key, (c, kept));
    cands
}

/// The paths of a list of found decompositions.
pub open spec fn paths_of(found: Seq<Vec<usize>>) -> Seq<Seq<usize>> {
    found.map_values(|v: Vec<usize>| v@)
}

proof fn lemma_total_of_zeros(c: Seq<usize>)
    requires
        forall|i: int| 0 <= i < c.len() ==> #[trigger] c[i] == 0,
    ensures
        counter_total(c) == 0,
    decreases c.len(),
{
    if c.len() > 0 {
        lemma_total_of_zeros(c.drop_last());
    }
}

proof fn lemma_path_count_nonneg(classes: Seq<WordClass>, path: Seq<usize>, i: int)
    ensures
        path_count(classes, path, i) >= 0,
    decreases path.len(),
{
    if path.len() > 0 {
        lemma_path_count_nonneg(classes, path.drop_first(), i);
    }
}

/// The first class of a way to complete a search fits in the target, and the rest
/// completes the search on what it leaves.
proof fn lemma_tail_head(
    classes: Seq<WordClass>,
    rest: Seq<usize>,
    target: Seq<usize>,
    min_fp: u128,
    min_length: usize,
)
    requires
        valid_tail(classes, rest, target, min_fp, min_length),
        target.len() == ALPHA_SIZE,
        forall|k: int| 0 <= k < classes.len() ==> #[trigger] class_wf(classes[k]),
    ensures
        fits_in(classes[rest[0] as int].counter@, target),
        rest.len() > 1 ==> valid_tail(
            classes,
            rest.drop_first(),
            Seq::new(26, |i: int| (target[i] - classes[rest[0] as int].counter@[i]) as usize),
            classes[rest[0] as int].fingerprint,
            min_length,
        ),
{
    let c = classes[rest[0] as int].counter@;
    assert(rest[0] < classes.len());
    assert(class_wf(classes[rest[0] as int]));
    let r2 = rest.drop_first();
    assert forall|i: int| 0 <= i < 26 implies #[trigger] c[i] <= target[i] by {
        lemma_path_count_nonneg(classes, r2, i);
        assert(path_count(classes, rest, i) == target[i]);
    }
    if rest.len() > 1 {
        let t2 = Seq::new(26, |i: int| (target[i] - c[i]) as usize);
        assert forall|j: int| 0 <= j < r2.len() implies #[trigger] r2[j] < classes.len() by {
            assert(r2[j] == rest[j + 1]);
        }
        assert forall|j: int| 0 <= j < r2.len() implies classes[#[trigger] r2[j] as int].length >= min_length by {
            assert(r2[j] == rest[j + 1]);
        }
        assert forall|j: int| 0 <= j < r2.len() - 1 implies classes[#[trigger] r2[j] as int].fingerprint
            <= classes[r2[j + 1] as int].fingerprint by {
            assert(r2[j] == rest[j + 1]);
            assert(r2[j + 1] == rest[j + 2]);
        }
        assert(r2[0] == rest[1]);
        assert forall|i: int| 0 <= i < 26 implies #[trigger] path_count(classes, r2, i) == t2[i] by {
            assert(path_count(classes, rest, i) == target[i]);
        }
    }
}

/// Each of `found` from position `from` on is `path` followed by a way to complete the
/// search on `target`, with at most `max_words` classes in all.
#[verifier::opaque]
pub open spec fn emitted_ok(
    classes: Seq<WordClass>,
    found: Seq<Vec<usize>>,
    from: int,
    path: Seq<usize>,
    target: Seq<usize>,
    min_fp: u128,
    min_length: usize,
    max_words: usize,
) -> bool {
    forall|i: int|
        from <= i < found.len() ==> {
            let t = (#[trigger] found[i])@;
            &&& path.len() < t.len() <= max_words
            &&& t.take(path.len() as int) == path
            &&& valid_tail(classes, t.skip(path.len() as int), target, min_fp, min_length)
        }
}

/// Every way to complete the search on `target` that starts with one of `heads` and keeps
/// to `max_words` classes in all is, after `path`, among `found`.
#[verifier::opaque]
pub open spec fn covered(
    classes: Seq<WordClass>,
    found: Seq<Vec<usize>>,
    path: Seq<usize>,
    target: Seq<usize>,
    min_fp: u128,
    min_length: usize,
    max_words: usize,
    heads: Seq<usize>,
) -> bool {
    forall|rest: Seq<usize>|
        #[trigger] valid_tail(classes, rest, target, min_fp, min_length) && path.len() + rest.len()
            <= max_words && heads.contains(rest[0]) ==> paths_of(found).contains(path + rest)
}

/// Every way to complete the search on `target` that keeps to `max_words` classes in all
/// is, after `path`, among `found`.
#[verifier::opaque]
pub open spec fn covered_all(
    classes: Seq<WordClass>,
    found: Seq<Vec<usize>>,
    path: Seq<usize>,
    target: Seq<usize>,
    min_fp: u128,
    min_length: usize,
    max_words: usize,
) -> bool {
    forall|rest: Seq<usize>|
        #[trigger] valid_tail(classes, rest, target, min_fp, min_length) && path.len() + rest.len()
            <= max_words ==> paths_of(found).contains(path + rest)
}

proof fn lemma_covered_grows(
    classes: Seq<WordClass>,
    fa: Seq<Vec<usize>>,
    fb: Seq<Vec<usize>>,
    path: Seq<usize>,
    target: Seq<usize>,
    min_fp: u128,
    min_length: usize,
    max_words: usize,
    heads: Seq<usize>,
)
    requires
        covered(classes, fa, path, target, min_fp, min_length, max_words, heads),
        fb.len() >= fa.len(),
        forall|i: int| 0 <= i < fa.len() ==> #[trigger] fb[i] == fa[i],
    ensures
        covered(classes, fb, path, target, min_fp, min_length, max_words, heads),
{
    reveal(covered);
    assert forall|rest: Seq<usize>|
        #[trigger] valid_tail(classes, rest, target, min_fp, min_length) && path.len() + rest.len()
            <= max_words && heads.contains(rest[0]) implies paths_of(fb).contains(path + rest) by {
        let w = choose|w: int| 0 <= w < fa.len() && paths_of(fa)[w] == path + rest;
        assert(paths_of(fb)[w] == paths_of(fa)[w]);
    }
}

proof fn lemma_emitted_grows(
    classes: Seq<WordClass>,
    fa: Seq<Vec<usize>>,
    fb: Seq<Vec<usize>>,
    from: int,
    path: Seq<usize>,
    target: Seq<usize>,
    min_fp: u128,
    min_length: usize,
    max_words: usize,
)
    requires
        0 <= from,
        emitted_ok(classes, fa, from, path, target, min_fp, min_length, max_words),
        emitted_ok(classes, fb, fa.len() as int, path, target, min_fp, min_length, max_words),
        fb.len() >= fa.len(),
        forall|i: int| 0 <= i < fa.len() ==> #[trigger] fb[i] == fa[i],
    ensures
        emitted_ok(classes, fb, from, path, target, min_fp, min_length, max_words),
{
    reveal(emitted_ok);
    assert forall|i: int| from <= i < fb.len() implies {
        let t = (#[trigger] fb[i])@;
        &&& path.len() < t.len() <= max_words
        &&& t.take(path.len() as int) == path
        &&& valid_tail(classes, t.skip(path.len() as int), target, min_fp, min_length)
    } by {
        if i < fa.len() {
            assert(fb[i] == fa[i]);
        }
    }
}

/// A head that starts no way to complete the search may join the covered heads.
proof fn lemma_cover_dead_head(
    classes: Seq<WordClass>,
    found: Seq<Vec<usize>>,
    path: Seq<usize>,
    target: Seq<usize>,
    min_fp: u128,
    min_length: usize,
    max_words: usize,
    heads: Seq<usize>,
    k: usize,
)
    requires
        covered(classes, found, path, target, min_fp, min_length, max_words, heads),
        forall|rest: Seq<usize>|
            #[trigger] valid_tail(classes, rest, target, min_fp, min_length) && path.len() + rest.len()
                <= max_words ==> rest[0] != k,
    ensures
        covered(classes, found, path, target, min_fp, min_length, max_words, heads.push(k)),
{
    reveal(covered);
    assert forall|rest: Seq<usize>|
        #[trigger] valid_tail(classes, rest, target, min_fp, min_length) && path.len() + rest.len()
            <= max_words && heads.push(k).contains(rest[0]) implies paths_of(found).contains(path + rest) by {
        let x = choose|x: int| 0 <= x < heads.push(k).len() && heads.push(k)[x] == rest[0];
        if x < heads.len() {
            assert(heads[x] == rest[0]);
        }
    }
}

/// A way to complete the search whose first class holds the whole target is that class
/// alone.
proof fn lemma_whole_target_tail(
    classes: Seq<WordClass>,
    rest: Seq<usize>,
    target: Seq<usize>,
    min_fp: u128,
    min_length: usize,
)
    requires
        valid_tail(classes, rest, target, min_fp, min_length),
        target.len() == ALPHA_SIZE,
        forall|k: int| 0 <= k < classes.len() ==> #[trigger] class_wf(classes[k]),
        classes[rest[0] as int].counter@ == target,
    ensures
        rest.len() == 1,
{
    if rest.len() > 1 {
        lemma_tail_head(classes, rest, target, min_fp, min_length);
        let reduced = Seq::new(26, |i: int| (target[i] - classes[rest[0] as int].counter@[i]) as usize);
        let r2 = rest.drop_first();
        lemma_tail_head(classes, r2, reduced, classes[rest[0] as int].fingerprint, min_length);
        let c2 = classes[r2[0] as int].counter@;
        assert(class_wf(classes[r2[0] as int]));
        assert forall|i: int| 0 <= i < 26 implies #[trigger] c2[i] == 0 by {
            assert(reduced[i] == 0);
        }
        lemma_total_of_zeros(c2);
    }
}

/// A class that leaves too few letters for another word, or comes when only one more word
/// is allowed, while not holding the whole target, starts no way to complete the search.
proof fn lemma_dead_head(
    classes: Seq<WordClass>,
    target: Seq<usize>,
    path_len: int,
    min_fp: u128,
    min_length: usize,
    max_words: usize,
    k: usize,
)
    requires
        k < classes.len(),
        target.len() == ALPHA_SIZE,
        forall|x: int| 0 <= x < classes.len() ==> #[trigger] class_wf(classes[x]),
        fits_in(classes[k as int].counter@, target),
        counter_total(target) != classes[k as int].length,
        counter_total(target) - classes[k as int].length < min_length || path_len == max_words - 1,
    ensures
        forall|rest: Seq<usize>|
            #[trigger] valid_tail(classes, rest, target, min_fp, min_length) && path_len + rest.len()
                <= max_words ==> rest[0] != k,
{
    let c = classes[k as int].counter@;
    assert(class_wf(classes[k as int]));
    let reduced = Seq::new(26, |i: int| (target[i] - c[i]) as usize);
    lemma_total_difference(target, c, reduced);
    assert forall|rest: Seq<usize>|
        #[trigger] valid_tail(classes, rest, target, min_fp, min_length) && path_len + rest.len()
            <= max_words implies rest[0] != k by {
        if rest[0] == k {
            lemma_tail_head(classes, rest, target, min_fp, min_length);
            if rest.len() == 1 {
                assert forall|i: int| 0 <= i < 26 implies #[trigger] c[i] == target[i] by {
                    assert(path_count(classes, rest, i) == target[i]);
                    assert(rest.drop_first() =~= Seq::<usize>::empty());
                    assert(path_count(classes, rest.drop_first(), i) == 0);
                }
                assert(c =~= target);
            } else if path_len + 1 < max_words {
                let r2 = rest.drop_first();
                let c2 = classes[r2[0] as int].counter@;
                lemma_tail_head(classes, r2, reduced, classes[k as int].fingerprint, min_length);
                assert(class_wf(classes[r2[0] as int]));
                lemma_total_bounds(c2, reduced);
            }
        }
    }
}

/// Recording the class `k` that holds the whole target covers it as a head.

proof fn lemma_emit_whole(
    classes: Seq<WordClass>,
    fa: Seq<Vec<usize>>,
    fb: Seq<Vec<usize>>,
    path: Seq<usize>,
    target: Seq<usize>,
    min_fp: u128,
    min_length: usize,
    max_words: usize,
    heads: Seq<usize>,
    k: usize,
)
    requires
        covered(classes, fa, path, target, min_fp, min_length, max_words, heads),
        k < classes.len(),
        target.len() == ALPHA_SIZE,
        forall|x: int| 0 <= x < classes.len() ==> #[trigger] class_wf(classes[x]),
        classes[k as int].counter@ == target,
        classes[k as int].fingerprint >= min_fp,
        classes[k as int].length >= min_length,
        path.len() < max_words,
        fb.len() == fa.len() + 1,
        forall|i: int| 0 <= i < fa.len() ==> #[trigger] fb[i] == fa[i],
        fb.last()@ == path.push(k),
    ensures
        covered(classes, fb, path, target, min_fp, min_length, max_words, heads.push(k)),
        emitted_ok(classes, fb, fa.len() as int, path, target, min_fp, min_length, max_words),
{
    lemma_covered_grows(classes, fa, fb, path, target, min_fp, min_length, max_words, heads);
    assert(emitted_ok(classes, fb, fa.len() as int, path, target, min_fp, min_length, max_words)) by {
        reveal(emitted_ok);
        let t = fb.last()@;
        let rest = t.skip(path.len() as int);
        assert(rest =~= seq![k]);
        assert(t.take(path.len() as int) =~= path);
        assert forall|i: int| 0 <= i < 26 implies #[trigger] path_count(classes, rest, i) == target[i] by {
            assert(rest.drop_first() =~= Seq::<usize>::empty());
            assert(path_count(classes, rest.drop_first(), i) == 0);
        }
        assert(valid_tail(classes, rest, target, min_fp, min_length));
        assert(fb[fa.len() as int] == fb.last());
    }
    assert(covered(classes, fb, path, target, min_fp, min_length, max_words, heads.push(k))) by {
        reveal(covered);
        assert(paths_of(fb)[fa.len() as int] == path.push(k));
        assert forall|r: Seq<usize>|
            #[trigger] valid_tail(classes, r, target, min_fp, min_length) && path.len() + r.len()
                <= max_words && heads.push(k).contains(r[0]) implies paths_of(fb).contains(path + r) by {
            let x = choose|x: int| 0 <= x < heads.push(k).len() && heads.push(k)[x] == r[0];
            if x < heads.len() {
                assert(heads[x] == r[0]);
            } else {
                lemma_whole_target_tail(classes, r, target, min_fp, min_length);
                assert(r =~= seq![k]);
                assert(path + r =~= path.push(k));
            }
        }
    }
}

/// What the search from `path.push(k)` found on the target less `k`'s counter completes
/// the search from `path`.
proof fn lemma_descend_emitted(
    classes: Seq<WordClass>,
    fa: Seq<Vec<usize>>,
    fb: Seq<Vec<usize>>,
    path: Seq<usize>,
    target: Seq<usize>,
    reduced: Seq<usize>,
    min_fp: u128,
    min_length: usize,
    max_words: usize,
    heads: Seq<usize>,
    k: usize,
)
    requires
        covered(classes, fa, path, target, min_fp, min_length, max_words, heads),
        k < classes.len(),
        target.len() == ALPHA_SIZE,
        forall|x: int| 0 <= x < classes.len() ==> #[trigger] class_wf(classes[x]),
        fits_in(classes[k as int].counter@, target),
        reduced == Seq::new(26, |i: int| (target[i] - classes[k as int].counter@[i]) as usize),
        counter_total(target) != classes[k as int].length,
        classes[k as int].fingerprint >= min_fp,
        classes[k as int].length >= min_length,
        fb.len() >= fa.len(),
        forall|i: int| 0 <= i < fa.len() ==> #[trigger] fb[i] == fa[i],
        emitted_ok(classes, fb, fa.len() as int, path.push(k), reduced, classes[k as int].fingerprint, min_length, max_words),
        covered_all(classes, fb, path.push(k), reduced, classes[k as int].fingerprint, min_length, max_words),
    ensures
        emitted_ok(classes, fb, fa.len() as int, path, target, min_fp, min_length, max_words),
{
    reveal(emitted_ok);
    assert forall|i: int| fa.len() <= i < fb.len() implies {
        let t = (#[trigger] fb[i])@;
        &&& path.len() < t.len() <= max_words
        &&& t.take(path.len() as int) == path
        &&& valid_tail(classes, t.skip(path.len() as int), target, min_fp, min_length)
    } by {
        lemma_tail_extend(classes, fb[i]@, path, target, reduced, min_fp, min_length, max_words, k);
    }
}

/// A path found from `path.push(k)` on the target less `k`'s counter completes the search
/// from `path` on the target.
proof fn lemma_tail_extend(
    classes: Seq<WordClass>,
    t: Seq<usize>,
    path: Seq<usize>,
    target: Seq<usize>,
    reduced: Seq<usize>,
    min_fp: u128,
    min_length: usize,
    max_words: usize,
    k: usize,
)
    requires
        k < classes.len(),
        forall|x: int| 0 <= x < classes.len() ==> #[trigger] class_wf(classes[x]),
        reduced == Seq::new(26, |i: int| (target[i] - classes[k as int].counter@[i]) as usize),
        fits_in(classes[k as int].counter@, target),
        classes[k as int].fingerprint >= min_fp,
        classes[k as int].length >= min_length,
        path.len() + 1 < t.len() <= max_words,
        t.take(path.len() as int + 1) == path.push(k),
        valid_tail(classes, t.skip(path.len() as int + 1), reduced, classes[k as int].fingerprint, min_length),
    ensures
        path.len() < t.len() <= max_words,
        t.take(path.len() as int) == path,
        valid_tail(classes, t.skip(path.len() as int), target, min_fp, min_length),
{
    let longer = path.push(k);
    let rest = t.skip(path.len() as int);
    let tail = t.skip(longer.len() as int);
    assert(t.take(path.len() as int) =~= longer.take(path.len() as int));
    assert(longer.take(path.len() as int) =~= path);
    assert(rest[0] == t[path.len() as int]);
    assert(t[path.len() as int] == t.take(longer.len() as int)[path.len() as int]);
    assert(rest.drop_first() =~= tail);
    assert forall|x: int| 0 <= x < rest.len() implies #[trigger] rest[x] < classes.len() by {
        if x > 0 {
            assert(rest[x] == tail[x - 1]);
        }
    }
    assert forall|x: int| 0 <= x < rest.len() implies classes[#[trigger] rest[x] as int].length >= min_length by {
        if x > 0 {
            assert(rest[x] == tail[x - 1]);
        }
    }
    assert forall|x: int| 0 <= x < rest.len() - 1 implies classes[#[trigger] rest[x] as int].fingerprint
        <= classes[rest[x + 1] as int].fingerprint by {
        if x > 0 {
            assert(rest[x] == tail[x - 1]);
            assert(rest[x + 1] == tail[x]);
        } else {
            assert(rest[1] == tail[0]);
        }
    }
    assert forall|d: int| 0 <= d < 26 implies #[trigger] path_count(classes, rest, d) == target[d] by {
        assert(path_count(classes, tail, d) == reduced[d]);
    }
}

/// What the search from `path.push(k)` found covers `k` as a head of the search from
/// `path`.
proof fn lemma_descend_covered(
    classes: Seq<WordClass>,
    fa: Seq<Vec<usize>>,
    fb: Seq<Vec<usize>>,
    path: Seq<usize>,
    target: Seq<usize>,
    reduced: Seq<usize>,
    min_fp: u128,
    min_length: usize,
    max_words: usize,
    heads: Seq<usize>,
    k: usize,
)
    requires
        covered(classes, fa, path, target, min_fp, min_length, max_words, heads),
        k < classes.len(),
        target.len() == ALPHA_SIZE,
        forall|x: int| 0 <= x < classes.len() ==> #[trigger] class_wf(classes[x]),
        fits_in(classes[k as int].counter@, target),
        reduced == Seq::new(26, |i: int| (target[i] - classes[k as int].counter@[i]) as usize),
        counter_total(target) != classes[k as int].length,
        classes[k as int].fingerprint >= min_fp,
        classes[k as int].length >= min_length,
        fb.len() >= fa.len(),
        forall|i: int| 0 <= i < fa.len() ==> #[trigger] fb[i] == fa[i],
        emitted_ok(classes, fb, fa.len() as int, path.push(k), reduced, classes[k as int].fingerprint, min_length, max_words),
        covered_all(classes, fb, path.push(k), reduced, classes[k as int].fingerprint, min_length, max_words),
    ensures
        covered(classes, fb, path, target, min_fp, min_length, max_words, heads.push(k)),
{
    lemma_covered_grows(classes, fa, fb, path, target, min_fp, min_length, max_words, heads);
    let c = classes[k as int].counter@;
    let longer = path.push(k);
    assert(covered(classes, fb, path, target, min_fp, min_length, max_words, heads.push(k))) by {
    reveal(covered);
    reveal(covered_all);
    assert(class_wf(classes[k as int]));
    assert forall|r: Seq<usize>|
        #[trigger] valid_tail(classes, r, target, min_fp, min_length) && path.len() + r.len()
            <= max_words && heads.push(k).contains(r[0]) implies paths_of(fb).contains(path + r) by {
        let x = choose|x: int| 0 <= x < heads.push(k).len() && heads.push(k)[x] == r[0];
        if x < heads.len() {
            assert(heads[x] == r[0]);
        } else {
            lemma_tail_head(classes, r, target, min_fp, min_length);
            if r.len() == 1 {
                assert forall|i: int| 0 <= i < 26 implies #[trigger] c[i] == target[i] by {
                    assert(path_count(classes, r, i) == target[i]);
                    assert(r.drop_first() =~= Seq::<usize>::empty());
                    assert(path_count(classes, r.drop_first(), i) == 0);
                }
                assert(c =~= target);
            } else {
                let r2 = r.drop_first();
                assert(valid_tail(classes, r2, reduced, classes[k as int].fingerprint, min_length));
                assert(longer + r2 =~= path + r);
            }
        }
    }
}
}

/// What the search from `path.push(k)` found on the target less `k`'s counter completes
/// the search from `path`, and covers `k` as a head.
proof fn lemma_descend(
    classes: Seq<WordClass>,
    fa: Seq<Vec<usize>>,
    fb: Seq<Vec<usize>>,
    path: Seq<usize>,
    target: Seq<usize>,
    reduced: Seq<usize>,
    min_fp: u128,
    min_length: usize,
    max_words: usize,
    heads: Seq<usize>,
    k: usize,
)
    requires
        covered(classes, fa, path, target, min_fp, min_length, max_words, heads),
        k < classes.len(),
        target.len() == ALPHA_SIZE,
        forall|x: int| 0 <= x < classes.len() ==> #[trigger] class_wf(classes[x]),
        fits_in(classes[k as int].counter@, target),
        reduced == Seq::new(26, |i: int| (target[i] - classes[k as int].counter@[i]) as usize),
        counter_total(target) != classes[k as int].length,
        classes[k as int].fingerprint >= min_fp,
        classes[k as int].length >= min_length,
        fb.len() >= fa.len(),
        forall|i: int| 0 <= i < fa.len() ==> #[trigger] fb[i] == fa[i],
        emitted_ok(classes, fb, fa.len() as int, path.push(k), reduced, classes[k as int].fingerprint, min_length, max_words),
        covered_all(classes, fb, path.push(k), reduced, classes[k as int].fingerprint, min_length, max_words),
    ensures
        covered(classes, fb, path, target, min_fp, min_length, max_words, heads.push(k)),
        emitted_ok(classes, fb, fa.len() as int, path, target, min_fp, min_length, max_words),
{
    lemma_descend_emitted(classes, fa, fb, path, target, reduced, min_fp, min_length, max_words, heads, k);
    lemma_descend_covered(classes, fa, fb, path, target, reduced, min_fp, min_length, max_words, heads, k);
}

/// Once the heads cover every candidate up to a point past which fingerprints are too
/// small, every way to complete the search is covered.
proof fn lemma_cover_complete(
    classes: Seq<WordClass>,
    found: Seq<Vec<usize>>,
    path: Seq<usize>,
    target: Seq<usize>,
    min_fp: u128,
    min_length: usize,
    max_words: usize,
    products: Seq<usize>,
    j: int,
)
    requires
        covered(classes, found, path, target, min_fp, min_length, max_words, products.take(j)),
        0 <= j <= products.len(),
        target.len() == ALPHA_SIZE,
        forall|x: int| 0 <= x < classes.len() ==> #[trigger] class_wf(classes[x]),
        forall|k: int| 0 <= k < classes.len() && fits_in(#[trigger] classes[k].counter@, target) ==> products.contains(k as usize),
        by_falling_fingerprint(classes, products),
        j < products.len() ==> classes[products[j] as int].fingerprint < min_fp,
    ensures
        covered_all(classes, found, path, target, min_fp, min_length, max_words),
{
    reveal(covered);
    reveal(covered_all);
    assert forall|rest: Seq<usize>|
        #[trigger] valid_tail(classes, rest, target, min_fp, min_length) && path.len() + rest.len()
            <= max_words implies paths_of(found).contains(path + rest) by {
        lemma_tail_head(classes, rest, target, min_fp, min_length);
        let k0 = rest[0];
        assert(products.contains(k0 as usize));
        let x = choose|x: int| 0 <= x < products.len() && products[x] == k0;
        if x < j {
            assert(products.take(j)[x] == k0);
        } else if x > j {
            assert(classes[products[j] as int].fingerprint >= classes[products[x] as int].fingerprint);
        }
    }
}

/// The paths of `found` from position `from` on are pairwise different.
#[verifier::opaque]
pub open spec fn distinct_from(found: Seq<Vec<usize>>, from: int) -> bool {
    forall|a: int, b: int| from <= a < b < found.len() ==> (#[trigger] found[a])@ != (#[trigger] found[b])@
}

/// Each path of `found` from position `from` on has, at position `pos`, one of `heads`.
#[verifier::opaque]
pub open spec fn heads_among(found: Seq<Vec<usize>>, from: int, pos: int, heads: Seq<usize>) -> bool {
    forall|i: int| from <= i < found.len() ==> (#[trigger] found[i])@.len() > pos && heads.contains(found[i]@[pos])
}

proof fn lemma_heads_grow(found: Seq<Vec<usize>>, from: int, pos: int, heads: Seq<usize>, k: usize)
    requires
        heads_among(found, from, pos, heads),
    ensures
        heads_among(found, from, pos, heads.push(k)),
{
    reveal(heads_among);
    assert forall|i: int| from <= i < found.len() implies (#[trigger] found[i])@.len() > pos && heads.push(k).contains(found[i]@[pos]) by {
        let x = choose|x: int| 0 <= x < heads.len() && heads[x] == found[i]@[pos];
        assert(heads.push(k)[x] == found[i]@[pos]);
    }
}

/// Paths added under a new head `k` keep the paths pairwise different.
proof fn lemma_new_head(
    fa: Seq<Vec<usize>>,
    fb: Seq<Vec<usize>>,
    from: int,
    pos: int,
    heads: Seq<usize>,
    k: usize,
)
    requires
        0 <= from <= fa.len() <= fb.len(),
        distinct_from(fa, from),
        heads_among(fa, from, pos, heads),
        !heads.contains(k),
        forall|i: int| 0 <= i < fa.len() ==> #[trigger] fb[i] == fa[i],
        distinct_from(fb, fa.len() as int),
        forall|i: int| fa.len() <= i < fb.len() ==> (#[trigger] fb[i])@.len() > pos && fb[i]@[pos] == k,
    ensures
        distinct_from(fb, from),
        heads_among(fb, from, pos, heads.push(k)),
{
    reveal(distinct_from);
    reveal(heads_among);
    assert forall|a: int, b: int| from <= a < b < fb.len() implies (#[trigger] fb[a])@ != (#[trigger] fb[b])@ by {
        if b < fa.len() {
            assert(fb[a] == fa[a]);
            assert(fb[b] == fa[b]);
        } else if a < fa.len() {
            assert(fb[a] == fa[a]);
            assert(heads.contains(fa[a]@[pos]));
        }
    }
    assert forall|i: int| from <= i < fb.len() implies (#[trigger] fb[i])@.len() > pos && heads.push(k).contains(fb[i]@[pos]) by {
        if i < fa.len() {
            assert(fb[i] == fa[i]);
            let x = choose|x: int| 0 <= x < heads.len() && heads[x] == fa[i]@[pos];
            assert(heads.push(k)[x] == fb[i]@[pos]);
        } else {
            assert(heads.push(k)[heads.len() as int] == k);
        }
    }
}

/// Extends `path` by every way to decompose `target` (holding `target_length` letters) into
/// classes, each fingerprint at least `min_fingerprint` and at least the one before it,
/// with at most `max_words` classes in all, pushing each complete path onto `found`. A class
/// shorter than the minimum length is passed over, as is one that would leave too few
/// letters for another word or one word more than the maximum count.
pub fn find_anagrams_counter(
    space: &SearchSpace,
    target_length: usize,
    target: &mut Vec<usize>,
    key: u128,
    path: &mut Vec<usize>,
    found: &mut Vec<Vec<usize>>,
    min_fingerprint: u128,
    cache: &mut HashMap<u128, (Vec<usize>, Vec<usize>)>,
)
    requires
        space.wf(),
        old(target)@.len() == ALPHA_SIZE,
        counter_total(old(target)@) == target_length,
        old(path)@.len() < space.max_words,
        cache_ok(old(cache)@, space.classes@),
    ensures
        final(target)@ == old(target)@,
        final(path)@ == old(path)@,
        cache_ok(final(cache)@, space.classes@),
        final(found)@.len() >= old(found)@.len(),
        forall|i: int| 0 <= i < old(found)@.len() ==> #[trigger] final(found)@[i] == old(found)@[i],
        emitted_ok(
            space.classes@,
            final(found)@,
            old(found)@.len() as int,
            old(path)@,
            old(target)@,
            min_fingerprint,
            space.min_length,
            space.max_words,
        ),
        covered_all(
            space.classes@,
            final(found)@,
            old(path)@,
            old(target)@,
            min_fingerprint,
            space.min_length,
            space.max_words,
        ),
        distinct_from(final(found)@, old(found)@.len() as int),
    decreases target_length,
{
    let products = cached_candidates(space, target, key, cache);
    let ghost target0 = target@;
    let ghost path0 = path@;
    let ghost found0 = found@;
    let ghost classes = space.classes@;
    proof {
        reveal(covered);
        reveal(emitted_ok);
        reveal(distinct_from);
        reveal(heads_among);
        assert(products@.take(0) =~= Seq::<usize>::empty());
    }
    let mut j: usize = 0;
    let mut stop = false;
    while j < products.len() && !stop
        invariant
            space.wf(),
            classes == space.classes@,
            j <= products@.len(),
            target@ == target0,
            target0.len() == ALPHA_SIZE,
            counter_total(target0) == target_length,
            path@ == path0,
            path0.len() < space.max_words,
            cache_ok(cache@, classes),
            forall|i: int|
                0 <= i < products@.len() ==> #[trigger] products@[i] < classes.len()
                    && fits_in(classes[products@[i] as int].counter@, target0),
            forall|k: int|
                0 <= k < classes.len() && fits_in(#[trigger] classes[k].counter@, target0)
                    ==> products@.contains(k as usize),
            by_falling_fingerprint(classes, products@),
            stop ==> j < products@.len() && classes[products@[j as int] as int].fingerprint
                < min_fingerprint,
            found@.len() >= found0.len(),
            forall|i: int| 0 <= i < found0.len() ==> #[trigger] found@[i] == found0[i],
            emitted_ok(classes, found@, found0.len() as int, path0, target0, min_fingerprint, space.min_length, space.max_words),
            covered(classes, found@, path0, target0, min_fingerprint, space.min_length, space.max_words, products@.take(j as int)),
            products@.no_duplicates(),
            distinct_from(found@, found0.len() as int),
            heads_among(found@, found0.len() as int, path0.len() as int, products@.take(j as int)),
        decreases products@.len() - j + (if stop { 0int } else { 1int }),
    {
        let k = products[j];
        let class = &space.classes[k];
        let ghost found_before = found@;
        let ghost heads = products@.take(j as int);
        proof {
            assert(class_wf(classes[k as int]));
            assert(products@.take(j + 1) =~= heads.push(k));
            assert(!heads.contains(k)) by {
                if heads.contains(k) {
                    let x = choose|x: int| 0 <= x < heads.len() && heads[x] == k;
                    assert(products@[x] == products@[j as int]);
                }
            }
        }
        if class.fingerprint < min_fingerprint {
            stop = true;
        } else if class.length < space.min_length {
            proof {
                lemma_cover_dead_head(classes, found@, path0, target0, min_fingerprint, space.min_length, space.max_words, heads, k);
                lemma_heads_grow(found@, found0.len() as int, path0.len() as int, heads, k);
            }
            j += 1;
        } else {
            let length = class.length;
            proof {
                lemma_total_bounds(class.counter@, target0);
            }
            let rest_length = target_length - length;
            let ghost reduced = Seq::new(26, |i: int| (target0[i] - class.counter@[i]) as usize);
            if rest_length == 0 {
                proof {
                    lemma_total_bounds(class.counter@, target0);
                    assert(class.counter@ =~= target0);
                }
                path.push(k);
                let done = slice_to_vec(path.as_slice());
                path.pop();
                found.push(done);
                proof {
                    lemma_emit_whole(classes, found_before, found@, path0, target0, min_fingerprint, space.min_length, space.max_words, heads, k);
                    lemma_emitted_grows(classes, found_before, found@, found0.len() as int, path0, target0, min_fingerprint, space.min_length, space.max_words);
                    assert(distinct_from(found@, found_before.len() as int)) by {
                        reveal(distinct_from);
                    }
                    assert(found@[found_before.len() as int]@ == path0.push(k));
                    lemma_new_head(found_before, found@, found0.len() as int, path0.len() as int, heads, k);
                }
                j += 1;
            } else if rest_length < space.min_length || path.len() == space.max_words - 1 {
                proof {
                    lemma_dead_head(classes, target0, path0.len() as int, min_fingerprint, space.min_length, space.max_words, k);
                    lemma_cover_dead_head(classes, found@, path0, target0, min_fingerprint, space.min_length, space.max_words, heads, k);
                    lemma_heads_grow(found@, found0.len() as int, path0.len() as int, heads, k);
                }
                j += 1;
            } else {
                path.push(k);
                subtract_counters(target, &class.counter);
                proof {
                    assert(target@ =~= reduced);
                    lemma_total_difference(target0, class.counter@, reduced);
                }
                find_anagrams_counter(
                    space,
                    rest_length,
                    target,
                    key / class.fingerprint,
                    path,
                    found,
                    class.fingerprint,
                    cache,
                );
                proof {
                    assert forall|i: int| 0 <= i < 26 implies #[trigger] target@[i] + class.counter@[i] <= usize::MAX by {
                        assert(target@[i] == target0[i] - class.counter@[i]);
                    }
                }
                add_counters(target, &class.counter);
                path.pop();
                proof {
                    assert(target@ =~= target0);
                    assert(path@ =~= path0);
                    lemma_descend(classes, found_before, found@, path0, target0, reduced, min_fingerprint, space.min_length, space.max_words, heads, k);
                    lemma_emitted_grows(classes, found_before, found@, found0.len() as int, path0, target0, min_fingerprint, space.min_length, space.max_words);
                    assert forall|i: int| found_before.len() <= i < found@.len() implies (#[trigger] found@[i])@.len() > path0.len()
                        && found@[i]@[path0.len() as int] == k by {
                        reveal(emitted_ok);
                        let t = found@[i]@;
                        assert(t.take(path0.len() as int + 1) == path0.push(k));
                        assert(t[path0.len() as int] == t.take(path0.len() as int + 1)[path0.len() as int]);
                    }
                    lemma_new_head(found_before, found@, found0.len() as int, path0.len() as int, heads, k);
                }
                j += 1;
            }
        }
    }
    proof {
        lemma_cover_complete(classes, found@, path0, target0, min_fingerprint, space.min_length, space.max_words, products@, j as int);
    }
}

/// A prefix of a counter adds up to no more than the whole.
pub proof fn lemma_total_prefix(c: Seq<usize>, i: int)
    requires
        0 <= i <= c.len(),
    ensures
        counter_total(c.take(i)) <= counter_total(c),
        counter_total(c.take(i)) >= 0,
    decreases c.len() - i,
{
    lemma_total_nonneg(c.take(i));
    if i < c.len() {
        lemma_total_prefix(c, i + 1);
        assert(c.take(i + 1).drop_last() =~= c.take(i));
    } else {
        assert(c.take(i) =~= c);
    }
}

/// The sum of the slots of a counter.
pub fn counter_sum(c: &Vec<usize>) -> (r: usize)
    requires
        counter_total(c@) <= usize::MAX,
    ensures
        r == counter_total(c@),
{
    let mut total: usize = 0;
    let mut i: usize = 0;
    while i < c.len()
        invariant
            i <= c@.len(),
            counter_total(c@) <= usize::MAX,
            total == counter_total(c@.take(i as int)),
        decreases c@.len() - i,
    {
        proof {
            assert(c@.take(i + 1).drop_last() =~= c@.take(i as int));
            lemma_total_prefix(c@, i + 1);
        }
        total = total + c[i];
        i += 1;
    }
    assert(c@.take(i as int) =~= c@);
    total
}

} // verus!
