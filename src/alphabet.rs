//! The per-query letter order: letters ranked by how often they occur among the candidate
//! words, and the prime that each letter contributes to a fingerprint.
use crate::letters::{all_letters, counts_bag, is_letter, letter_of, to_counter, to_index, ALPHA_SIZE};
use vstd::arithmetic::power::pow;
use vstd::prelude::*;

verus! {

broadcast use vstd::seq_lib::group_to_multiset_ensures;

/// Letter `m` comes before letter `l`: it is more frequent, or as frequent and earlier in
/// the alphabet.
pub open spec fn precedes(f: Seq<usize>, m: int, l: int) -> bool {
    f[m] > f[l] || (f[m] == f[l] && m < l)
}

/// How many of the first `n` letters come before `l`.
pub open spec fn rank_below(f: Seq<usize>, l: int, n: int) -> nat
    decreases n,
{
    if n <= 0 {
        0
    } else {
        rank_below(f, l, n - 1) + if precedes(f, n - 1, l) {
            1nat
        } else {
            0nat
        }
    }
}

/// The slot of letter `l`: how many letters come before it. The most frequent letter has
/// slot 0.
pub open spec fn slot_of(f: Seq<usize>, l: int) -> nat {
    rank_below(f, l, 26)
}

/// `order` lists the letters slot by slot: the letter of slot `s` is `order[s]`.
pub open spec fn is_letter_order(order: Seq<usize>, slot: Seq<usize>) -> bool {
    &&& order.len() == ALPHA_SIZE
    &&& slot.len() == ALPHA_SIZE
    &&& forall|s: int| 0 <= s < 26 ==> #[trigger] order[s] < 26
    &&& forall|l: int| 0 <= l < 26 ==> #[trigger] slot[l] < 26 && order[slot[l] as int] == l
}

/// The first 26 primes; slot `s` is given the `s`-th of them.
pub open spec fn primes() -> Seq<u128> {
    seq![
        2u128, 3, 5, 7, 11, 13, 17, 19, 23, 29, 31, 37, 41, 43, 47, 53, 59, 61, 67, 71, 73, 79,
        83, 89, 97, 101,
    ]
}

/// The product of the primes of the letters of `w`, each letter `l` contributing
/// `letter_primes[l]`.
pub open spec fn fingerprint(w: Seq<u8>, letter_primes: Seq<u128>) -> int
    decreases w.len(),
{
    if w.len() == 0 {
        1
    } else {
        fingerprint(w.drop_last(), letter_primes) * letter_primes[w.last() - 97]
    }
}

/// The smaller of two integers.
pub open spec fn min_int(a: int, b: int) -> int {
    if a <= b {
        a
    } else {
        b
    }
}

/// Total occurrences of the letter at position `i` over the words `ws`.
pub open spec fn total_occurrences(ws: Seq<Seq<u8>>, i: int) -> nat
    decreases ws.len(),
{
    if ws.len() == 0 {
        0
    } else {
        total_occurrences(ws.drop_last(), i) + ws.last().to_multiset().count(letter_of(i))
    }
}

proof fn lemma_rank_bound(f: Seq<usize>, l: int, n: int)
    requires
        f.len() == 26,
        0 <= l < 26,
        0 <= n <= 26,
    ensures
        rank_below(f, l, n) + (if l < n { 1int } else { 0int }) <= n,
    decreases n,
{
    if n > 0 {
        lemma_rank_bound(f, l, n - 1);
    }
}

proof fn lemma_rank_gap(f: Seq<usize>, m: int, l: int, n: int)
    requires
        f.len() == 26,
        0 <= m < 26,
        0 <= l < 26,
        precedes(f, m, l),
        0 <= n <= 26,
    ensures
        rank_below(f, l, n) >= rank_below(f, m, n) + (if m < n { 1int } else { 0int }),
    decreases n,
{
    if n > 0 {
        lemma_rank_gap(f, m, l, n - 1);
    }
}

/// Different letters get different slots, and every slot is below 26.
pub proof fn lemma_slots_distinct(f: Seq<usize>, l: int, m: int)
    requires
        f.len() == 26,
        0 <= l < 26,
        0 <= m < 26,
        l != m,
    ensures
        slot_of(f, l) != slot_of(f, m),
        slot_of(f, l) < 26,
{
    lemma_rank_bound(f, l, 26);
    if precedes(f, m, l) {
        lemma_rank_gap(f, m, l, 26);
    } else {
        lemma_rank_gap(f, l, m, 26);
    }
}

/// Counts how often each letter occurs over all of `words` (saturating at the largest
/// `usize`).
pub fn letter_frequencies(words: &Vec<Vec<u8>>) -> (r: Vec<usize>)
    requires
        forall|j: int| 0 <= j < words@.len() ==> all_letters(#[trigger] words@[j]@),
    ensures
        r@.len() == ALPHA_SIZE,
        forall|i: int|
            0 <= i < 26 ==> #[trigger] r@[i] == min_int(
                total_occurrences(words@.map_values(|w: Vec<u8>| w@), i) as int,
                usize::MAX as int,
            ),
{
    let ghost views = words@.map_values(|w: Vec<u8>| w@);
    let mut freq: Vec<usize> = vec![0usize; ALPHA_SIZE];
    let mut j: usize = 0;
    while j < words.len()
        invariant
            j <= words@.len(),
            views == words@.map_values(|w: Vec<u8>| w@),
            forall|j: int| 0 <= j < words@.len() ==> all_letters(#[trigger] words@[j]@),
            freq@.len() == ALPHA_SIZE,
            forall|i: int|
                0 <= i < 26 ==> #[trigger] freq@[i] == min_int(
                    total_occurrences(views.take(j as int), i) as int,
                    usize::MAX as int,
                ),
        decreases words@.len() - j,
    {
        let counts = to_counter(words[j].as_slice());
        let ghost before = freq@;
        let mut i: usize = 0;
        while i < ALPHA_SIZE
            invariant
                i <= ALPHA_SIZE,
                freq@.len() == ALPHA_SIZE,
                counts@.len() == ALPHA_SIZE,
                forall|k: int| 0 <= k < i ==> #[trigger] freq@[k] == min_int(
                    before[k] + counts@[k],
                    usize::MAX as int,
                ),
                forall|k: int| i <= k < 26 ==> #[trigger] freq@[k] == before[k],
            decreases ALPHA_SIZE - i,
        {
            let v = freq[i].saturating_add(counts[i]);
            freq.set(i, v);
            i += 1;
        }
        proof {
            assert(views.take(j + 1).drop_last() =~= views.take(j as int));
            assert forall|k: int| 0 <= k < 26 implies #[trigger] freq@[k] == min_int(
                total_occurrences(views.take(j + 1), k) as int,
                usize::MAX as int,
            ) by {
                assert(views.take(j + 1).last() == words@[j as int]@);
                assert(counts@[k] == words@[j as int]@.to_multiset().count(letter_of(k)));
            }
        }
        j += 1;
    }
    assert(views.take(j as int) =~= views);
    freq
}

/// Gives each letter its slot: letters sorted by falling frequency, ties kept in
/// alphabetical order.
pub fn letter_slots(freq: &Vec<usize>) -> (slot: Vec<usize>)
    requires
        freq@.len() == ALPHA_SIZE,
    ensures
        slot@.len() == ALPHA_SIZE,
        forall|l: int| 0 <= l < 26 ==> #[trigger] slot@[l] == slot_of(freq@, l),
{
    let mut slot: Vec<usize> = Vec::new();
    let mut l: usize = 0;
    while l < ALPHA_SIZE
        invariant
            l <= ALPHA_SIZE,
            freq@.len() == ALPHA_SIZE,
            slot@.len() == l,
            forall|k: int| 0 <= k < l ==> #[trigger] slot@[k] == slot_of(freq@, k),
        decreases ALPHA_SIZE - l,
    {
        let mut rank: usize = 0;
        let mut m: usize = 0;
        while m < ALPHA_SIZE
            invariant
                m <= ALPHA_SIZE,
                l < ALPHA_SIZE,
                freq@.len() == ALPHA_SIZE,
                rank == rank_below(freq@, l as int, m as int),
                rank <= m,
            decreases ALPHA_SIZE - m,
        {
            if freq[m] > freq[l] || (freq[m] == freq[l] && m < l) {
                rank += 1;
            }
            m += 1;
        }
        slot.push(rank);
        l += 1;
    }
    slot
}

/// Lists the letters slot by slot, so that `order[slot[l]] == l`.
pub fn slot_order(freq: &Vec<usize>, slot: &Vec<usize>) -> (order: Vec<usize>)
    requires
        freq@.len() == ALPHA_SIZE,
        slot@.len() == ALPHA_SIZE,
        forall|l: int| 0 <= l < 26 ==> #[trigger] slot@[l] == slot_of(freq@, l),
    ensures
        is_letter_order(order@, slot@),
{
    let mut order: Vec<usize> = vec![0usize; ALPHA_SIZE];
    let mut l: usize = 0;
    while l < ALPHA_SIZE
        invariant
            l <= ALPHA_SIZE,
            freq@.len() == ALPHA_SIZE,
            slot@.len() == ALPHA_SIZE,
            order@.len() == ALPHA_SIZE,
            forall|k: int| 0 <= k < 26 ==> #[trigger] slot@[k] == slot_of(freq@, k),
            forall|s: int| 0 <= s < 26 ==> #[trigger] order@[s] < 26,
            forall|k: int| 0 <= k < l ==> #[trigger] order@[slot@[k] as int] == k,
        decreases ALPHA_SIZE - l,
    {
        proof {
            lemma_slots_distinct(freq@, l as int, if l == 0 { 1 } else { 0 });
        }
        let s = slot[l];
        let ghost old_order = order@;
        order.set(s, l);
        proof {
            assert forall|k: int| 0 <= k < l + 1 implies #[trigger] order@[slot@[k] as int] == k by {
                if k < l {
                    lemma_slots_distinct(freq@, k, l as int);
                    assert(old_order[slot@[k] as int] == k);
                }
            }
        }
        l += 1;
    }
    proof {
        assert forall|k: int| 0 <= k < 26 implies #[trigger] slot@[k] < 26 by {
            lemma_slots_distinct(freq@, k, if k == 0 { 1 } else { 0 });
        }
    }
    order
}

/// The first 26 primes.
pub fn prime_table() -> (r: Vec<u128>)
    ensures
        r@ == primes(),
{
    let r: Vec<u128> = vec![
        2u128, 3, 5, 7, 11, 13, 17, 19, 23, 29, 31, 37, 41, 43, 47, 53, 59, 61, 67, 71, 73, 79,
        83, 89, 97, 101,
    ];
    assert(r@ =~= primes());
    r
}

/// The prime of each letter: the prime of its slot.
pub fn letter_primes(slot: &Vec<usize>) -> (r: Vec<u128>)
    requires
        slot@.len() == ALPHA_SIZE,
        forall|l: int| 0 <= l < 26 ==> #[trigger] slot@[l] < 26,
    ensures
        r@.len() == ALPHA_SIZE,
        forall|l: int| 0 <= l < 26 ==> #[trigger] r@[l] == primes()[slot@[l] as int],
{
    let table = prime_table();
    let mut r: Vec<u128> = Vec::new();
    let mut l: usize = 0;
    while l < ALPHA_SIZE
        invariant
            l <= ALPHA_SIZE,
            table@ == primes(),
            slot@.len() == ALPHA_SIZE,
            forall|k: int| 0 <= k < 26 ==> #[trigger] slot@[k] < 26,
            r@.len() == l,
            forall|k: int| 0 <= k < l ==> #[trigger] r@[k] == primes()[slot@[k] as int],
        decreases ALPHA_SIZE - l,
    {
        r.push(table[slot[l]]);
        l += 1;
    }
    r
}

/// The fingerprint of a letter-only word, or `None` if it does not fit in 128 bits.
pub fn word_fingerprint(w: &[u8], primes_of: &Vec<u128>) -> (r: Option<u128>)
    requires
        all_letters(w@),
        primes_of@.len() == ALPHA_SIZE,
        forall|l: int| 0 <= l < 26 ==> #[trigger] primes_of@[l] >= 1,
    ensures
        match r {
            Some(p) => p == fingerprint(w@, primes_of@),
            None => fingerprint(w@, primes_of@) > u128::MAX,
        },
{
    let mut p: u128 = 1;
    let mut k: usize = 0;
    while k < w.len()
        invariant
            k <= w.len(),
            all_letters(w@),
            primes_of@.len() == ALPHA_SIZE,
            forall|l: int| 0 <= l < 26 ==> #[trigger] primes_of@[l] >= 1,
            p == fingerprint(w@.take(k as int), primes_of@),
        decreases w.len() - k,
    {
        let q = primes_of[to_index(w[k])];
        assert(w@.take(k + 1).drop_last() =~= w@.take(k as int));
        match p.checked_mul(q) {
            Some(v) => {
                p = v;
            },
            None => {
                proof {
                    lemma_fingerprint_grows(w@, primes_of@, k + 1);
                }
                return None;
            },
        }
        k += 1;
    }
    assert(w@.take(k as int) =~= w@);
    Some(p)
}

proof fn lemma_fingerprint_grows(w: Seq<u8>, ps: Seq<u128>, k: int)
    requires
        0 <= k <= w.len(),
        all_letters(w),
        ps.len() == 26,
        forall|l: int| 0 <= l < 26 ==> #[trigger] ps[l] >= 1,
    ensures
        fingerprint(w, ps) >= fingerprint(w.take(k), ps) >= 1,
    decreases w.len(),
{
    if w.len() > 0 {
        let q = ps[w.last() - 97];
        assert(is_letter(w[w.len() - 1]));
        if k == w.len() {
            assert(w.take(k) =~= w);
            lemma_fingerprint_grows(w.drop_last(), ps, 0);
        } else {
            lemma_fingerprint_grows(w.drop_last(), ps, k);
            assert(w.drop_last().take(k) =~= w.take(k));
        }
        let a = fingerprint(w.drop_last(), ps);
        assert(a * q >= a) by (nonlinear_arith)
            requires
                a >= 1,
                q >= 1,
        ;
    }
}

/// A fingerprint is at least one.
pub proof fn lemma_fingerprint_positive(w: Seq<u8>, ps: Seq<u128>)
    requires
        all_letters(w),
        ps.len() == 26,
        forall|l: int| 0 <= l < 26 ==> #[trigger] ps[l] >= 1,
    ensures
        fingerprint(w, ps) >= 1,
{
    lemma_fingerprint_grows(w, ps, 0);
}

/// Every prime of the table is at least two.
pub proof fn lemma_primes_at_least_two(i: int)
    requires
        0 <= i < 26,
    ensures
        primes()[i] >= 2,
{
}

/// The fingerprint of a non-empty word is at least two when every prime is.
pub proof fn lemma_fingerprint_at_least_two(w: Seq<u8>, ps: Seq<u128>)
    requires
        all_letters(w),
        w.len() > 0,
        ps.len() == 26,
        forall|l: int| 0 <= l < 26 ==> #[trigger] ps[l] >= 2,
    ensures
        fingerprint(w, ps) >= 2,
{
    lemma_fingerprint_grows(w, ps, 1);
    let t = w.take(1);
    assert(t.drop_last() =~= Seq::<u8>::empty());
    assert(is_letter(w[0]));
    assert(t.last() == w[0]);
    assert(fingerprint(t.drop_last(), ps) == 1);
    assert(fingerprint(t, ps) == fingerprint(t.drop_last(), ps) * ps[t.last() - 97]);
    assert(ps[w[0] - 97] >= 2);
}

/// The product, over the first `n` letters, of each letter's prime raised to its count in
/// `c`.
pub open spec fn counter_product(c: Seq<usize>, ps: Seq<u128>, n: nat) -> int
    decreases n,
{
    if n == 0 {
        1
    } else {
        counter_product(c, ps, (n - 1) as nat) * pow(ps[n - 1] as int, c[n - 1] as nat)
    }
}

proof fn lemma_counter_product_frame(c: Seq<usize>, d: Seq<usize>, ps: Seq<u128>, n: nat)
    requires
        forall|l: int| 0 <= l < n ==> #[trigger] c[l] == d[l],
    ensures
        counter_product(c, ps, n) == counter_product(d, ps, n),
    decreases n,
{
    if n > 0 {
        lemma_counter_product_frame(c, d, ps, (n - 1) as nat);
    }
}

proof fn lemma_counter_product_zero(c: Seq<usize>, ps: Seq<u128>, n: nat)
    requires
        forall|l: int| 0 <= l < n ==> #[trigger] c[l] == 0,
    ensures
        counter_product(c, ps, n) == 1,
    decreases n,
{
    if n > 0 {
        lemma_counter_product_zero(c, ps, (n - 1) as nat);
        assert(pow(ps[n - 1] as int, 0) == 1) by {
            reveal(pow);
        }
    }
}

proof fn lemma_counter_product_step(c: Seq<usize>, ps: Seq<u128>, n: nat, x: int)
    requires
        0 <= x < n <= c.len(),
        c[x] >= 1,
    ensures
        counter_product(c, ps, n) == counter_product(c.update(x, (c[x] - 1) as usize), ps, n)
            * ps[x],
    decreases n,
{
    let c2 = c.update(x, (c[x] - 1) as usize);
    let m = (n - 1) as nat;
    if x < m {
        lemma_counter_product_step(c, ps, m, x);
        let a = counter_product(c2, ps, m);
        let q = pow(ps[m as int] as int, c[m as int] as nat);
        assert(c2[m as int] == c[m as int]);
        assert(a * ps[x] * q == a * q * ps[x]) by (nonlinear_arith);
    } else {
        lemma_counter_product_frame(c, c2, ps, m);
        let a = counter_product(c, ps, m);
        let b = ps[x] as int;
        let e = c[x] as nat;
        assert(pow(b, e) == b * pow(b, (e - 1) as nat)) by {
            reveal(pow);
        }
        let q = pow(b, (e - 1) as nat);
        assert(a * (b * q) == a * q * b) by (nonlinear_arith);
    }
}

/// The fingerprint of a word is the product of each letter's prime raised to its count:
/// it depends on the word's letters only, not on their order.
pub proof fn lemma_fingerprint_of_counter(w: Seq<u8>, c: Seq<usize>, ps: Seq<u128>)
    requires
        all_letters(w),
        counts_bag(c, w.to_multiset()),
    ensures
        fingerprint(w, ps) == counter_product(c, ps, 26),
    decreases w.len(),
{
    if w.len() == 0 {
        assert forall|i: int| 0 <= i < 26 implies #[trigger] c[i] == 0usize by {}
        lemma_counter_product_zero(c, ps, 26);
    } else {
        let b = w.last();
        assert(is_letter(w[w.len() - 1]));
        let x = b - 97;
        assert(letter_of(x) == b);
        let d = w.drop_last();
        assert(w =~= d.push(b));
        assert(w.to_multiset() =~= d.to_multiset().insert(b));
        let c2 = c.update(x, (c[x] - 1) as usize);
        assert forall|i: int| 0 <= i < 26 implies #[trigger] c2[i] == d.to_multiset().count(letter_of(i)) by {
            if i != x {
                assert(letter_of(i) != b);
            }
        }
        lemma_fingerprint_of_counter(d, c2, ps);
        lemma_counter_product_step(c, ps, 26, x);
    }
}

/// Two words with the same letter counts have the same fingerprint.
pub proof fn lemma_same_counter_same_fingerprint(w1: Seq<u8>, w2: Seq<u8>, c: Seq<usize>, ps: Seq<u128>)
    requires
        all_letters(w1),
        all_letters(w2),
        counts_bag(c, w1.to_multiset()),
        counts_bag(c, w2.to_multiset()),
    ensures
        fingerprint(w1, ps) == fingerprint(w2, ps),
{
    lemma_fingerprint_of_counter(w1, c, ps);
    lemma_fingerprint_of_counter(w2, c, ps);
}

} // verus!
