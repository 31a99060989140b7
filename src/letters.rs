//! Letters, letter bags and 26-slot letter counters.
use vstd::multiset::Multiset;
use vstd::prelude::*;

verus! {

broadcast use vstd::seq_lib::group_to_multiset_ensures;

/// Number of letters in the alphabet, and of slots in a counter.
pub const ALPHA_SIZE: usize = 26;

/// The code of `a`.
pub const ASCII_OFFSET: u8 = 97;

/// The views of a list of byte strings.
pub open spec fn words_view(ws: Seq<Vec<u8>>) -> Seq<Seq<u8>> {
    ws.map_values(|w: Vec<u8>| w@)
}

/// A lowercase ASCII letter.
pub open spec fn is_letter(b: u8) -> bool {
    97 <= b && b <= 122
}

/// The letter at alphabet position `i`.
pub open spec fn letter_of(i: int) -> u8 {
    (i + 97) as u8
}

/// Every byte of `s` is a lowercase ASCII letter.
pub open spec fn all_letters(s: Seq<u8>) -> bool {
    forall|i: int| 0 <= i < s.len() ==> is_letter(#[trigger] s[i])
}

/// `c` is a counter of the bag `m`: slot `i` holds how often the `i`-th letter occurs.
pub open spec fn counts_bag(c: Seq<usize>, m: Multiset<u8>) -> bool {
    c.len() == ALPHA_SIZE && forall|i: int| 0 <= i < 26 ==> #[trigger] c[i] == m.count(letter_of(i))
}

/// Every slot of `small` is at most the same slot of `big`.
pub open spec fn fits_in(small: Seq<usize>, big: Seq<usize>) -> bool {
    small.len() == ALPHA_SIZE && big.len() == ALPHA_SIZE && forall|i: int|
        0 <= i < 26 ==> #[trigger] small[i] <= big[i]
}

/// `small` is made of letters only and each of them occurs in `big` at least as often.
pub open spec fn is_sub_bag(small: Seq<u8>, big: Seq<u8>) -> bool {
    all_letters(small) && small.to_multiset().subset_of(big.to_multiset())
}

/// A letter-only sequence counts no other byte.
pub proof fn lemma_no_other_bytes(s: Seq<u8>, b: u8)
    requires
        all_letters(s),
        !is_letter(b),
    ensures
        s.to_multiset().count(b) == 0,
{
    if s.to_multiset().count(b) > 0 {
        assert(s.to_multiset().contains(b));
        let i = choose|i: int| 0 <= i < s.len() && s[i] == b;
        assert(is_letter(s[i]));
    }
}

/// Alphabet position of a lowercase letter: `a` is 0, `z` is 25.
pub fn to_index(c: u8) -> (r: usize)
    requires
        is_letter(c),
    ensures
        r == c - 97,
        r < ALPHA_SIZE,
        letter_of(r as int) == c,
{
    (c - ASCII_OFFSET) as usize
}

/// The letter at alphabet position `i`: 0 is `a`, 25 is `z`.
pub fn to_char(i: usize) -> (r: u8)
    requires
        i < ALPHA_SIZE,
    ensures
        r == letter_of(i as int),
        is_letter(r),
{
    (i as u8) + ASCII_OFFSET
}

/// Whether every byte of `s` is a lowercase letter.
pub fn is_lowercase_word(s: &[u8]) -> (r: bool)
    ensures
        r == all_letters(s@),
{
    let mut k: usize = 0;
    while k < s.len()
        invariant
            k <= s.len(),
            forall|j: int| 0 <= j < k ==> is_letter(#[trigger] s@[j]),
        decreases s.len() - k,
    {
        if s[k] < ASCII_OFFSET || s[k] > 122 {
            return false;
        }
        k += 1;
    }
    true
}

/// Counts the letters of a letter-only word, one slot per letter in alphabetical order.
pub fn to_counter(s: &[u8]) -> (r: Vec<usize>)
    requires
        all_letters(s@),
    ensures
        counts_bag(r@, s@.to_multiset()),
{
    let mut counts: Vec<usize> = vec![0usize; ALPHA_SIZE];
    let mut k: usize = 0;
    while k < s.len()
        invariant
            k <= s.len(),
            all_letters(s@),
            counts_bag(counts@, s@.take(k as int).to_multiset()),
            forall|i: int| 0 <= i < 26 ==> #[trigger] counts@[i] <= k,
        decreases s.len() - k,
    {
        let i = to_index(s[k]);
        counts.set(i, counts[i] + 1);
        assert(s@.take(k + 1) =~= s@.take(k as int).push(s@[k as int]));
        k += 1;
    }
    assert(s@.take(s.len() as int) =~= s@);
    counts
}

/// Whether `a` holds at least as much as `b` in every slot.
pub fn counter_contains(a: &Vec<usize>, b: &Vec<usize>) -> (r: bool)
    requires
        a@.len() == ALPHA_SIZE,
        b@.len() == ALPHA_SIZE,
    ensures
        r == fits_in(b@, a@),
{
    let mut i: usize = 0;
    while i < ALPHA_SIZE
        invariant
            i <= ALPHA_SIZE,
            a@.len() == ALPHA_SIZE,
            b@.len() == ALPHA_SIZE,
            forall|j: int| 0 <= j < i ==> #[trigger] b@[j] <= a@[j],
        decreases ALPHA_SIZE - i,
    {
        if a[i] < b[i] {
            return false;
        }
        i += 1;
    }
    true
}

/// Adds `b` into `a`, slot by slot.
pub fn add_counters(a: &mut Vec<usize>, b: &Vec<usize>)
    requires
        old(a)@.len() == ALPHA_SIZE,
        b@.len() == ALPHA_SIZE,
        forall|i: int| 0 <= i < 26 ==> old(a)@[i] + b@[i] <= usize::MAX,
    ensures
        final(a)@ == Seq::new(26, |i: int| (old(a)@[i] + b@[i]) as usize),
{
    let mut i: usize = 0;
    while i < ALPHA_SIZE
        invariant
            i <= ALPHA_SIZE,
            a@.len() == ALPHA_SIZE,
            b@.len() == ALPHA_SIZE,
            forall|j: int| 0 <= j < 26 ==> old(a)@[j] + b@[j] <= usize::MAX,
            forall|j: int| 0 <= j < i ==> #[trigger] a@[j] == old(a)@[j] + b@[j],
            forall|j: int| i <= j < 26 ==> #[trigger] a@[j] == old(a)@[j],
        decreases ALPHA_SIZE - i,
    {
        let v = a[i] + b[i];
        a.set(i, v);
        i += 1;
    }
    assert(a@ =~= Seq::new(26, |i: int| (old(a)@[i] + b@[i]) as usize));
}

/// Takes `b` out of `a`, slot by slot.
pub fn subtract_counters(a: &mut Vec<usize>, b: &Vec<usize>)
    requires
        fits_in(b@, old(a)@),
    ensures
        final(a)@ == Seq::new(26, |i: int| (old(a)@[i] - b@[i]) as usize),
{
    let mut i: usize = 0;
    while i < ALPHA_SIZE
        invariant
            i <= ALPHA_SIZE,
            a@.len() == ALPHA_SIZE,
            fits_in(b@, old(a)@),
            forall|j: int| 0 <= j < i ==> #[trigger] a@[j] == old(a)@[j] - b@[j],
            forall|j: int| i <= j < 26 ==> #[trigger] a@[j] == old(a)@[j],
        decreases ALPHA_SIZE - i,
    {
        let v = a[i] - b[i];
        a.set(i, v);
        i += 1;
    }
    assert(a@ =~= Seq::new(26, |i: int| (old(a)@[i] - b@[i]) as usize));
}

/// Whether `smaller` is a bag of letters that `larger`, a letter-only word, holds.
pub fn contained(smaller: &[u8], larger: &[u8]) -> (r: bool)
    requires
        all_letters(larger@),
    ensures
        r == is_sub_bag(smaller@, larger@),
{
    if !is_lowercase_word(smaller) {
        return false;
    }
    let smaller_counts = to_counter(smaller);
    let larger_counts = to_counter(larger);
    let r = counter_contains(&larger_counts, &smaller_counts);
    proof {
        let ms = smaller@.to_multiset();
        let ml = larger@.to_multiset();
        if r {
            assert forall|v: u8| ms.count(v) <= ml.count(v) by {
                if is_letter(v) {
                    let i = v - 97;
                    assert(letter_of(i) == v);
                    assert(smaller_counts@[i] <= larger_counts@[i]);
                } else {
                    lemma_no_other_bytes(smaller@, v);
                }
            }
        } else {
            let i = choose|i: int| 0 <= i < 26 && !(smaller_counts@[i] <= larger_counts@[i]);
            assert(ms.count(letter_of(i)) > ml.count(letter_of(i)));
        }
    }
    r
}

/// Whether a dictionary word is a candidate for the bag `seed`: long enough and made of its
/// letters.
pub fn filter_line(line: &[u8], seed: &[u8], min_length: usize) -> (r: bool)
    requires
        all_letters(seed@),
    ensures
        r == (line@.len() >= min_length && is_sub_bag(line@, seed@)),
{
    line.len() >= min_length && contained(line, seed)
}

} // verus!
