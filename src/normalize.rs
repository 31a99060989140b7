//! The target bag: the letters of the seed phrase, lowercased, less the letters of the
//! words that every answer must include.
use crate::letters::{
    all_letters, counter_contains, counts_bag, fits_in, is_letter, letter_of, subtract_counters,
    to_counter, ALPHA_SIZE,
};
use vstd::multiset::Multiset;
use vstd::prelude::*;
use vstd::string::StrSliceExecFns;

verus! {

broadcast use vstd::seq_lib::group_to_multiset_ensures;

/// An ASCII letter, either case.
pub open spec fn is_ascii_alpha(c: char) -> bool {
    ('a' <= c && c <= 'z') || ('A' <= c && c <= 'Z')
}

/// The lowercase byte of an ASCII letter.
pub open spec fn lower_byte(c: char) -> u8 {
    if 'A' <= c && c <= 'Z' {
        (c as u32 + 32) as u8
    } else {
        c as u32 as u8
    }
}

/// The seed phrase reduced to its letters: everything but ASCII letters dropped, and the
/// letters lowercased.
pub open spec fn normalize(s: Seq<char>) -> Seq<u8>
    decreases s.len(),
{
    if s.len() == 0 {
        Seq::empty()
    } else if is_ascii_alpha(s.last()) {
        normalize(s.drop_last()).push(lower_byte(s.last()))
    } else {
        normalize(s.drop_last())
    }
}

/// The characters of a byte string, one per byte.
pub open spec fn bytes_as_chars(b: Seq<u8>) -> Seq<char> {
    b.map_values(|x: u8| x as char)
}

/// The bytes of a lowercase word, if each of its characters is a lowercase ASCII letter.
pub open spec fn word_bytes(w: Seq<char>) -> Option<Seq<u8>> {
    if forall|i: int| 0 <= i < w.len() ==> 'a' <= #[trigger] w[i] && w[i] <= 'z' {
        Some(w.map_values(|c: char| c as u32 as u8))
    } else {
        None
    }
}

/// What is left of `bag` once the letters of each word of `words` are taken out in turn, or
/// `None` if one of them does not fit in what is left at that point.
pub open spec fn remove_words(bag: Multiset<u8>, words: Seq<Seq<char>>) -> Option<Multiset<u8>>
    decreases words.len(),
{
    if words.len() == 0 {
        Some(bag)
    } else {
        match remove_words(bag, words.drop_last()) {
            None => None,
            Some(rest) => match word_bytes(words.last()) {
                Some(b) => if b.to_multiset().subset_of(rest) {
                    Some(rest.sub(b.to_multiset()))
                } else {
                    None
                },
                None => None,
            },
        }
    }
}

/// Normalizing twice is normalizing once.
pub proof fn lemma_normalize_idempotent(s: Seq<char>)
    ensures
        normalize(bytes_as_chars(normalize(s))) == normalize(s),
{
    let n = normalize(s);
    lemma_normalize_letters(s);
    lemma_normalize_of_lowercase(n);
}

proof fn lemma_normalize_letters(s: Seq<char>)
    ensures
        all_letters(normalize(s)),
    decreases s.len(),
{
    if s.len() > 0 {
        lemma_normalize_letters(s.drop_last());
    }
}

proof fn lemma_normalize_of_lowercase(b: Seq<u8>)
    requires
        all_letters(b),
    ensures
        normalize(bytes_as_chars(b)) == b,
    decreases b.len(),
{
    if b.len() > 0 {
        lemma_normalize_of_lowercase(b.drop_last());
        let cs = bytes_as_chars(b);
        assert(cs.drop_last() =~= bytes_as_chars(b.drop_last()));
        assert(is_letter(b.last()));
        assert(cs.last() == b.last() as char);
        assert(b =~= b.drop_last().push(b.last()));
    }
}

/// Reduces the seed phrase to its lowercase letters.
pub fn normalize_seed(seed: &str) -> (r: Vec<u8>)
    ensures
        r@ == normalize(seed@),
        all_letters(r@),
{
    let n = seed.unicode_len();
    let mut r: Vec<u8> = Vec::new();
    let mut k: usize = 0;
    while k < n
        invariant
            k <= n,
            n == seed@.len(),
            r@ == normalize(seed@.take(k as int)),
        decreases n - k,
    {
        let c = seed.get_char(k);
        assert(seed@.take(k + 1).drop_last() =~= seed@.take(k as int));
        if 'a' <= c && c <= 'z' {
            r.push(c as u32 as u8);
        } else if 'A' <= c && c <= 'Z' {
            r.push((c as u32 + 32) as u8);
        }
        k += 1;
    }
    assert(seed@.take(n as int) =~= seed@);
    proof {
        lemma_normalize_letters(seed@);
    }
    r
}

/// The bytes of a word made of lowercase ASCII letters, or `None` if it has another
/// character.
pub fn lowercase_word_bytes(w: &str) -> (r: Option<Vec<u8>>)
    ensures
        match word_bytes(w@) {
            Some(b) => r is Some && r->0@ == b,
            None => r is None,
        },
{
    let n = w.unicode_len();
    let mut r: Vec<u8> = Vec::new();
    let mut k: usize = 0;
    while k < n
        invariant
            k <= n,
            n == w@.len(),
            r@.len() == k,
            forall|i: int| 0 <= i < k ==> 'a' <= #[trigger] w@[i] && w@[i] <= 'z',
            forall|i: int| 0 <= i < k ==> #[trigger] r@[i] == w@[i] as u32 as u8,
        decreases n - k,
    {
        let c = w.get_char(k);
        if c < 'a' || c > 'z' {
            return None;
        }
        r.push(c as u32 as u8);
        k += 1;
    }
    assert(r@ =~= w@.map_values(|c: char| c as u32 as u8));
    Some(r)
}

/// Only letters occur in the bag.
pub open spec fn letter_bag(m: Multiset<u8>) -> bool {
    forall|v: u8| !is_letter(v) ==> #[trigger] m.count(v) == 0
}

proof fn lemma_remove_words_stays_none(bag: Multiset<u8>, words: Seq<Seq<char>>, i: int)
    requires
        0 <= i <= words.len(),
        remove_words(bag, words.take(i)) is None,
    ensures
        remove_words(bag, words) is None,
    decreases words.len() - i,
{
    if i < words.len() {
        assert(words.take(i + 1).drop_last() =~= words.take(i));
        lemma_remove_words_stays_none(bag, words, i + 1);
    } else {
        assert(words.take(i) =~= words);
    }
}

/// The view of each word of a list of strings.
pub open spec fn strings_view(ws: Seq<String>) -> Seq<Seq<char>> {
    ws.map_values(|w: String| w@)
}

/// Takes the letters of each word of `includes` out of the bag counted by `counter`, in
/// turn. Returns the words' bytes, or `None` if one of them does not fit in what is left at
/// that point (the counter then holds no particular value).
pub fn remove_includes(counter: &mut Vec<usize>, includes: &Vec<String>) -> (r: Option<
    Vec<Vec<u8>>,
>)
    requires
        old(counter)@.len() == ALPHA_SIZE,
    ensures
        forall|m: Multiset<u8>|
            #![trigger counts_bag(old(counter)@, m)]
            counts_bag(old(counter)@, m) && letter_bag(m) ==> match remove_words(
                m,
                strings_view(includes@),
            ) {
                Some(rest) => {
                    &&& r is Some
                    &&& counts_bag(final(counter)@, rest)
                    &&& letter_bag(rest)
                    &&& r->0@.len() == includes@.len()
                    &&& forall|i: int|
                        0 <= i < includes@.len() ==> word_bytes(includes@[i]@) == Some(
                            (#[trigger] r->0@[i])@,
                        )
                },
                None => r is None,
            },
        final(counter)@.len() == ALPHA_SIZE,
        fits_in(final(counter)@, old(counter)@),
{
    let ghost start = counter@;
    let mut words: Vec<Vec<u8>> = Vec::new();
    let mut i: usize = 0;
    while i < includes.len()
        invariant
            i <= includes@.len(),
            start == old(counter)@,
            counter@.len() == ALPHA_SIZE,
            fits_in(counter@, start),
            words@.len() == i,
            forall|x: int| 0 <= x < i ==> word_bytes(includes@[x]@) == Some((#[trigger] words@[x])@),
            forall|m: Multiset<u8>|
                #![trigger counts_bag(start, m)]
                counts_bag(start, m) && letter_bag(m) ==> match remove_words(
                    m,
                    strings_view(includes@).take(i as int),
                ) {
                    Some(rest) => counts_bag(counter@, rest) && letter_bag(rest),
                    None => false,
                },
        decreases includes@.len() - i,
    {
        let ghost views = strings_view(includes@);
        proof {
            assert(views.take(i + 1).drop_last() =~= views.take(i as int));
            assert(views.take(i + 1).last() == includes@[i as int]@);
        }
        let b = match lowercase_word_bytes(includes[i].as_str()) {
            Some(b) => b,
            None => {
                proof {
                    assert forall|m: Multiset<u8>| #![trigger counts_bag(start, m)]
                        counts_bag(start, m) && letter_bag(m) implies remove_words(m, views) is None by {
                        lemma_remove_words_stays_none(m, views, i + 1);
                    }
                }
                return None;
            },
        };
        proof {
            assert forall|x: int| 0 <= x < b@.len() implies is_letter(#[trigger] b@[x]) by {
                assert('a' <= includes@[i as int]@[x] && includes@[i as int]@[x] <= 'z');
            }
        }
        let wc = to_counter(b.as_slice());
        if !counter_contains(counter, &wc) {
            proof {
                let x = choose|x: int| 0 <= x < 26 && !(wc@[x] <= counter@[x]);
                assert forall|m: Multiset<u8>| #![trigger counts_bag(start, m)]
                    counts_bag(start, m) && letter_bag(m) implies remove_words(m, views) is None by {
                    let rest = remove_words(m, views.take(i as int))->0;
                    assert(b@.to_multiset().count(letter_of(x)) > rest.count(letter_of(x)));
                    assert(!b@.to_multiset().subset_of(rest));
                    lemma_remove_words_stays_none(m, views, i + 1);
                }
            }
            return None;
        }
        let ghost before = counter@;
        subtract_counters(counter, &wc);
        proof {
            assert forall|m: Multiset<u8>| #![trigger counts_bag(start, m)]
                counts_bag(start, m) && letter_bag(m) implies match remove_words(m, views.take(i + 1)) {
                    Some(rest) => counts_bag(counter@, rest) && letter_bag(rest),
                    None => false,
                } by {
                let rest = remove_words(m, views.take(i as int))->0;
                let bm = b@.to_multiset();
                assert(counts_bag(before, rest));
                assert forall|v: u8| bm.count(v) <= rest.count(v) by {
                    if is_letter(v) {
                        let x = v - 97;
                        assert(letter_of(x) == v);
                        assert(wc@[x] <= before[x]);
                    } else {
                        crate::letters::lemma_no_other_bytes(b@, v);
                    }
                }
                assert(bm.subset_of(rest));
                let after = rest.sub(bm);
                assert forall|x: int| 0 <= x < 26 implies #[trigger] counter@[x] == after.count(letter_of(x)) by {
                    assert(counter@[x] == before[x] - wc@[x]);
                }
                assert forall|v: u8| !is_letter(v) implies #[trigger] after.count(v) == 0 by {
                    assert(rest.count(v) == 0);
                }
            }
        }
        words.push(b);
        i += 1;
    }
    proof {
        assert(strings_view(includes@).take(i as int) =~= strings_view(includes@));
    }
    Some(words)
}

} // verus!
