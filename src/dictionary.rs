//! The dictionary text: one `word<TAB>score` entry per line, most frequent first.
use crate::letters::{
    all_letters, counter_contains, counts_bag, is_letter, is_lowercase_word, letter_of,
    lemma_no_other_bytes, to_counter, ALPHA_SIZE,
};
use crate::normalize::{bytes_as_chars, letter_bag, strings_view};
use vstd::multiset::Multiset;
use vstd::prelude::*;
use vstd::string::StrSliceExecFns;
use vstd::slice::{slice_subrange, slice_to_vec};

verus! {

/// Line feed.
pub const NEWLINE: u8 = 10;

/// Horizontal tab.
pub const TAB: u8 = 9;

/// One dictionary entry: a spelling and its frequency score.
pub struct Entry {
    pub word: Vec<u8>,
    pub score: i32,
}

/// Why the dictionary text could not be read.
#[derive(Debug, PartialEq, Eq, Structural)]
pub enum ParseError {
    /// The line with this index (counting from zero) is not `word<TAB>score`.
    MalformedLine(usize),
}

/// The lines of `t`, split at every line feed; the last one may be empty.
pub open spec fn split_lines(t: Seq<u8>) -> Seq<Seq<u8>>
    decreases t.len(),
{
    if t.len() == 0 {
        seq![Seq::empty()]
    } else {
        let prev = split_lines(t.drop_last());
        if t.last() == NEWLINE {
            prev.push(Seq::empty())
        } else {
            prev.update(prev.len() - 1, prev.last().push(t.last()))
        }
    }
}

/// Position of the first `b` in `s`, or the length of `s` if there is none.
pub open spec fn first_index_of(s: Seq<u8>, b: u8) -> int
    decreases s.len(),
{
    if s.len() == 0 {
        0
    } else if s[0] == b {
        0
    } else {
        1 + first_index_of(s.drop_first(), b)
    }
}

/// An ASCII decimal digit.
pub open spec fn is_digit(b: u8) -> bool {
    48 <= b && b <= 57
}

/// The value of a sequence of decimal digits.
pub open spec fn digits_value(s: Seq<u8>) -> int
    decreases s.len(),
{
    if s.len() == 0 {
        0
    } else {
        10 * digits_value(s.drop_last()) + (s.last() - 48)
    }
}

/// A non-empty run of decimal digits.
pub open spec fn is_digits(s: Seq<u8>) -> bool {
    s.len() > 0 && forall|i: int| 0 <= i < s.len() ==> is_digit(#[trigger] s[i])
}

/// A signed decimal integer (an optional `-`, then digits) that fits in an `i32`.
pub open spec fn parse_score(s: Seq<u8>) -> Option<int> {
    let neg = s.len() > 0 && s[0] == 45;
    let digits = if neg { s.drop_first() } else { s };
    let v = if neg { -digits_value(digits) } else { digits_value(digits) };
    if is_digits(digits) && i32::MIN <= v <= i32::MAX {
        Some(v)
    } else {
        None
    }
}

/// A non-empty line `word<TAB>score` read as an entry.
pub open spec fn parse_line(l: Seq<u8>) -> Option<(Seq<u8>, int)> {
    let t = first_index_of(l, TAB);
    if t < l.len() {
        match parse_score(l.skip(t + 1)) {
            Some(v) => Some((l.take(t), v)),
            None => None,
        }
    } else {
        None
    }
}

/// The entries of the non-empty lines among `lines`, in order; `None` if one of them is
/// malformed.
pub open spec fn parse_lines(lines: Seq<Seq<u8>>) -> Option<Seq<(Seq<u8>, int)>>
    decreases lines.len(),
{
    if lines.len() == 0 {
        Some(Seq::empty())
    } else {
        match parse_lines(lines.drop_last()) {
            None => None,
            Some(prev) => if lines.last().len() == 0 {
                Some(prev)
            } else {
                match parse_line(lines.last()) {
                    Some(e) => Some(prev.push(e)),
                    None => None,
                }
            },
        }
    }
}

/// The view of an entry: its spelling and its score.
pub open spec fn entry_view(e: Entry) -> (Seq<u8>, int) {
    (e.word@, e.score as int)
}

/// The views of a list of entries.
pub open spec fn entries_view(es: Seq<Entry>) -> Seq<(Seq<u8>, int)> {
    es.map_values(|e: Entry| entry_view(e))
}

proof fn lemma_digits_value_step(s: Seq<u8>, b: u8)
    ensures
        digits_value(s.push(b)) == 10 * digits_value(s) + (b - 48),
{
    assert(s.push(b).drop_last() =~= s);
}

proof fn lemma_digits_value_grows(s: Seq<u8>, k: int)
    requires
        0 <= k <= s.len(),
        forall|i: int| 0 <= i < s.len() ==> is_digit(#[trigger] s[i]),
    ensures
        digits_value(s) >= digits_value(s.take(k)) >= 0,
    decreases s.len(),
{
    if s.len() > 0 {
        if k == s.len() {
            assert(s.take(k) =~= s);
            lemma_digits_value_grows(s.drop_last(), s.len() - 1);
            assert(s.drop_last().take(s.len() - 1) =~= s.drop_last());
        } else {
            lemma_digits_value_grows(s.drop_last(), k);
            assert(s.drop_last().take(k) =~= s.take(k));
        }
    }
}

/// Reads a score field: an optional `-` and decimal digits, in the range of `i32`.
pub fn parse_score_field(s: &[u8]) -> (r: Option<i32>)
    ensures
        match parse_score(s@) {
            Some(v) => r == Some(v as i32),
            None => r.is_none(),
        },
{
    let neg = s.len() > 0 && s[0] == 45;
    let start: usize = if neg { 1 } else { 0 };
    let ghost digits = if neg { s@.drop_first() } else { s@ };
    if start >= s.len() {
        return None;
    }
    assert(digits =~= s@.skip(start as int));
    let limit: i64 = 2147483648;
    let mut v: i64 = 0;
    let mut k: usize = start;
    while k < s.len()
        invariant
            start <= k <= s.len(),
            start < s.len(),
            digits == s@.skip(start as int),
            neg == (s@.len() > 0 && s@[0] == 45),
            digits == (if neg { s@.drop_first() } else { s@ }),
            limit == 2147483648,
            0 <= v <= limit,
            v == digits_value(digits.take(k - start)),
            forall|i: int| 0 <= i < k - start ==> is_digit(#[trigger] digits[i]),
        decreases s.len() - k,
    {
        let b = s[k];
        if b < 48 || b > 57 {
            assert(!is_digit(digits[k - start]));
            return None;
        }
        proof {
            assert(digits.take(k + 1 - start) =~= digits.take(k - start).push(b));
            lemma_digits_value_step(digits.take(k - start), b);
        }
        let d: i64 = (b - 48) as i64;
        let t: i64 = v * 10;
        v = t + d;
        k += 1;
        if v > limit {
            proof {
                if is_digits(digits) {
                    lemma_digits_value_grows(digits, k - start);
                }
            }
            return None;
        }
    }
    assert(digits.take(k - start) =~= digits);
    if neg {
        Some((-v) as i32)
    } else if v > 2147483647 {
        None
    } else {
        Some(v as i32)
    }
}

/// Position of the first `b` in `s`, or the length of `s` if there is none.
pub fn find_byte(s: &[u8], b: u8) -> (r: usize)
    ensures
        r == first_index_of(s@, b),
        r <= s@.len(),
{
    let mut k: usize = 0;
    assert(s@.skip(0) =~= s@);
    while k < s.len()
        invariant
            k <= s.len(),
            first_index_of(s@, b) == k + first_index_of(s@.skip(k as int), b),
        decreases s.len() - k,
    {
        assert(s@.skip(k as int).drop_first() =~= s@.skip(k + 1));
        if s[k] == b {
            return k;
        }
        k += 1;
    }
    k
}

/// Reads one non-empty line `word<TAB>score`.
pub fn parse_entry(line: &[u8]) -> (r: Option<Entry>)
    ensures
        match parse_line(line@) {
            Some(e) => r is Some && entry_view(r->0) == e,
            None => r is None,
        },
{
    let t = find_byte(line, TAB);
    if t >= line.len() {
        return None;
    }
    let word = slice_to_vec(slice_subrange(line, 0, t));
    let rest = slice_subrange(line, t + 1, line.len());
    assert(rest@ =~= line@.skip(t + 1));
    assert(word@ =~= line@.take(t as int));
    match parse_score_field(rest) {
        Some(score) => Some(Entry { word, score }),
        None => None,
    }
}

/// Reads the whole dictionary text: every non-empty line must be `word<TAB>score`.
pub fn parse_dictionary(text: &[u8]) -> (r: Result<Vec<Entry>, ParseError>)
    ensures
        match r {
            Ok(es) => parse_lines(split_lines(text@)) == Some(entries_view(es@)),
            Err(ParseError::MalformedLine(n)) => {
                &&& n < split_lines(text@).len()
                &&& parse_lines(split_lines(text@).take(n as int)) is Some
                &&& parse_lines(split_lines(text@).take(n + 1)) is None
            },
        },
{
    let mut entries: Vec<Entry> = Vec::new();
    let mut error: Option<usize> = None;
    let mut line_no: usize = 0;
    let mut start: usize = 0;
    let mut k: usize = 0;
    let mut finished = false;
    let ghost mut done: Seq<Seq<u8>> = Seq::empty();
    assert(text@.take(0) =~= Seq::<u8>::empty());
    assert(text@.subrange(0, 0) =~= Seq::<u8>::empty());
    assert(split_lines(Seq::<u8>::empty()) =~= seq![Seq::<u8>::empty()]);
    while !finished
        invariant
            start <= k <= text.len(),
            line_no <= k,
            !finished ==> line_no == done.len(),
            finished ==> done.len() == line_no + 1,
            !finished ==> split_lines(text@.take(k as int)) == done.push(
                text@.subrange(start as int, k as int),
            ),
            finished ==> split_lines(text@) == done,
            error is None ==> parse_lines(done) == Some(entries_view(entries@)),
            error matches Some(n) ==> n < done.len() && parse_lines(done.take(n as int)) is Some
                && parse_lines(done.take(n + 1)) is None && parse_lines(done) is None,
        decreases text.len() - k + (if finished { 0int } else { 1int }),
    {
        if k == text.len() || text[k] == NEWLINE {
            let line = slice_subrange(text, start, k);
            let ghost prev_done = done;
            proof {
                if k < text.len() {
                    assert(text@.take(k + 1).drop_last() =~= text@.take(k as int));
                } else {
                    assert(text@.take(k as int) =~= text@);
                }
                done = done.push(line@);
                assert(done.drop_last() =~= prev_done);
                assert(done.take(line_no as int) =~= prev_done);
                if let Some(n) = error {
                    assert(done.take(n as int) =~= prev_done.take(n as int));
                    assert(done.take(n + 1) =~= prev_done.take(n + 1));
                }
            }
            if error.is_none() && line.len() > 0 {
                match parse_entry(line) {
                    Some(e) => {
                        let ghost old_entries = entries@;
                        let ghost ev = entry_view(e);
                        entries.push(e);
                        assert(entries_view(entries@) =~= entries_view(old_entries).push(ev));
                    },
                    None => {
                        error = Some(line_no);
                        assert(done.take(line_no + 1) =~= done);
                    },
                }
            }
            if k == text.len() {
                finished = true;
            } else {
                line_no += 1;
                k += 1;
                start = k;
                proof {
                    assert(text@.subrange(start as int, k as int) =~= Seq::<u8>::empty());
                }
            }
        } else {
            proof {
                assert(text@.take(k + 1).drop_last() =~= text@.take(k as int));
                assert(text@.subrange(start as int, k + 1) =~= text@.subrange(start as int, k as int).push(text@[k as int]));
            }
            k += 1;
        }
    }
    match error {
        Some(n) => Err(ParseError::MalformedLine(n)),
        None => Ok(entries),
    }
}

/// The dictionary keeps entry `e` for a query: the word has at least `min_length` letters,
/// all of them lowercase and all in the bag, and it is not one of the excluded words.
pub open spec fn keeps(e: (Seq<u8>, int), bag: Multiset<u8>, min_length: usize, excludes: Seq<Seq<char>>) -> bool {
    &&& e.0.len() >= min_length
    &&& all_letters(e.0)
    &&& e.0.to_multiset().subset_of(bag)
    &&& !excludes.contains(bytes_as_chars(e.0))
}

/// The positions of the entries that are kept, in dictionary order.
pub open spec fn selected(
    es: Seq<(Seq<u8>, int)>,
    bag: Multiset<u8>,
    min_length: usize,
    excludes: Seq<Seq<char>>,
) -> Seq<usize>
    decreases es.len(),
{
    if es.len() == 0 {
        Seq::empty()
    } else {
        let prev = selected(es.drop_last(), bag, min_length, excludes);
        if keeps(es.last(), bag, min_length, excludes) {
            prev.push((es.len() - 1) as usize)
        } else {
            prev
        }
    }
}

/// Whether the string spells the word, one character per byte.
pub fn same_spelling(word: &[u8], s: &str) -> (r: bool)
    ensures
        r == (s@ == bytes_as_chars(word@)),
{
    let n = s.unicode_len();
    if n != word.len() {
        return false;
    }
    let mut k: usize = 0;
    while k < n
        invariant
            k <= n,
            n == s@.len(),
            n == word@.len(),
            forall|i: int| 0 <= i < k ==> #[trigger] s@[i] == word@[i] as char,
        decreases n - k,
    {
        if s.get_char(k) != word[k] as char {
            assert(s@[k as int] != bytes_as_chars(word@)[k as int]);
            return false;
        }
        k += 1;
    }
    assert(s@ =~= bytes_as_chars(word@));
    true
}

/// Whether the word is one of `excludes`.
pub fn is_excluded(word: &[u8], excludes: &Vec<String>) -> (r: bool)
    ensures
        r == strings_view(excludes@).contains(bytes_as_chars(word@)),
{
    let mut i: usize = 0;
    while i < excludes.len()
        invariant
            i <= excludes@.len(),
            forall|x: int| 0 <= x < i ==> excludes@[x]@ != bytes_as_chars(word@),
        decreases excludes@.len() - i,
    {
        if same_spelling(word, excludes[i].as_str()) {
            assert(strings_view(excludes@)[i as int] == bytes_as_chars(word@));
            return true;
        }
        i += 1;
    }
    proof {
        if strings_view(excludes@).contains(bytes_as_chars(word@)) {
            let x = choose|x: int| 0 <= x < excludes@.len() && strings_view(excludes@)[x] == bytes_as_chars(word@);
            assert(excludes@[x]@ == bytes_as_chars(word@));
        }
    }
    false
}

/// The positions, among the first `top_n` entries, of the words that the query keeps.
pub fn select_candidates(
    entries: &Vec<Entry>,
    top_n: usize,
    bag_counter: &Vec<usize>,
    min_length: usize,
    excludes: &Vec<String>,
) -> (r: Vec<usize>)
    requires
        bag_counter@.len() == ALPHA_SIZE,
    ensures
        forall|bag: Multiset<u8>|
            #![trigger counts_bag(bag_counter@, bag)]
            counts_bag(bag_counter@, bag) && letter_bag(bag) ==> r@ == selected(
                entries_view(entries@).take(
                    if top_n < entries@.len() {
                        top_n as int
                    } else {
                        entries@.len() as int
                    },
                ),
                bag,
                min_length,
                strings_view(excludes@),
            ),
{
    let limit = if top_n < entries.len() {
        top_n
    } else {
        entries.len()
    };
    let ghost es = entries_view(entries@);
    let mut r: Vec<usize> = Vec::new();
    let mut i: usize = 0;
    while i < limit
        invariant
            i <= limit <= entries@.len(),
            es == entries_view(entries@),
            bag_counter@.len() == ALPHA_SIZE,
            forall|bag: Multiset<u8>|
                #![trigger counts_bag(bag_counter@, bag)]
                counts_bag(bag_counter@, bag) && letter_bag(bag) ==> r@ == selected(
                    es.take(i as int),
                    bag,
                    min_length,
                    strings_view(excludes@),
                ),
        decreases limit - i,
    {
        let word = entries[i].word.as_slice();
        let mut keep = word.len() >= min_length && is_lowercase_word(word);
        let ghost fits = false;
        if keep {
            let wc = to_counter(word);
            let fits_now = counter_contains(bag_counter, &wc);
            proof {
                assert forall|bag: Multiset<u8>| #![trigger counts_bag(bag_counter@, bag)]
                    counts_bag(bag_counter@, bag) && letter_bag(bag) implies
                    (fits_now == word@.to_multiset().subset_of(bag)) by {
                    let wm = word@.to_multiset();
                    if fits_now {
                        assert forall|v: u8| wm.count(v) <= bag.count(v) by {
                            if is_letter(v) {
                                let x = v - 97;
                                assert(letter_of(x) == v);
                                assert(wc@[x] <= bag_counter@[x]);
                            } else {
                                lemma_no_other_bytes(word@, v);
                            }
                        }
                    } else {
                        let x = choose|x: int| 0 <= x < 26 && !(wc@[x] <= bag_counter@[x]);
                        assert(wm.count(letter_of(x)) > bag.count(letter_of(x)));
                    }
                }
            }
            keep = fits_now && !is_excluded(word, excludes);
        }
        proof {
            assert(es.take(i + 1).drop_last() =~= es.take(i as int));
            assert(es.take(i + 1).last() == entry_view(entries@[i as int]));
            assert(es.take(i + 1).len() - 1 == i);
        }
        if keep {
            r.push(i);
        }
        i += 1;
    }
    proof {
        assert(es.take(limit as int) =~= es.take(
            if top_n < entries@.len() {
                top_n as int
            } else {
                entries@.len() as int
            },
        ));
    }
    r
}

/// Every selected position names a kept entry, and positions rise.
pub proof fn lemma_selected_keeps(
    es: Seq<(Seq<u8>, int)>,
    bag: Multiset<u8>,
    min_length: usize,
    excludes: Seq<Seq<char>>,
)
    requires
        es.len() <= usize::MAX,
    ensures
        forall|i: int|
            0 <= i < selected(es, bag, min_length, excludes).len() ==> {
                let p = #[trigger] selected(es, bag, min_length, excludes)[i];
                p < es.len() && keeps(es[p as int], bag, min_length, excludes)
            },
    decreases es.len(),
{
    if es.len() > 0 {
        lemma_selected_keeps(es.drop_last(), bag, min_length, excludes);
        let prev = selected(es.drop_last(), bag, min_length, excludes);
        let cur = selected(es, bag, min_length, excludes);
        assert forall|i: int| 0 <= i < cur.len() implies {
            let p = #[trigger] cur[i];
            p < es.len() && keeps(es[p as int], bag, min_length, excludes)
        } by {
            if i < prev.len() {
                assert(cur[i] == prev[i]);
                assert(prev[i] < es.drop_last().len());
                assert(es.drop_last()[prev[i] as int] == es[prev[i] as int]);
            } else {
                assert(keeps(es.last(), bag, min_length, excludes));
                assert(cur == prev.push((es.len() - 1) as usize));
                assert(cur[i] == es.len() - 1);
            }
        }
    }
}

/// No more positions are selected than there are entries.
pub proof fn lemma_selected_len(
    es: Seq<(Seq<u8>, int)>,
    bag: Multiset<u8>,
    min_length: usize,
    excludes: Seq<Seq<char>>,
)
    ensures
        selected(es, bag, min_length, excludes).len() <= es.len(),
    decreases es.len(),
{
    if es.len() > 0 {
        lemma_selected_len(es.drop_last(), bag, min_length, excludes);
    }
}

} // verus!
