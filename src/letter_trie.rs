//! The single-trie variant: dictionary words stored letter by letter in a trie, and
//! anagrams found by walking it, starting again at the root after each complete word.
use crate::letters::{all_letters, is_letter, letter_of, to_index, ALPHA_SIZE};
use crate::dictionary::is_excluded;
use crate::letters::{contained, is_sub_bag, to_counter};
use crate::normalize::{bytes_as_chars, is_ascii_alpha, letter_bag, normalize, normalize_seed, strings_view};
use crate::solver::ascii_string;
use vstd::string::StrSliceExecFns;
use crate::search::{counter_total, lemma_total_nonneg};
use vstd::multiset::Multiset;
use vstd::prelude::*;
use vstd::slice::slice_to_vec;

verus! {

broadcast use vstd::seq_lib::group_to_multiset_ensures;

/// The byte written between two words of an answer.
pub const WORD_BREAK: u8 = 124;

/// One node: whether a word ends here, and the edges to its children as
/// `(letter, node index)` pairs.
pub struct LetterNode {
    pub end_of_word: bool,
    pub children: Vec<(u8, usize)>,
    /// The letters on the path from the root to this node.
    pub prefix: Ghost<Seq<u8>>,
}

/// A letter trie, its nodes held in one vector; node 0 is the root.
pub struct Trie {
    pub nodes: Vec<LetterNode>,
    /// The words inserted so far.
    pub words: Ghost<Set<Seq<u8>>>,
}

/// The words joined by the word break.
pub open spec fn join_breaks(ws: Seq<Seq<u8>>) -> Seq<u8>
    decreases ws.len(),
{
    if ws.len() == 0 {
        Seq::empty()
    } else if ws.len() == 1 {
        ws[0]
    } else {
        join_breaks(ws.drop_last()) + seq![WORD_BREAK] + ws.last()
    }
}

/// `r` is an anagram of the bag `bag` made of words of `dict`: the words joined by word
/// breaks, together holding exactly the letters of the bag.
pub open spec fn is_trie_anagram(r: Seq<u8>, dict: Set<Seq<u8>>, bag: Multiset<u8>) -> bool {
    exists|ws: Seq<Seq<u8>>|
        #![trigger join_breaks(ws)]
        (forall|i: int| 0 <= i < ws.len() ==> dict.contains(#[trigger] ws[i])) && r == join_breaks(ws)
            && ws.flatten().to_multiset() == bag
}

impl Trie {
    /// The letters from the root to node `n`.
    pub open spec fn prefix_of(&self, n: int) -> Seq<u8> {
        self.nodes@[n].prefix@
    }

    /// Node `n` is well formed: each child extends its path by the edge's letter, and a
    /// word that ends here is one of the inserted words.
    pub open spec fn node_wf(&self, n: int) -> bool {
        let node = self.nodes@[n];
        &&& all_letters(node.prefix@)
        &&& forall|e: int|
            0 <= e < node.children@.len() ==> {
                let (c, m) = #[trigger] node.children@[e];
                &&& is_letter(c)
                &&& 0 < m < self.nodes@.len()
                &&& self.prefix_of(m as int) == node.prefix@.push(c)
            }
        &&& node.end_of_word ==> self.words@.contains(node.prefix@) && node.prefix@.len() > 0
    }

    /// The trie is well formed: the root has the empty path and every node is well formed.
    pub open spec fn wf(&self) -> bool {
        &&& self.nodes@.len() >= 1
        &&& self.prefix_of(0) == Seq::<u8>::empty()
        &&& forall|n: int| 0 <= n < self.nodes@.len() ==> #[trigger] self.node_wf(n)
    }

    /// An empty trie.
    pub fn new() -> (r: Trie)
        ensures
            r.wf(),
            r.words@ == Set::<Seq<u8>>::empty(),
    {
        let mut nodes: Vec<LetterNode> = Vec::new();
        nodes.push(LetterNode { end_of_word: false, children: Vec::new(), prefix: Ghost(Seq::empty()) });
        Trie { nodes, words: Ghost(Set::empty()) }
    }

    /// Inserts a non-empty word of lowercase letters; the trie stays as it is if it cannot
    /// grow.
    pub fn insert(&mut self, word: &[u8])
        requires
            old(self).wf(),
            all_letters(word@),
            word@.len() > 0,
        ensures
            final(self).wf(),
            final(self).words@ == old(self).words@.insert(word@) || (final(self).words@ == old(self).words@
                && final(self).nodes@.len() == usize::MAX),
    {
        let ghost old_words = self.words@;
        let mut cur: usize = 0;
        let mut k: usize = 0;
        while k < word.len()
            invariant
                self.wf(),
                self.words@ == old_words,
                old_words == old(self).words@,
                all_letters(word@),
                k <= word@.len(),
                cur < self.nodes@.len(),
                self.prefix_of(cur as int) == word@.take(k as int),
            decreases word@.len() - k,
        {
            let c = word[k];
            proof {
                assert(self.node_wf(cur as int));
                assert(word@.take(k + 1) =~= word@.take(k as int).push(c));
            }
            let mut e: usize = 0;
            let count = self.nodes[cur].children.len();
            while e < count && self.nodes[cur].children[e].0 != c
                invariant
                    self.wf(),
                    cur < self.nodes@.len(),
                    count == self.nodes@[cur as int].children@.len(),
                    e <= count,
                decreases count - e,
            {
                e += 1;
            }
            if e < count {
                let next = self.nodes[cur].children[e].1;
                proof {
                    assert(self.node_wf(cur as int));
                }
                cur = next;
            } else {
                if self.nodes.len() == usize::MAX {
                    return;
                }
                let m = self.nodes.len();
                let ghost p = self.prefix_of(cur as int).push(c);
                let ghost before = *self;
                self.nodes.push(LetterNode { end_of_word: false, children: Vec::new(), prefix: Ghost(p) });
                let end = self.nodes[cur].end_of_word;
                let mut children = slice_to_vec(self.nodes[cur].children.as_slice());
                children.push((c, m));
                let prefix = self.nodes[cur].prefix;
                self.nodes.set(cur, LetterNode { end_of_word: end, children, prefix });
                proof {
                    assert forall|n: int| 0 <= n < self.nodes@.len() implies #[trigger] self.node_wf(n) by {
                        if n < m {
                            assert(before.node_wf(n));
                            let ch = self.nodes@[n].children@;
                            assert forall|x: int| 0 <= x < ch.len() implies {
                                let (c2, m2) = #[trigger] ch[x];
                                &&& is_letter(c2)
                                &&& 0 < m2 < self.nodes@.len()
                                &&& self.prefix_of(m2 as int) == self.nodes@[n].prefix@.push(c2)
                            } by {
                                if n != cur || x < ch.len() - 1 {
                                    let (c2, m2) = ch[x];
                                    assert(before.nodes@[n].children@[x] == ch[x]);
                                    assert(before.prefix_of(m2 as int) == self.prefix_of(m2 as int));
                                }
                            }
                        } else {
                            assert(all_letters(p));
                        }
                    }
                }
                cur = m;
            }
            k += 1;
        }
        proof {
            assert(word@.take(k as int) =~= word@);
        }
        let children = slice_to_vec(self.nodes[cur].children.as_slice());
        let prefix = self.nodes[cur].prefix;
        let ghost before = *self;
        self.nodes.set(cur, LetterNode { end_of_word: true, children, prefix });
        self.words = Ghost(self.words@.insert(word@));
        proof {
            assert forall|n: int| 0 <= n < self.nodes@.len() implies #[trigger] self.node_wf(n) by {
                assert(before.node_wf(n));
                let ch = self.nodes@[n].children@;
                assert forall|x: int| 0 <= x < ch.len() implies {
                    let (c2, m2) = #[trigger] ch[x];
                    &&& is_letter(c2)
                    &&& 0 < m2 < self.nodes@.len()
                    &&& self.prefix_of(m2 as int) == self.nodes@[n].prefix@.push(c2)
                } by {
                    let (c2, m2) = ch[x];
                    assert(before.prefix_of(m2 as int) == self.prefix_of(m2 as int));
                }
            }
        }
    }
}

/// `a` comes before `b` at the first position where they differ, among the positions that
/// both have.
pub open spec fn differs_lower(a: Seq<u8>, b: Seq<u8>) -> bool {
    exists|i: int|
        0 <= i < a.len() && i < b.len() && #[trigger] a[i] < b[i] && forall|j: int|
            0 <= j < i ==> #[trigger] a[j] == b[j]
}

/// Whether `a` comes before `b` at the first position where they differ, among the
/// positions that both have.
pub fn compare_char_array(a: &Vec<u8>, b: &Vec<u8>) -> (r: bool)
    ensures
        r == differs_lower(a@, b@),
{
    let n = if a.len() < b.len() {
        a.len()
    } else {
        b.len()
    };
    let mut i: usize = 0;
    while i < n
        invariant
            i <= n,
            n <= a@.len(),
            n <= b@.len(),
            n == a@.len() || n == b@.len(),
            forall|j: int| 0 <= j < i ==> #[trigger] a@[j] == b@[j],
        decreases n - i,
    {
        if a[i] < b[i] {
            return true;
        } else if a[i] > b[i] {
            proof {
                if differs_lower(a@, b@) {
                    let k = choose|k: int|
                        0 <= k < a@.len() && k < b@.len() && #[trigger] a@[k] < b@[k] && forall|j: int|
                            0 <= j < k ==> #[trigger] a@[j] == b@[j];
                    if k < i {
                        assert(a@[k] == b@[k]);
                    } else if k > i {
                        assert(a@[i as int] == b@[i as int]);
                    }
                }
            }
            return false;
        }
        i += 1;
    }
    proof {
        if differs_lower(a@, b@) {
            let k = choose|k: int|
                0 <= k < a@.len() && k < b@.len() && #[trigger] a@[k] < b@[k] && forall|j: int|
                    0 <= j < k ==> #[trigger] a@[j] == b@[j];
            assert(a@[k] == b@[k]);
        }
    }
    false
}

proof fn lemma_join_breaks_extend(ws: Seq<Seq<u8>>, x: Seq<u8>, c: u8)
    ensures
        join_breaks(ws.push(x.push(c))) == join_breaks(ws.push(x)).push(c),
{
    assert(ws.push(x.push(c)).drop_last() =~= ws);
    assert(ws.push(x).drop_last() =~= ws);
    if ws.len() == 0 {
        assert(ws.push(x.push(c))[0] == x.push(c));
    } else {
        assert(join_breaks(ws.push(x.push(c))) =~= join_breaks(ws) + seq![WORD_BREAK] + x.push(c));
    }
}

proof fn lemma_join_breaks_restart(ws: Seq<Seq<u8>>)
    requires
        ws.len() >= 1,
    ensures
        join_breaks(ws.push(Seq::empty())) == join_breaks(ws).push(WORD_BREAK),
{
    assert(ws.push(Seq::<u8>::empty()).drop_last() =~= ws);
    assert(join_breaks(ws.push(Seq::empty())) =~= join_breaks(ws) + seq![WORD_BREAK] + Seq::<u8>::empty());
}

proof fn lemma_flatten_letters(ws: Seq<Seq<u8>>)
    requires
        forall|i: int| 0 <= i < ws.len() ==> all_letters(#[trigger] ws[i]),
    ensures
        all_letters(ws.flatten()),
    decreases ws.len(),
{
    if ws.len() > 0 {
        let d = ws.drop_first();
        assert forall|i: int| 0 <= i < d.len() implies all_letters(#[trigger] d[i]) by {
            assert(d[i] == ws[i + 1]);
        }
        lemma_flatten_letters(d);
        assert(all_letters(ws[0]));
        let f = ws.flatten();
        assert(f == ws[0] + d.flatten());
        assert forall|i: int| 0 <= i < f.len() implies is_letter(#[trigger] f[i]) by {
            if i < ws[0].len() {
                assert(f[i] == ws[0][i]);
            } else {
                assert(f[i] == d.flatten()[i - ws[0].len()]);
            }
        }
    }
}

impl Trie {
    /// Walks the trie from node `n`, whose letters are the word under way `current`: at the
    /// end of a word it records an answer when no letter of the seed is left, and starts a
    /// next word at the root; it descends into each child whose letter the seed still
    /// holds, unless the word under way has fallen below the previous word.
    pub fn anagram_recursive(
        &self,
        n: usize,
        seed: &mut Vec<usize>,
        path: &mut Vec<u8>,
        current: &mut Vec<u8>,
        previous: &mut Vec<u8>,
        results: &mut Vec<Vec<u8>>,
        done: Ghost<Seq<Seq<u8>>>,
        bag: Ghost<Multiset<u8>>,
    )
        requires
            self.wf(),
            n < self.nodes@.len(),
            old(current)@ == self.prefix_of(n as int),
            old(seed)@.len() == ALPHA_SIZE,
            old(path)@ == join_breaks(done@.push(old(current)@)),
            forall|i: int| 0 <= i < done@.len() ==> self.words@.contains(#[trigger] done@[i]),
            forall|i: int| 0 <= i < done@.len() ==> all_letters(#[trigger] done@[i]),
            letter_bag(bag@),
            forall|l: int|
                0 <= l < 26 ==> old(seed)@[l] + (done@.flatten() + old(current)@).to_multiset().count(
                    letter_of(l),
                ) == #[trigger] bag@.count(letter_of(l)),
        ensures
            final(seed)@ == old(seed)@,
            final(path)@ == old(path)@,
            final(current)@ == old(current)@,
            final(previous)@ == old(previous)@,
            final(results)@.len() >= old(results)@.len(),
            forall|i: int| 0 <= i < old(results)@.len() ==> #[trigger] final(results)@[i] == old(results)@[i],
            forall|i: int|
                old(results)@.len() <= i < final(results)@.len() ==> is_trie_anagram(
                    (#[trigger] final(results)@[i])@,
                    self.words@,
                    bag@,
                ),
        decreases counter_total(old(seed)@), (if n == 0 { 0int } else { 1int }),
    {
        let ghost seed0 = seed@;
        let ghost path0 = path@;
        let ghost cur0 = current@;
        let ghost prev0 = previous@;
        let ghost res0 = results@;
        proof {
            assert(self.node_wf(n as int));
        }
        if self.nodes[n].end_of_word {
            let ghost ws = done@.push(cur0);
            proof {
                assert(self.words@.contains(cur0));
                assert forall|i: int| 0 <= i < ws.len() implies all_letters(#[trigger] ws[i]) by {
                    if i == done@.len() {
                        assert(ws[i] == cur0);
                    }
                }
                assert(ws.flatten() =~= done@.flatten() + cur0) by {
                    done@.lemma_flatten_push(cur0);
                }
            }
            if is_zero_counter(seed) {
                let found = slice_to_vec(path.as_slice());
                proof {
                    lemma_flatten_letters(ws);
                    let m = ws.flatten().to_multiset();
                    assert forall|v: u8| m.count(v) == bag@.count(v) by {
                        if is_letter(v) {
                            let l = v - 97;
                            assert(letter_of(l) == v);
                            assert(seed0[l] == 0);
                        } else {
                            crate::letters::lemma_no_other_bytes(ws.flatten(), v);
                        }
                    }
                    assert(m =~= bag@);
                    assert forall|i: int| 0 <= i < ws.len() implies self.words@.contains(#[trigger] ws[i]) by {
                        if i == done@.len() {
                            assert(ws[i] == cur0);
                        }
                    }
                    assert(is_trie_anagram(found@, self.words@, bag@));
                }
                results.push(found);
            }
            let ghost res1 = results@;
            path.push(WORD_BREAK);
            let old_word = slice_to_vec(previous.as_slice());
            let moved = slice_to_vec(current.as_slice());
            *previous = moved;
            *current = Vec::new();
            proof {
                lemma_join_breaks_restart(ws);
                assert(self.node_wf(0));
                assert forall|i: int| 0 <= i < ws.len() implies self.words@.contains(#[trigger] ws[i]) by {
                    if i == done@.len() {
                        assert(ws[i] == cur0);
                    }
                }
                assert(ws.flatten() + current@ =~= ws.flatten());
                assert(current@ =~= Seq::<u8>::empty());
            }
            self.anagram_recursive(0, seed, path, current, previous, results, Ghost(ws), bag);
            path.pop();
            let back = slice_to_vec(previous.as_slice());
            *current = back;
            *previous = old_word;
            proof {
                assert(path@ =~= path0);
                assert forall|i: int| res0.len() <= i < results@.len() implies is_trie_anagram(
                    (#[trigger] results@[i])@,
                    self.words@,
                    bag@,
                ) by {
                    if i < res1.len() {
                        assert(results@[i] == res1[i]);
                    }
                }
            }
        }
        let ghost res2 = results@;
        let node = &self.nodes[n];
        let mut e: usize = 0;
        while e < node.children.len()
            invariant
                self.wf(),
                n < self.nodes@.len(),
                node == self.nodes@[n as int],
                self.node_wf(n as int),
                seed@ == seed0,
                seed0 == old(seed)@,
                path@ == path0,
                current@ == cur0,
                previous@ == prev0,
                seed0.len() == ALPHA_SIZE,
                forall|i: int| 0 <= i < done@.len() ==> self.words@.contains(#[trigger] done@[i]),
                forall|i: int| 0 <= i < done@.len() ==> all_letters(#[trigger] done@[i]),
                letter_bag(bag@),
                forall|l: int|
                    0 <= l < 26 ==> seed0[l] + (done@.flatten() + cur0).to_multiset().count(
                        letter_of(l),
                    ) == #[trigger] bag@.count(letter_of(l)),
                cur0 == self.prefix_of(n as int),
                path0 == join_breaks(done@.push(cur0)),
                results@.len() >= res0.len(),
                forall|i: int| 0 <= i < res0.len() ==> #[trigger] results@[i] == res0[i],
                forall|i: int|
                    res0.len() <= i < results@.len() ==> is_trie_anagram(
                        (#[trigger] results@[i])@,
                        self.words@,
                        bag@,
                    ),
            decreases node.children@.len() - e,
        {
            let (c, child) = node.children[e];
            let i = to_index(c);
            let count = seed[i];
            if count > 0 && !compare_char_array(current, previous) {
                seed.set(i, count - 1);
                path.push(c);
                current.push(c);
                let ghost res3 = results@;
                proof {
                    assert(self.node_wf(child as int));
                    lemma_join_breaks_extend(done@, cur0, c);
                    let before = done@.flatten() + cur0;
                    assert(done@.flatten() + current@ =~= before.push(c));
                    assert forall|l: int| 0 <= l < 26 implies seed@[l] + (done@.flatten() + current@).to_multiset().count(
                        letter_of(l),
                    ) == #[trigger] bag@.count(letter_of(l)) by {
                        assert((before.push(c)).to_multiset() =~= before.to_multiset().insert(c));
                        if l != i {
                            assert(letter_of(l) != c);
                        }
                    }
                    assert(seed@ == seed0.update(i as int, (count - 1) as usize));
                    lemma_total_update_down(seed0, i as int);
                    lemma_total_nonneg(seed@);
                    lemma_total_nonneg(seed0);
                    assert(counter_total(seed@) < counter_total(old(seed)@));
                }
                self.anagram_recursive(child, seed, path, current, previous, results, done, bag);
                seed.set(i, count);
                path.pop();
                current.pop();
                proof {
                    assert(seed@ =~= seed0);
                    assert(path@ =~= path0);
                    assert(current@ =~= cur0);
                    assert forall|x: int| res0.len() <= x < results@.len() implies is_trie_anagram(
                        (#[trigger] results@[x])@,
                        self.words@,
                        bag@,
                    ) by {
                        if x < res3.len() {
                            assert(results@[x] == res3[x]);
                        }
                    }
                }
            }
            e += 1;
        }
    }
}

proof fn lemma_total_update_down(c: Seq<usize>, x: int)
    requires
        0 <= x < c.len(),
        c[x] > 0,
    ensures
        counter_total(c.update(x, (c[x] - 1) as usize)) < counter_total(c),
    decreases c.len(),
{
    if x < c.len() - 1 {
        lemma_total_update_down(c.drop_last(), x);
        assert(c.update(x, (c[x] - 1) as usize).drop_last() =~= c.drop_last().update(x, (c[x] - 1) as usize));
    } else {
        assert(c.update(x, (c[x] - 1) as usize).drop_last() =~= c.drop_last());
    }
}

/// Whether every slot of the counter is zero.
pub fn is_zero_counter(c: &Vec<usize>) -> (r: bool)
    ensures
        r == forall|i: int| 0 <= i < c@.len() ==> #[trigger] c@[i] == 0,
{
    let mut i: usize = 0;
    while i < c.len()
        invariant
            i <= c@.len(),
            forall|j: int| 0 <= j < i ==> #[trigger] c@[j] == 0,
        decreases c@.len() - i,
    {
        if c[i] != 0 {
            return false;
        }
        i += 1;
    }
    true
}

/// A dictionary line lowercased, if it is made of ASCII letters only.
pub open spec fn lowered(line: Seq<char>) -> Option<Seq<u8>> {
    if forall|i: int| 0 <= i < line.len() ==> is_ascii_alpha(#[trigger] line[i]) {
        Some(normalize(line))
    } else {
        None
    }
}

/// A word that the single-trie variant keeps: non-empty, at least `min_length` letters,
/// made of the seed's letters, and not excluded.
pub open spec fn trie_keeps(w: Seq<u8>, seed: Seq<u8>, min_length: usize, excludes: Seq<Seq<char>>) -> bool {
    &&& w.len() >= min_length
    &&& w.len() > 0
    &&& is_sub_bag(w, seed)
    &&& !excludes.contains(bytes_as_chars(w))
}

/// The words that the single-trie variant keeps from `lines`.
pub open spec fn trie_dictionary(
    lines: Seq<Seq<char>>,
    seed: Seq<u8>,
    min_length: usize,
    excludes: Seq<Seq<char>>,
) -> Set<Seq<u8>> {
    Set::new(
        |w: Seq<u8>|
            exists|j: int|
                0 <= j < lines.len() && #[trigger] lowered(lines[j]) == Some(w) && trie_keeps(
                    w,
                    seed,
                    min_length,
                    excludes,
                ),
    )
}

/// The words that the single-trie variant keeps from `lines`, in order.
pub open spec fn trie_kept(
    lines: Seq<Seq<char>>,
    seed: Seq<u8>,
    min_length: usize,
    excludes: Seq<Seq<char>>,
) -> Seq<Seq<u8>>
    decreases lines.len(),
{
    if lines.len() == 0 {
        Seq::empty()
    } else {
        let prev = trie_kept(lines.drop_last(), seed, min_length, excludes);
        match lowered(lines.last()) {
            Some(w) => if trie_keeps(w, seed, min_length, excludes) {
                prev.push(w)
            } else {
                prev
            },
            None => prev,
        }
    }
}

/// `s` writes, one character per byte, an anagram of `bag` made of words of `dict`.
pub open spec fn shows_anagram(s: Seq<char>, dict: Set<Seq<u8>>, bag: Multiset<u8>) -> bool {
    exists|b: Seq<u8>| s == bytes_as_chars(b) && #[trigger] is_trie_anagram(b, dict, bag)
}

/// Lowercases a dictionary line; `None` if it holds anything but ASCII letters.
pub fn process_line(line: &str) -> (r: Option<Vec<u8>>)
    ensures
        match lowered(line@) {
            Some(w) => r is Some && r->0@ == w,
            None => r is None,
        },
{
    let n = line.unicode_len();
    let mut k: usize = 0;
    while k < n
        invariant
            k <= n,
            n == line@.len(),
            forall|i: int| 0 <= i < k ==> is_ascii_alpha(#[trigger] line@[i]),
        decreases n - k,
    {
        let c = line.get_char(k);
        if !(('a' <= c && c <= 'z') || ('A' <= c && c <= 'Z')) {
            return None;
        }
        k += 1;
    }
    Some(normalize_seed(line))
}

proof fn lemma_anagram_wider(r: Seq<u8>, small: Set<Seq<u8>>, big: Set<Seq<u8>>, bag: Multiset<u8>)
    requires
        is_trie_anagram(r, small, bag),
        small.subset_of(big),
    ensures
        is_trie_anagram(r, big, bag),
{
    let ws = choose|ws: Seq<Seq<u8>>|
        #![trigger join_breaks(ws)]
        (forall|i: int| 0 <= i < ws.len() ==> small.contains(#[trigger] ws[i])) && r == join_breaks(ws)
            && ws.flatten().to_multiset() == bag;
    assert(forall|i: int| 0 <= i < ws.len() ==> big.contains(#[trigger] ws[i]));
}

proof fn lemma_breaks_ascii(ws: Seq<Seq<u8>>)
    requires
        forall|i: int| 0 <= i < ws.len() ==> all_letters(#[trigger] ws[i]),
    ensures
        forall|x: int| 0 <= x < join_breaks(ws).len() ==> #[trigger] join_breaks(ws)[x] < 128,
    decreases ws.len(),
{
    if ws.len() == 1 {
        assert(all_letters(ws[0]));
    } else if ws.len() > 1 {
        let d = ws.drop_last();
        assert forall|i: int| 0 <= i < d.len() implies all_letters(#[trigger] d[i]) by {
            assert(d[i] == ws[i]);
        }
        lemma_breaks_ascii(d);
        let j = join_breaks(ws);
        let a = join_breaks(d);
        assert(all_letters(ws[ws.len() - 1]));
        assert forall|x: int| 0 <= x < j.len() implies #[trigger] j[x] < 128 by {
            if x < a.len() {
                assert(j[x] == a[x]);
            } else if x == a.len() {
                assert(j[x] == WORD_BREAK);
            } else {
                assert(j[x] == ws.last()[x - a.len() - 1]);
            }
        }
    }
}

/// Finds, with the single letter trie, the anagrams of `seed` (its letters, lowercased)
/// made of the words of `lines` that are at least `min_length` letters long and not in
/// `excludes`; each answer writes its words joined by `|`. Alongside, the kept words.
pub fn trie_solve(lines: &Vec<String>, seed: &str, min_length: usize, excludes: &Vec<String>) -> (r: (
    Vec<String>,
    Vec<String>,
))
    ensures
        forall|k: int|
            0 <= k < r.0@.len() ==> shows_anagram(
                (#[trigger] r.0@[k])@,
                trie_dictionary(strings_view(lines@), normalize(seed@), min_length, strings_view(excludes@)),
                normalize(seed@).to_multiset(),
            ),
        r.1@.len() == trie_kept(strings_view(lines@), normalize(seed@), min_length, strings_view(excludes@)).len(),
        forall|k: int|
            0 <= k < r.1@.len() ==> (#[trigger] r.1@[k])@ == bytes_as_chars(
                trie_kept(strings_view(lines@), normalize(seed@), min_length, strings_view(excludes@))[k],
            ),
{
    let letters = normalize_seed(seed);
    let ghost dict = trie_dictionary(strings_view(lines@), letters@, min_length, strings_view(excludes@));
    let mut trie = Trie::new();
    let mut kept: Vec<String> = Vec::new();
    let mut j: usize = 0;
    while j < lines.len()
        invariant
            j <= lines@.len(),
            all_letters(letters@),
            letters@ == normalize(seed@),
            dict == trie_dictionary(strings_view(lines@), letters@, min_length, strings_view(excludes@)),
            trie.wf(),
            trie.words@.subset_of(dict),
            kept@.len() == trie_kept(strings_view(lines@).take(j as int), letters@, min_length, strings_view(excludes@)).len(),
            forall|k: int| 0 <= k < kept@.len() ==> (#[trigger] kept@[k])@ == bytes_as_chars(
                trie_kept(strings_view(lines@).take(j as int), letters@, min_length, strings_view(excludes@))[k],
            ),
        decreases lines@.len() - j,
    {
        let ghost lv = strings_view(lines@);
        let ghost before = trie_kept(lv.take(j as int), letters@, min_length, strings_view(excludes@));
        proof {
            assert(lv.take(j + 1).drop_last() =~= lv.take(j as int));
            assert(lv.take(j + 1).last() == lines@[j as int]@);
        }
        match process_line(lines[j].as_str()) {
            Some(w) => {
                if w.len() >= min_length && w.len() > 0 && contained(w.as_slice(), letters.as_slice())
                    && !is_excluded(w.as_slice(), excludes) {
                    proof {
                        assert(strings_view(lines@)[j as int] == lines@[j as int]@);
                        assert(lowered(strings_view(lines@)[j as int]) == Some(w@));
                        assert(trie_keeps(w@, letters@, min_length, strings_view(excludes@)));
                        assert(dict.contains(w@));
                        assert forall|x: int| 0 <= x < w@.len() implies #[trigger] w@[x] < 128 by {
                            assert(is_letter(w@[x]));
                        }
                    }
                    trie.insert(w.as_slice());
                    let shown = slice_to_vec(w.as_slice());
                    kept.push(ascii_string(shown));
                    proof {
                        let after = trie_kept(lv.take(j + 1), letters@, min_length, strings_view(excludes@));
                        assert(after == before.push(w@));
                        assert forall|k: int| 0 <= k < kept@.len() implies (#[trigger] kept@[k])@ == bytes_as_chars(after[k]) by {
                            if k < kept@.len() - 1 {
                                assert(after[k] == before[k]);
                            }
                        }
                    }
                }
            },
            None => {},
        }
        j += 1;
    }
    proof {
        assert(strings_view(lines@).take(j as int) =~= strings_view(lines@));
    }
    let ghost kept_words = trie_kept(strings_view(lines@), letters@, min_length, strings_view(excludes@));
    let found = trie.anagram(&letters);
    let mut anagrams: Vec<String> = Vec::new();
    let mut k: usize = 0;
    while k < found.len()
        invariant
            k <= found@.len(),
            letters@ == normalize(seed@),
            trie.words@.subset_of(dict),
            dict == trie_dictionary(strings_view(lines@), letters@, min_length, strings_view(excludes@)),
            forall|x: int| 0 <= x < found@.len() ==> is_trie_anagram((#[trigger] found@[x])@, trie.words@, letters@.to_multiset()),
            forall|x: int| 0 <= x < found@.len() ==> forall|i: int| 0 <= i < (#[trigger] found@[x])@.len() ==> found@[x]@[i] < 128,
            anagrams@.len() == k,
            kept_words == trie_kept(strings_view(lines@), normalize(seed@), min_length, strings_view(excludes@)),
            kept@.len() == kept_words.len(),
            forall|x: int| 0 <= x < kept@.len() ==> (#[trigger] kept@[x])@ == bytes_as_chars(kept_words[x]),
            forall|x: int| 0 <= x < k ==> shows_anagram((#[trigger] anagrams@[x])@, dict, letters@.to_multiset()),
        decreases found@.len() - k,
    {
        let b = slice_to_vec(found[k].as_slice());
        proof {
            lemma_anagram_wider(b@, trie.words@, dict, letters@.to_multiset());
            assert forall|i: int| 0 <= i < b@.len() implies #[trigger] b@[i] < 128 by {
                assert(found@[k as int]@[i] < 128);
            }
        }
        let ghost bv = b@;
        anagrams.push(ascii_string(b));
        proof {
            assert forall|x: int| 0 <= x < anagrams@.len() implies shows_anagram((#[trigger] anagrams@[x])@, dict, letters@.to_multiset()) by {
                if x == anagrams@.len() - 1 {
                    assert(anagrams@[x]@ == bytes_as_chars(bv) && is_trie_anagram(bv, dict, letters@.to_multiset()));
                }
            }
        }
        k += 1;
    }
    (anagrams, kept)
}

impl Trie {
    /// The anagrams of the bag `seed` made of the trie's words, each written as its words
    /// joined by `|`.
    pub fn anagram(&self, seed: &Vec<u8>) -> (r: Vec<Vec<u8>>)
        requires
            self.wf(),
            all_letters(seed@),
            forall|w: Seq<u8>| #[trigger] self.words@.contains(w) ==> all_letters(w),
        ensures
            forall|x: int| 0 <= x < r@.len() ==> is_trie_anagram((#[trigger] r@[x])@, self.words@, seed@.to_multiset()),
            forall|x: int| 0 <= x < r@.len() ==> forall|i: int| 0 <= i < (#[trigger] r@[x])@.len() ==> r@[x]@[i] < 128,
    {
        let mut counter = to_counter(seed.as_slice());
        let mut results: Vec<Vec<u8>> = Vec::new();
        let mut path: Vec<u8> = Vec::new();
        let mut current: Vec<u8> = Vec::new();
        let mut previous: Vec<u8> = Vec::new();
        proof {
            assert(self.node_wf(0));
            let e = Seq::<Seq<u8>>::empty();
            assert(e.flatten() =~= Seq::<u8>::empty());
            assert(e.push(current@) =~= seq![Seq::<u8>::empty()]);
            assert(current@ =~= Seq::<u8>::empty());
            assert(join_breaks(seq![Seq::<u8>::empty()]) =~= Seq::<u8>::empty());
            assert(e.flatten() + current@ =~= Seq::<u8>::empty());
            assert forall|v: u8| !is_letter(v) implies #[trigger] seed@.to_multiset().count(v) == 0 by {
                crate::letters::lemma_no_other_bytes(seed@, v);
            }
        }
        self.anagram_recursive(0, &mut counter, &mut path, &mut current, &mut previous, &mut results, Ghost(Seq::empty()), Ghost(seed@.to_multiset()));
        proof {
            assert forall|x: int| 0 <= x < results@.len() implies forall|i: int| 0 <= i < (#[trigger] results@[x])@.len() ==> results@[x]@[i] < 128 by {
                assert(is_trie_anagram(results@[x]@, self.words@, seed@.to_multiset()));
                let ws = choose|ws: Seq<Seq<u8>>|
                    #![trigger join_breaks(ws)]
                    (forall|i: int| 0 <= i < ws.len() ==> self.words@.contains(#[trigger] ws[i])) && results@[x]@ == join_breaks(ws)
                        && ws.flatten().to_multiset() == seed@.to_multiset();
                assert forall|i: int| 0 <= i < ws.len() implies all_letters(#[trigger] ws[i]) by {
                    assert(self.words@.contains(ws[i]));
                }
                lemma_breaks_ascii(ws);
            }
        }
        results
    }
}

/// The anagrams of "misunderstanding" from `lines`, with words of five letters or more.
pub fn generate(lines: &Vec<String>) -> (r: Vec<String>)
    ensures
        forall|k: int|
            0 <= k < r@.len() ==> shows_anagram(
                (#[trigger] r@[k])@,
                trie_dictionary(strings_view(lines@), normalize("misunderstanding"@), 5, Seq::empty()),
                normalize("misunderstanding"@).to_multiset(),
            ),
{
    let excludes: Vec<String> = Vec::new();
    let (anagrams, _kept) = trie_solve(lines, "misunderstanding", 5, &excludes);
    proof {
        assert(strings_view(excludes@) =~= Seq::<Seq<char>>::empty());
    }
    anagrams
}

} // verus!
