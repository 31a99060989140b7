use agar_man::alphabet::{letter_slots, slot_order, word_fingerprint, letter_primes};
use agar_man::letter_trie::{compare_char_array, process_line};
use agar_man::letters::{
    add_counters, contained, counter_contains, filter_line, subtract_counters, to_char, to_counter,
    to_index,
};
use agar_man::normalize::normalize_seed;
use agar_man::solver::join_bytes;
use agar_man::trie_solve;

#[test]
fn letter_positions() {
    assert_eq!(to_index(b'a'), 0);
    assert_eq!(to_index(b'z'), 25);
    assert_eq!(to_char(0), b'a');
    assert_eq!(to_char(25), b'z');
}

#[test]
fn counters_count_letters() {
    let c = to_counter(b"banana");
    assert_eq!(c[0], 3);
    assert_eq!(c[1], 1);
    assert_eq!(c[13], 2);
    assert_eq!(c.iter().sum::<usize>(), 6);
}

#[test]
fn counter_arithmetic() {
    let mut a = to_counter(b"banana");
    let b = to_counter(b"nab");
    assert!(counter_contains(&a, &b));
    assert!(!counter_contains(&b, &a));
    subtract_counters(&mut a, &b);
    assert_eq!(a, to_counter(b"aan"));
    add_counters(&mut a, &b);
    assert_eq!(a, to_counter(b"banana"));
}

#[test]
fn containment_of_words() {
    assert!(contained(b"nab", b"banana"));
    assert!(!contained(b"bbn", b"banana"));
    assert!(!contained(b"Nab", b"banana"));
    assert!(!contained(b"n4b", b"banana"));
    assert!(contained(b"", b"banana"));
    assert!(filter_line(b"ban", b"banana", 3));
    assert!(!filter_line(b"ban", b"banana", 4));
}

#[test]
fn seeds_are_normalized() {
    assert_eq!(normalize_seed("Hello, World 42!"), b"helloworld".to_vec());
    assert_eq!(normalize_seed(""), Vec::<u8>::new());
    assert_eq!(normalize_seed("éa"), b"a".to_vec());
}

#[test]
fn lines_are_lowercased() {
    assert_eq!(process_line("Listen"), Some(b"listen".to_vec()));
    assert_eq!(process_line("don't"), None);
}

#[test]
fn compare_on_common_prefix() {
    assert!(compare_char_array(&b"abc".to_vec(), &b"abd".to_vec()));
    assert!(!compare_char_array(&b"abd".to_vec(), &b"abc".to_vec()));
    assert!(!compare_char_array(&b"ab".to_vec(), &b"abc".to_vec()));
    assert!(!compare_char_array(&Vec::new(), &b"a".to_vec()));
}

#[test]
fn slots_follow_frequency() {
    let mut freq = vec![0usize; 26];
    freq[4] = 9;
    freq[0] = 5;
    freq[19] = 5;
    let slot = letter_slots(&freq);
    assert_eq!(slot[4], 0);
    assert_eq!(slot[0], 1);
    assert_eq!(slot[19], 2);
    assert_eq!(slot[1], 3);
    assert_eq!(slot[25], 25);
    let order = slot_order(&freq, &slot);
    assert_eq!(order[0], 4);
    assert_eq!(order[1], 0);
    assert_eq!(order[2], 19);
    let primes = letter_primes(&slot);
    assert_eq!(primes[4], 2);
    assert_eq!(primes[0], 3);
    assert_eq!(primes[19], 5);
    assert_eq!(word_fingerprint(b"eat", &primes), Some(30));
    assert_eq!(word_fingerprint(b"tea", &primes), Some(30));
}

#[test]
fn words_join_with_spaces() {
    let ws = vec![b"dirty".to_vec(), b"room".to_vec()];
    assert_eq!(join_bytes(&ws), b"dirty room".to_vec());
    assert_eq!(join_bytes(&Vec::new()), Vec::<u8>::new());
}

#[test]
fn trie_variant_finds_anagrams() {
    let lines: Vec<String> = ["Listen", "silent", "in", "lest", "tinsel", "nets", "li", "zebra", "don't"]
        .iter()
        .map(|s| s.to_string())
        .collect();
    let (anagrams, kept) = trie_solve(&lines, "Lis ten", 2, &vec!["tinsel".to_string()]);
    assert_eq!(kept, vec!["listen", "silent", "in", "lest", "nets", "li"]);
    assert!(anagrams.contains(&"listen".to_string()));
    assert!(anagrams.contains(&"silent".to_string()));
    assert!(anagrams.contains(&"in|lest".to_string()));
    assert!(!anagrams.iter().any(|a| a.contains("tinsel")));
    for a in &anagrams {
        let mut letters: Vec<char> = a.chars().filter(|c| *c != '|').collect();
        letters.sort();
        assert_eq!(letters, vec!['e', 'i', 'l', 'n', 's', 't']);
    }
}

#[test]
fn generate_uses_the_fixed_seed() {
    let lines: Vec<String> = ["Misunderstanding", "admiring", "stunned", "dining", "mustards", "sing"]
        .iter()
        .map(|s| s.to_string())
        .collect();
    let anagrams = agar_man::generate(&lines);
    assert!(anagrams.contains(&"misunderstanding".to_string()));
    for a in &anagrams {
        let mut letters: Vec<char> = a.chars().filter(|c| *c != '|').collect();
        letters.sort();
        let mut expected: Vec<char> = "misunderstanding".chars().collect();
        expected.sort();
        assert_eq!(letters, expected);
        assert!(a.split('|').all(|w| w.len() >= 5));
    }
}
