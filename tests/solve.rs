use agar_man::{parse_dictionary, solve, Entry, ParseError, ResultsStruct, SolveError};

const WORDS: &str = "the and that have with this from they will would there their what about \
which when make like time just know take people into year your good some could them other \
than then look only come over think also back after work first well even want because these \
give most silent listen tinsel enlist inlets dirty room dormitory mortify dorm story tidy \
misunderstanding understanding standing dining mustard mustards admiring stunned sign sing guns \
sung dust stud mind minds dins unsaid daring during grind grinds rind stain satin saint train \
strain trains nudist nudists amid maid maids dream dreams sunder under nurse runes tuning \
dunning stung sting sanding durst must smut tram tsar star rats arts drums drum muds sadden \
sudden nudism sending tending mending minted dinner dinners tinder rusting ignited dusting dimes \
dens snide dines tends nets nest sent tens send ends dine mine nine inning mining log logic \
logics gel gels lol clog clogs leg legs lens vole voles love loves glove gloves clove cloves \
lingo lingos lines vice novel novels level song glen hello oleh hole helo he";

fn dictionary_text() -> String {
    let mut text = String::new();
    let mut score: i32 = 2000;
    for w in WORDS.split_whitespace() {
        text.push_str(&format!("{}\t{}\n", w, score));
        score -= 7;
    }
    text.push('\n');
    text
}

fn dictionary() -> Vec<Entry> {
    parse_dictionary(dictionary_text().as_bytes()).unwrap()
}

fn score_of(entries: &[Entry], w: &str) -> i64 {
    entries.iter().find(|e| e.word == w.as_bytes()).map(|e| e.score as i64).unwrap()
}

fn sorted_letters(s: &str) -> Vec<char> {
    let mut v: Vec<char> = s.chars().filter(|c| *c != ' ').collect();
    v.sort();
    v
}

fn run(seed: &str, min_length: usize, max_words: usize, excludes: &[&str], includes: &[&str]) -> ResultsStruct {
    let entries = dictionary();
    let ex: Vec<String> = excludes.iter().map(|s| s.to_string()).collect();
    let inc: Vec<String> = includes.iter().map(|s| s.to_string()).collect();
    solve(&entries, seed, min_length, max_words, &ex, &inc, 200000).unwrap()
}

fn mean(entries: &[Entry], answer: &str, skip: usize) -> f64 {
    let ws: Vec<&str> = answer.split(' ').skip(skip).collect();
    ws.iter().map(|w| score_of(entries, w)).sum::<i64>() as f64 / ws.len() as f64
}

#[test]
fn misunderstanding_has_ranked_answers() {
    let entries = dictionary();
    let r = run("misunderstanding", 4, 5, &[], &[]);
    assert!(!r.anagrams.is_empty());
    for a in &r.anagrams {
        assert_eq!(sorted_letters(a), sorted_letters("misunderstanding"));
        assert!(a.split(' ').count() <= 5);
        assert!(a.split(' ').all(|w| w.len() >= 4));
    }
    let best = mean(&entries, &r.anagrams[0], 0);
    for a in &r.anagrams {
        assert!(mean(&entries, a, 0) <= best);
    }
    assert!(r.anagrams.contains(&"misunderstanding".to_string()));
}

#[test]
fn listen_includes_silent() {
    let r = run("listen", 2, 2, &[], &[]);
    assert!(r.anagrams.contains(&"silent".to_string()));
    assert!(r.anagrams.contains(&"listen".to_string()));
}

#[test]
fn dormitory_two_words_need_a_short_word() {
    let r = run("dormitory", 5, 2, &[], &[]);
    assert!(r.anagrams.iter().all(|a| a.split(' ').count() == 1));
    assert!(r.anagrams.contains(&"dormitory".to_string()));
}

#[test]
fn dormitory_has_dirty_room() {
    let r = run("dormitory", 4, 2, &[], &[]);
    let two: Vec<&String> = r.anagrams.iter().filter(|a| a.split(' ').count() == 2).collect();
    assert!(!two.is_empty());
    assert!(r.anagrams.iter().any(|a| {
        let mut ws: Vec<&str> = a.split(' ').collect();
        ws.sort();
        ws == vec!["dirty", "room"]
    }));
    for a in &r.anagrams {
        assert_eq!(sorted_letters(a), sorted_letters("dormitory"));
    }
}

#[test]
fn village_technologies_with_includes() {
    let r = run("village technologies", 2, 10, &[], &["the", "ai"]);
    assert!(!r.anagrams.is_empty());
    let mut rest_target = sorted_letters("villagetechnologies");
    for c in "theai".chars() {
        let p = rest_target.iter().position(|x| *x == c).unwrap();
        rest_target.remove(p);
    }
    for a in &r.anagrams {
        assert!(a.starts_with("the ai "));
        assert_eq!(sorted_letters(&a["the ai ".len()..]), rest_target);
        assert!(a.split(' ').count() <= 10);
    }
}

#[test]
fn abc_with_long_minimum_is_empty() {
    let r = run("abc", 4, 3, &[], &[]);
    assert!(r.anagrams.is_empty());
}

#[test]
fn hello_excludes_are_omitted() {
    let r = run("hello", 1, 5, &["hello", "oleh"], &[]);
    assert!(!r.anagrams.is_empty());
    for a in &r.anagrams {
        assert!(a.split(' ').all(|w| w != "hello" && w != "oleh"));
    }
    assert!(!r.partials.contains(&"hello".to_string()));
    assert!(!r.partials.contains(&"oleh".to_string()));
}

#[test]
fn same_query_same_output() {
    let a = run("misunderstanding", 4, 5, &[], &[]);
    let b = run("misunderstanding", 4, 5, &[], &[]);
    assert_eq!(a.anagrams, b.anagrams);
    assert_eq!(a.partials, b.partials);
}

#[test]
fn raw_seed_behaves_as_stripped_seed() {
    let raw = run("Li-s ten!!", 2, 3, &[], &[]);
    let plain = run("listen", 2, 3, &[], &[]);
    assert_eq!(raw.anagrams, plain.anagrams);
    assert_eq!(raw.partials, plain.partials);
    let again = run("dormitory", 4, 3, &[], &[]);
    let shouted = run("DORMI-tory 1", 4, 3, &[], &[]);
    assert_eq!(again.anagrams, shouted.anagrams);
}

#[test]
fn one_word_gives_single_word_anagrams() {
    let r = run("listen", 1, 1, &[], &[]);
    let mut got = r.anagrams.clone();
    got.sort();
    assert_eq!(got, vec!["enlist", "inlets", "listen", "silent", "tinsel"]);
}

#[test]
fn minimum_above_length_is_empty() {
    let r = run("listen", 7, 3, &[], &[]);
    assert!(r.anagrams.is_empty());
    assert!(r.partials.is_empty());
}

#[test]
fn include_equal_to_bag_gives_one_answer() {
    let r = run("listen", 2, 3, &[], &["listen"]);
    assert_eq!(r.anagrams, vec!["listen".to_string()]);
    let two = run("dirty room", 2, 3, &[], &["room", "dirty"]);
    assert_eq!(two.anagrams, vec!["room dirty".to_string()]);
}

#[test]
fn include_that_does_not_fit_gives_nothing() {
    let r = run("listen", 2, 3, &[], &["silents"]);
    assert!(r.anagrams.is_empty());
    assert!(r.partials.is_empty());
    let upper = run("listen", 2, 3, &[], &["LIS"]);
    assert!(upper.anagrams.is_empty());
}

#[test]
fn includes_count_toward_word_limit() {
    let r = run("dormitory", 4, 2, &[], &["room"]);
    assert_eq!(r.anagrams, vec!["room dirty".to_string()]);
    let none = run("dormitory", 4, 1, &[], &["room"]);
    assert!(none.anagrams.is_empty());
}

#[test]
fn scores_fall_down_the_list() {
    let entries = dictionary();
    let r = run("misunderstanding", 4, 5, &[], &[]);
    for pair in r.anagrams.windows(2) {
        assert!(mean(&entries, &pair[0], 0) >= mean(&entries, &pair[1], 0));
    }
}

#[test]
fn synonyms_expand_into_each_choice_once() {
    let r = run("listenlisten", 6, 2, &[], &[]);
    let pairs: Vec<&String> = r.anagrams.iter().filter(|a| a.split(' ').count() == 2).collect();
    assert_eq!(pairs.len(), 15);
    assert!(r.anagrams.contains(&"silent tinsel".to_string()));
    assert!(!r.anagrams.contains(&"tinsel silent".to_string()));
    assert!(r.anagrams.contains(&"silent silent".to_string()));
}

#[test]
fn partials_are_the_fitting_words_in_order() {
    let r = run("listen", 4, 2, &[], &[]);
    let expected: Vec<String> = vec!["silent", "listen", "tinsel", "enlist", "inlets", "nets", "nest", "sent", "tens", "lens", "lines"].iter().map(|s| s.to_string()).collect();
    assert_eq!(r.partials, expected);
}

#[test]
fn top_n_limits_the_vocabulary() {
    let entries = dictionary();
    let r = solve(&entries, "listen", 2, 2, &vec![], &vec![], 3).unwrap();
    assert!(r.anagrams.is_empty());
    let position = entries.iter().position(|e| e.word == b"silent").unwrap();
    let r2 = solve(&entries, "listen", 2, 2, &vec![], &vec![], position + 1).unwrap();
    assert_eq!(r2.anagrams, vec!["silent".to_string()]);
}

#[test]
fn fingerprint_overflow_is_reported() {
    let word = "abcdefghijklmnopqrstuvwxyzabcdefghijklmnopqrstuvwxyz";
    let text = format!("{}\t10\n", word);
    let entries = parse_dictionary(text.as_bytes()).unwrap();
    let r = solve(&entries, word, 1, 2, &vec![], &vec![], 10);
    assert!(matches!(r, Err(SolveError::FingerprintOverflow)));
}

#[test]
fn parse_reads_entries_and_skips_empty_lines() {
    let entries = parse_dictionary(b"apple\t12\n\nbanana\t-7\n").unwrap();
    assert_eq!(entries.len(), 2);
    assert_eq!(entries[0].word, b"apple".to_vec());
    assert_eq!(entries[0].score, 12);
    assert_eq!(entries[1].word, b"banana".to_vec());
    assert_eq!(entries[1].score, -7);
}

#[test]
fn parse_rejects_malformed_lines() {
    assert!(matches!(parse_dictionary(b"apple\t12\nbanana\n"), Err(ParseError::MalformedLine(1))));
    assert!(matches!(parse_dictionary(b"apple\t1x\n"), Err(ParseError::MalformedLine(0))));
    assert!(matches!(parse_dictionary(b"a\t1\n\nb\t99999999999\n"), Err(ParseError::MalformedLine(2))));
    assert!(matches!(parse_dictionary(b"a\t-\n"), Err(ParseError::MalformedLine(0))));
    assert!(parse_dictionary(b"a\t2147483647\nb\t-2147483648").is_ok());
    assert!(matches!(parse_dictionary(b"a\t2147483648\n"), Err(ParseError::MalformedLine(0))));
}

#[test]
fn answers_are_never_permutations_of_each_other() {
    let r = run("misunderstanding", 4, 5, &[], &[]);
    let mut seen: Vec<Vec<&str>> = Vec::new();
    for a in &r.anagrams {
        let words: Vec<&str> = a.split(' ').collect();
        let mut sorted = words.clone();
        sorted.sort();
        assert!(!seen.contains(&sorted), "{} repeats the words of an earlier answer", a);
        seen.push(sorted);
    }
    assert!(!seen.is_empty());
}
