use crossword::matcher::Matcher;
use crossword::trie::Trie;
use rand::SeedableRng;
use rand::rngs::StdRng;

fn letters(word: &str) -> Vec<usize> {
    word.chars().map(|c| (c as usize) - ('A' as usize)).collect()
}

fn pattern(p: &str) -> Vec<Option<char>> {
    p.chars().map(|c| if c == '.' { None } else { Some(c) }).collect()
}

fn sorted(mut words: Vec<String>) -> Vec<String> {
    words.sort();
    words
}

#[test]
fn trie_insert_and_count() {
    let mut t = Trie::new();
    t.insert(&letters("CAT"));
    t.insert(&letters("CAR"));
    t.insert(&letters("DOG"));
    let wild = vec![None, None, None];
    assert_eq!(t.count_matches(&wild), 3);
    let fixed = vec![Some(2usize), None, None];
    assert_eq!(t.count_matches(&fixed), 2);
    let none = vec![Some(25usize), None, None];
    assert_eq!(t.count_matches(&none), 0);
    let short = vec![None, None];
    assert_eq!(t.count_matches(&short), 0);
}

#[test]
fn trie_find_lists_matches_in_alphabet_order() {
    let mut t = Trie::new();
    t.insert(&letters("DOG"));
    t.insert(&letters("CAT"));
    t.insert(&letters("CAR"));
    let found = t.find(&[None, None, None]);
    assert_eq!(found, vec![letters("CAR"), letters("CAT"), letters("DOG")]);
    let found_c = t.find(&[Some(2), None, None]);
    assert_eq!(found_c, vec![letters("CAR"), letters("CAT")]);
}

#[test]
fn trie_find_random_same_set_as_find() {
    let mut t = Trie::new();
    for w in ["CAT", "CAR", "DOG", "DOT", "COG"] {
        t.insert(&letters(w));
    }
    let plain = t.find(&[None, None, None]);
    for seed in 0..8u64 {
        let mut rng = StdRng::seed_from_u64(seed);
        let mut shuffled = t.find_random(&[None, None, None], &mut rng);
        shuffled.sort();
        let mut expected = plain.clone();
        expected.sort();
        assert_eq!(shuffled, expected);
    }
}

#[test]
fn trie_find_one_random_finds_iff_any_match() {
    let mut t = Trie::new();
    t.insert(&letters("CAT"));
    t.insert(&letters("DOG"));
    let mut rng = StdRng::seed_from_u64(7);
    let one = t.find_one_random(&[Some(2), None, None], &mut rng).unwrap();
    assert_eq!(one, letters("CAT"));
    assert!(t.find_one_random(&[Some(1), None, None], &mut rng).is_none());
    assert!(t.find_one_random(&[None, None], &mut rng).is_none());
}

#[test]
fn trie_duplicate_insert_changes_no_count() {
    let mut once = Trie::new();
    once.insert(&letters("CAT"));
    once.insert(&letters("CAR"));
    let mut twice = Trie::new();
    twice.insert(&letters("CAT"));
    twice.insert(&letters("CAR"));
    twice.insert(&letters("CAT"));
    for p in [
        vec![None, None, None],
        vec![Some(2usize), None, None],
        vec![None, Some(0usize), None],
    ] {
        assert_eq!(once.count_matches(&p), twice.count_matches(&p));
    }
    assert_eq!(once.find(&[None, None, None]), twice.find(&[None, None, None]));
}

#[test]
fn matcher_insert_folds_case() {
    let mut m = Matcher::new();
    m.insert("cat");
    m.insert("Dog");
    assert_eq!(m.count_matches(&pattern("CAT")), 1);
    assert_eq!(m.count_matches(&pattern("DOG")), 1);
    assert_eq!(sorted(m.find(&pattern("..."))), vec!["CAT".to_string(), "DOG".to_string()]);
}

#[test]
fn matcher_count_equals_find_length() {
    let mut m = Matcher::new();
    for w in ["CAT", "CAR", "COG", "DOG", "DOT", "AXE"] {
        m.insert(w);
    }
    for p in ["...", "C..", ".O.", "..T", "XYZ", "....", "A.E"] {
        let pat = pattern(p);
        assert_eq!(m.count_matches(&pat), m.find(&pat).len());
    }
}

#[test]
fn matcher_random_order_same_words() {
    let mut m = Matcher::new();
    for w in ["CAT", "CAR", "COG", "DOG", "DOT"] {
        m.insert(w);
    }
    let plain = sorted(m.find(&pattern("...")));
    for seed in 0..8u64 {
        let mut rng = StdRng::seed_from_u64(seed);
        let random = sorted(m.find_vec_random(&pattern("..."), &mut rng));
        assert_eq!(random, plain);
    }
}

#[test]
fn matcher_word_count_by_length_tallies_inserts() {
    let mut m = Matcher::new();
    m.insert("CAT");
    m.insert("CAR");
    m.insert("CAT");
    m.insert("HORSE");
    assert_eq!(m.word_count_by_length(3), 3);
    assert_eq!(m.word_count_by_length(5), 1);
    assert_eq!(m.word_count_by_length(4), 0);
    assert_eq!(m.word_count_by_length(100), 0);
}

#[test]
fn matcher_empty_word_matches_empty_pattern() {
    let mut m = Matcher::new();
    m.insert("");
    assert_eq!(m.count_matches(&pattern("")), 1);
    assert_eq!(m.count_matches(&pattern(".")), 0);
}

#[test]
fn matcher_exact_word_query() {
    let mut m = Matcher::new();
    m.insert("CAT");
    m.insert("CAR");
    assert_eq!(m.count_matches(&pattern("CAT")), 1);
    assert_eq!(m.count_matches(&pattern("CAP")), 0);
    assert_eq!(m.find(&pattern("CA.")).len(), 2);
}
