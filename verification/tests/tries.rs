use ysh::trie::{Trie, TrieMap};

fn keys() -> Vec<String> {
    let mut keys = Vec::new();
    for a in 1..=26 {
        for b in 1..=26 {
            for c in 1..=26 {
                for d in 1..=26 {
                    keys.push(format!("{}{}{}{}", a, b, c, d));
                }
            }
        }
    }
    keys
}

#[test]
fn insert() {
    let mut trie: TrieMap<()> = TrieMap::new();
    for key in &keys() {
        let frags: Vec<char> = key.chars().collect();
        trie.insert(&frags, ());
    }
}

#[test]
fn iter() {
    let words = &["about", "abbot", "abelian", "alphabet", "alcazar", "crawfish", "crawdad", "crazy"];
    let mut trie: Trie<usize> = Trie::new();

    for (i, word) in words.iter().enumerate() {
        let frags: Vec<char> = word.chars().collect();
        trie.insert(&frags, i);
    }

    let mut entries = trie.iter();
    for (j, &word2) in words.iter().enumerate() {
        let (key, &i) = entries.next().expect("every stored word is yielded");
        let word1: String = key.iter().collect();
        assert_eq!(&word1, word2);
        assert_eq!(i, j);
    }
    assert!(entries.next().is_none());
}

#[test]
fn insert_returns_previous_value() {
    let mut trie: Trie<u32> = Trie::new();
    let key: Vec<char> = "abc".chars().collect();
    assert_eq!(trie.insert(&key, 1), None);
    assert_eq!(trie.insert(&key, 2), Some(1));
    assert_eq!(trie.insert_recursive(&key, 3), Some(2));

    //  a prefix of a stored key holds no value of its own
    let prefix: Vec<char> = "ab".chars().collect();
    assert_eq!(trie.insert(&prefix, 9), None);
}

#[test]
fn trie_map_mirrors_trie() {
    let mut map: TrieMap<&str> = TrieMap::new();
    let one: Vec<char> = "one".chars().collect();
    let two: Vec<char> = "two".chars().collect();
    assert_eq!(map.insert(&one, "first"), None);
    assert_eq!(map.insert(&two, "second"), None);
    assert_eq!(map.insert_recursive(&one, "replaced"), Some("first"));
}

#[test]
fn prefix_matches_completions() {
    let words = &["about", "abbot", "abelian", "alphabet", "alcazar"];
    let mut trie: Trie<usize> = Trie::new();
    for (i, word) in words.iter().enumerate() {
        let frags: Vec<char> = word.chars().collect();
        trie.insert(&frags, i);
    }

    let prefix: Vec<char> = "ab".chars().collect();
    let mut matches = trie.prefix_matches(&prefix).expect("the prefix is stored");
    let mut suffixes = Vec::new();
    while let Some((key, _)) = matches.next() {
        suffixes.push(key.iter().collect::<String>());
    }
    assert_eq!(suffixes, vec!["out", "bot", "elian"]);

    let missing: Vec<char> = "zz".chars().collect();
    assert!(trie.prefix_matches(&missing).is_none());
}
