use hardly_trie::trie::Trie;
use std::time::Instant;

/// A deterministic word list: every lower-case word of one to three letters
/// drawn from a small alphabet.
fn words() -> Vec<String> {
    let letters = ["a", "e", "i", "n", "r", "s", "t"];
    let mut out = Vec::new();
    for a in letters {
        out.push(a.to_string());
        for b in letters {
            out.push(format!("{a}{b}"));
            for c in letters {
                out.push(format!("{a}{b}{c}"));
            }
        }
    }
    out
}

#[test]
fn insert_all_trie() {
    let contents = words();
    let mut trie: Trie<str, String, 16> = Trie::new();
    let now = Instant::now();
    for word in &contents {
        assert_eq!(trie.insert(word, word.clone()), None);
    }
    let elapsed_insert = now.elapsed();
    assert_eq!(trie.len(), contents.len());
    let now = Instant::now();
    for word in &contents {
        assert_eq!(trie.get(word), Some(word));
    }
    let elapsed_find = now.elapsed();
    let now = Instant::now();
    for word in &contents {
        assert_eq!(trie.delete(word), Some(word.clone()));
    }
    let elapsed_remove = now.elapsed();
    assert!(trie.is_empty());
    assert!(!trie.node("").unwrap().has_child());
    println!("Trie insert: {:?} - size: {}", elapsed_insert, contents.len());
    println!("Trie find: {elapsed_find:?}");
    println!("Trie remove_all: {elapsed_remove:?}");
}
