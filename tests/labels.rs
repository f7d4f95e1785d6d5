use hop_kak::trie::{ConfigError, Trie};

fn grown(n: usize, keys: &str) -> Vec<String> {
    let keyset = keys.chars().collect::<Vec<_>>();
    let mut trie = Trie::default();
    trie.grow_repeatedly(n, &keyset).unwrap();
    trie.labels()
}

fn is_prefix_free(labels: &[String]) -> bool {
    for (i, a) in labels.iter().enumerate() {
        for (j, b) in labels.iter().enumerate() {
            if i != j && b.starts_with(a.as_str()) {
                return false;
            }
        }
    }
    true
}

#[test]
fn iter() {
    let keyset = "abcd".chars().collect::<Vec<_>>();

    let mut trie = Trie::default();
    trie.grow_repeatedly(4, &keyset).unwrap();
    let hints = trie.labels();
    assert_eq!(hints, vec!["a", "b", "c", "d"]);

    let mut trie = Trie::default();
    trie.grow_repeatedly(10, &keyset).unwrap();
    let hints = trie.labels();
    assert_eq!(
        hints,
        vec!["a", "b", "ca", "cb", "cc", "cd", "da", "db", "dc", "dd"]
    );
}

#[test]
fn growing_one_at_a_time_matches_growing_at_once() {
    let keyset = "abcd".chars().collect::<Vec<_>>();
    let mut trie = Trie::default();
    for _ in 0..10 {
        trie.grow(&keyset).unwrap();
    }
    assert_eq!(trie.labels(), grown(10, "abcd"));
}

#[test]
fn leaf_found_from_the_right_grows_twice() {
    // with two keys the fifth label splits the rightmost leaf with room
    assert_eq!(grown(3, "ab"), vec!["a", "ba", "bb"]);
    assert_eq!(grown(4, "ab"), vec!["aa", "ab", "ba", "bb"]);
    assert_eq!(grown(5, "ab"), vec!["aa", "ab", "ba", "bba", "bbb"]);
}

#[test]
fn labels_are_prefix_free() {
    for keys in ["ab", "abc", "abcd", "asdfghjkl"] {
        for n in 0..60 {
            let labels = grown(n, keys);
            assert!(is_prefix_free(&labels), "{keys} {n}: {labels:?}");
        }
    }
}

#[test]
fn label_count_is_growth_count() {
    for keys in ["ab", "abc", "abcd"] {
        for n in 0..50 {
            assert_eq!(grown(n, keys).len(), n);
        }
    }
}

#[test]
fn no_growth_no_labels() {
    assert!(grown(0, "abcd").is_empty());
}

#[test]
fn one_growth_gives_first_key() {
    assert_eq!(grown(1, "xyz"), vec!["x"]);
    assert_eq!(grown(1, "q"), vec!["q"]);
}

#[test]
fn empty_keyset_is_refused() {
    let mut trie = Trie::default();
    assert_eq!(trie.grow_repeatedly(3, &[]), Err(ConfigError::EmptyKeyset));
    assert_eq!(trie.grow(&[]), Err(ConfigError::EmptyKeyset));
    assert!(trie.labels().is_empty());
}

#[test]
fn single_key_holds_a_single_label() {
    let mut trie = Trie::default();
    assert_eq!(trie.grow_repeatedly(2, &['a']), Err(ConfigError::KeysetTooSmall));
    assert!(trie.labels().is_empty());
    assert_eq!(trie.grow(&['a']), Ok(()));
    assert_eq!(trie.grow(&['a']), Err(ConfigError::KeysetTooSmall));
    assert_eq!(trie.labels(), vec!["a"]);
}

#[test]
fn labels_below_a_path() {
    let mut trie = Trie::new('x');
    trie.grow_repeatedly(3, &['a', 'b']).unwrap();
    let mut paths = vec!["keep".to_string()];
    trie.labels_("p", &mut paths);
    assert_eq!(paths, vec!["keep", "pxa", "pxba", "pxbb"]);
}
