use rust_trie::trie::Trie;

#[test]
fn test_add() {
    let mut trie = Trie::new();
    trie.add("hello");

    assert_eq!(trie.node_count(), 6);
    assert!(trie.is_word_end(5));
    assert!(!trie.is_word_end(4));

    let mut char = "h".chars();
    assert_eq!(trie.node_data(1), char.next());
    assert_eq!(trie.child_count(1), 1);
    assert_eq!(trie.child(1, 0), 2);

    trie.add("hell");
    assert_eq!(trie.node_count(), 6);
    assert!(trie.is_word_end(4));

    trie.add("help");
    assert_eq!(trie.node_count(), 7);
    assert_eq!(trie.child_count(3), 2);
    assert_eq!(trie.child(3, 1), 6);

    let mut char2 = "p".chars();
    assert_eq!(trie.node_data(6), char2.next());

    trie.add("cat");

    assert_eq!(trie.node_count(), 10);

    let mut char = "c".chars();
    assert_eq!(trie.node_data(7), char.next());
    assert_eq!(trie.child_count(7), 1);
    assert_eq!(trie.child(7, 0), 8);
    assert_eq!(trie.child_count(9), 0);

    trie.add("cap");
    assert_eq!(trie.node_count(), 11);
    assert_eq!(trie.child_count(8), 2);
    assert_eq!(trie.child(8, 1), 10);
}

#[test]
fn test_contains() {
    let mut trie = Trie::new();
    assert!(!trie.contains("hello"));

    trie.add("hello");
    assert!(trie.contains("hello"));
    assert!(!trie.contains("hell"));
    assert!(!trie.contains("help"));

    trie.add("help");
    assert_eq!(trie.contains("help"), true);
}

#[test]
fn new_trie_holds_only_the_root() {
    let trie = Trie::new();
    assert_eq!(trie.node_count(), 1);
    assert_eq!(trie.node_data(0), None);
    assert_eq!(trie.child_count(0), 0);
    assert!(!trie.is_word_end(0));
}

#[test]
fn default_is_empty() {
    let trie = Trie::default();
    assert_eq!(trie.node_count(), 1);
    assert!(!trie.contains("a"));
}

#[test]
fn added_string_is_found() {
    for s in ["", "a", "hello", "héllo wörld", "日本語"] {
        let mut trie = Trie::new();
        trie.add("other");
        trie.add(s);
        assert!(trie.contains(s));
        assert!(trie.contains_prefix(s));
    }
}

#[test]
fn adding_twice_changes_nothing() {
    let mut once = Trie::new();
    once.add("hello");
    once.add("help");
    let mut twice = Trie::new();
    twice.add("hello");
    twice.add("help");
    twice.add("help");
    assert_eq!(once.node_count(), twice.node_count());
    assert_eq!(twice.node_count(), 7);
    for q in ["", "h", "hel", "hell", "hello", "help", "helps", "x"] {
        assert_eq!(once.contains(q), twice.contains(q));
        assert_eq!(once.contains_prefix(q), twice.contains_prefix(q));
    }
}

#[test]
fn prefix_is_not_a_word() {
    let mut trie = Trie::new();
    trie.add("hello");
    assert!(!trie.contains("hell"));
    assert!(!trie.contains("help"));
    assert!(trie.contains("hello"));
}

#[test]
fn prefix_lookup_confirms_prefixes() {
    let mut trie = Trie::new();
    trie.add("hello");
    assert!(trie.contains_prefix("hell"));
    assert!(trie.contains_prefix("he"));
    assert!(!trie.contains_prefix("helloo"));
    assert!(trie.contains_prefix("hello"));
    assert!(!trie.contains_prefix("help"));
}

#[test]
fn shared_prefix_is_stored_once() {
    let mut trie = Trie::new();
    trie.add("hello");
    trie.add("help");
    assert_eq!(trie.node_data(1), Some('h'));
    assert_eq!(trie.child_count(1), 1);
    assert_eq!(trie.node_data(trie.child(1, 0)), Some('e'));
    assert_eq!(trie.node_data(3), Some('l'));
    assert_eq!(trie.child_count(3), 2);
    assert_eq!(trie.node_data(trie.child(3, 0)), Some('l'));
    assert_eq!(trie.node_data(trie.child(3, 1)), Some('p'));
    assert_eq!(trie.node_count(), 7);
}

#[test]
fn node_counts_follow_insertions() {
    let mut trie = Trie::new();
    assert_eq!(trie.node_count(), 1);
    trie.add("hello");
    assert_eq!(trie.node_count(), 6);
    trie.add("hell");
    assert_eq!(trie.node_count(), 6);
    assert!(trie.is_word_end(4));
    trie.add("help");
    assert_eq!(trie.node_count(), 7);
    trie.add("cat");
    assert_eq!(trie.node_count(), 10);
    trie.add("cap");
    assert_eq!(trie.node_count(), 11);
    assert_eq!(trie.child_count(0), 2);
    assert_eq!(trie.node_data(10), Some('p'));
    for w in ["hello", "hell", "help", "cat", "cap"] {
        assert!(trie.contains(w));
    }
    assert!(!trie.contains("ca"));
    assert!(!trie.contains("he"));
}

#[test]
fn empty_trie_holds_no_string() {
    let trie = Trie::new();
    for s in ["a", "hello", " ", "ü"] {
        assert!(!trie.contains(s));
        assert!(!trie.contains_prefix(s));
    }
}

#[test]
fn empty_string_marks_the_root() {
    let mut trie = Trie::new();
    assert!(!trie.contains(""));
    assert!(trie.contains_prefix(""));
    trie.add("");
    assert_eq!(trie.node_count(), 1);
    assert!(trie.is_word_end(0));
    assert!(trie.contains(""));
}

#[test]
fn prefix_added_after_longer_word_becomes_word() {
    let mut trie = Trie::new();
    trie.add("abc");
    assert!(!trie.contains("ab"));
    trie.add("ab");
    assert!(trie.contains("ab"));
    assert!(trie.contains("abc"));
    assert!(!trie.contains("a"));
    assert_eq!(trie.node_count(), 4);
}

#[test]
fn children_keep_creation_order() {
    let mut trie = Trie::new();
    trie.add("b");
    trie.add("a");
    trie.add("c");
    assert_eq!(trie.child_count(0), 3);
    assert_eq!(trie.node_data(trie.child(0, 0)), Some('b'));
    assert_eq!(trie.node_data(trie.child(0, 1)), Some('a'));
    assert_eq!(trie.node_data(trie.child(0, 2)), Some('c'));
}

#[test]
fn add_adds_exactly_the_given_word_and_its_prefixes() {
    let mut trie = Trie::new();
    trie.add("car");
    trie.add("cart");
    for q in ["car", "cart"] {
        assert!(trie.contains(q));
    }
    for q in ["", "c", "ca", "carts", "cat", "art"] {
        assert!(!trie.contains(q));
    }
    for q in ["", "c", "ca", "car", "cart"] {
        assert!(trie.contains_prefix(q));
    }
    for q in ["carts", "cat", "a", "x"] {
        assert!(!trie.contains_prefix(q));
    }
    assert_eq!(trie.node_count(), 5);
}
