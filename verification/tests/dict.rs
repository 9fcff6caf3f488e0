use wordgrid::builder::insert_word;
use wordgrid::wordlist::{
    check_word, comes_before, get_dict_tree, in_dictionary_order, is_spellable, letter_counts,
};
use wordgrid::dict::Node;
use wordgrid::spell::{reconstruct_word, spell_plays};

fn lines(words: &[&str]) -> Vec<String> {
    words.iter().map(|w| w.to_string()).collect()
}

fn chars(word: &str) -> Vec<char> {
    word.chars().collect()
}

fn ordinal(c: char) -> usize {
    wordgrid::letters::to_bits(c) as usize
}

/// The node reached by the letters of `word`, if the tree has that path.
fn follow(tree: &Vec<Node>, word: &str) -> Option<usize> {
    let mut node = 0;
    for c in word.chars() {
        let ord = ordinal(c);
        if !tree[node].has_child(ord) {
            return None;
        }
        node = tree[node].child(ord);
    }
    Some(node)
}

fn holds(tree: &Vec<Node>, word: &str) -> bool {
    match follow(tree, word) {
        Some(node) => tree[node].is_terminal(),
        None => false,
    }
}

#[test]
fn a_fresh_node_has_no_children() {
    let node = Node::default();
    assert_eq!(node.children, [0; 31]);
    assert_eq!(node.connections, 0);
    assert_eq!(node.len, 0);
    assert!(!node.is_terminal());
    assert!(!node.has_child(1));
    assert_eq!(node.child(1), 0);
}

#[test]
fn insert_word_adds_a_node_for_each_new_letter() {
    let mut tree = vec![Node::default()];
    insert_word(&mut tree, &chars("CAT"));
    assert_eq!(tree.len(), 4);
    assert_eq!(tree[0].children[3], 1);
    assert_eq!(tree[0].connections, 1 << 3);
    assert_eq!(tree[1].children[1], 2);
    assert_eq!(tree[1].connections, 1 << 1);
    assert_eq!(tree[2].children[20], 3);
    assert_eq!(tree[2].connections, 1 << 20);
    assert_eq!(tree[3].connections, 1);
    assert_eq!(tree[3].len, 3);
    assert!(tree[3].is_terminal());
    assert!(!tree[2].is_terminal());
}

#[test]
fn insert_word_shares_what_words_begin_with() {
    let mut tree = vec![Node::default()];
    insert_word(&mut tree, &chars("CAT"));
    insert_word(&mut tree, &chars("CAR"));
    insert_word(&mut tree, &chars("CA"));
    assert_eq!(tree.len(), 5);
    assert_eq!(tree[2].children[20], 3);
    assert_eq!(tree[2].children[18], 4);
    assert_eq!(tree[2].connections, (1 << 20) | (1 << 18) | 1);
    assert_eq!(tree[2].len, 2);
    assert_eq!(tree[4].len, 3);
}

#[test]
fn inserting_a_word_twice_changes_nothing() {
    let mut tree = vec![Node::default()];
    insert_word(&mut tree, &chars("CAT"));
    let nodes = tree.len();
    let connections: Vec<usize> = tree.iter().map(|n| n.connections).collect();
    insert_word(&mut tree, &chars("CAT"));
    assert_eq!(tree.len(), nodes);
    assert_eq!(tree.iter().map(|n| n.connections).collect::<Vec<usize>>(), connections);
}

#[test]
fn children_come_after_their_parents() {
    let tree = get_dict_tree("STARTLED", &lines(&["RAT", "STAR", "START", "ART", "LED", "DELTAS"]));
    for (index, node) in tree.iter().enumerate() {
        for ord in 1..=29 {
            assert_eq!(node.has_child(ord), node.child(ord) != 0);
            if node.child(ord) != 0 {
                assert!(node.child(ord) > index);
                assert!(node.child(ord) < tree.len());
            }
        }
        assert_eq!(node.child(0), 0);
        assert_eq!(node.child(30), 0);
    }
}

#[test]
fn letter_counts_counts_each_letter() {
    let counts = letter_counts(&chars("BANANA B\n\u{c4}"));
    assert_eq!(counts[1], 3);
    assert_eq!(counts[2], 2);
    assert_eq!(counts[14], 2);
    assert_eq!(counts[27], 1);
    assert_eq!(counts[3], 0);
    assert_eq!(counts[29], 0);
    assert_eq!(counts[0], 0);
}

#[test]
fn check_word_wants_letters_and_at_most_twelve() {
    assert!(check_word(&chars("")));
    assert!(check_word(&chars("CAT")));
    assert!(check_word(&chars("ABCDEFGHIJKL")));
    assert!(!check_word(&chars("ABCDEFGHIJKLM")));
    assert!(!check_word(&chars("cat")));
    assert!(!check_word(&chars("CA T")));
}

#[test]
fn a_word_is_spellable_if_the_board_has_its_letters() {
    assert!(is_spellable("CAT", "CAT"));
    assert!(is_spellable("ACT", "CAT"));
    assert!(is_spellable("AT", "CAT"));
    assert!(is_spellable("", "CAT"));
    assert!(is_spellable("TACT", "CAT\nTOT"));
}

#[test]
fn a_word_is_not_spellable_with_a_letter_too_few() {
    assert!(!is_spellable("TACT", "CAT"));
    assert!(!is_spellable("DOG", "CAT"));
    assert!(!is_spellable("CATS", "CAT"));
    assert!(!is_spellable("AA", "A Z"));
}

#[test]
fn a_word_is_not_spellable_if_it_is_no_word() {
    assert!(!is_spellable("A Z", "A Z"));
    assert!(!is_spellable("cat", "CAT"));
    assert!(!is_spellable("ABCDEFGHIJKLM", "ABCDEFGH\nIJKLM"));
    assert!(is_spellable("ABCDEFGHIJKL", "ABCDEFGH\nIJKLM"));
}

#[test]
fn comes_before_is_dictionary_order() {
    assert!(comes_before(&chars("A"), &chars("B")));
    assert!(comes_before(&chars("CA"), &chars("CAT")));
    assert!(comes_before(&chars(""), &chars("A")));
    assert!(comes_before(&chars("CAR"), &chars("CAT")));
    assert!(comes_before(&chars("AZ"), &chars("B")));
    assert!(!comes_before(&chars("CAT"), &chars("CAT")));
    assert!(!comes_before(&chars("CAT"), &chars("CA")));
    assert!(!comes_before(&chars("B"), &chars("AZ")));
    assert!(!comes_before(&chars(""), &chars("")));
}

#[test]
fn accented_letters_come_last_in_the_order_of_their_ordinals() {
    assert!(comes_before(&chars("Z"), &chars("\u{c4}")));
    assert!(comes_before(&chars("\u{c4}"), &chars("\u{c5}")));
    assert!(comes_before(&chars("\u{c5}"), &chars("\u{d6}")));
}

#[test]
fn the_tree_holds_the_spellable_words_and_no_others() {
    let words = lines(&["ACT", "AT", "CAT", "CATS", "DOG", "TACT", "cat", "A T"]);
    let tree = get_dict_tree("CAT", &words);
    assert!(holds(&tree, "ACT"));
    assert!(holds(&tree, "AT"));
    assert!(holds(&tree, "CAT"));
    assert!(!holds(&tree, "CATS"));
    assert!(!holds(&tree, "DOG"));
    assert!(!holds(&tree, "TACT"));
    assert!(!holds(&tree, "CA"));
    assert!(!holds(&tree, "A"));
    assert!(!holds(&tree, ""));
    assert_eq!(follow(&tree, "D"), None);
    assert!(follow(&tree, "CA").is_some());
}

#[test]
fn the_node_of_a_word_records_its_length() {
    let tree = get_dict_tree("STARTLED", &lines(&["ART", "RAT", "STAR", "START", "STARTLED"]));
    for word in ["ART", "RAT", "STAR", "START", "STARTLED"] {
        let node = follow(&tree, word).unwrap();
        assert!(tree[node].is_terminal());
        assert_eq!(tree[node].len, word.len());
    }
}

#[test]
fn words_of_more_than_twelve_letters_are_left_out() {
    let board = "ABCDEFGH\nIJKLMNOP";
    let tree = get_dict_tree(board, &lines(&["ABCDEFGHIJKL", "ABCDEFGHIJKLM"]));
    assert!(holds(&tree, "ABCDEFGHIJKL"));
    assert_eq!(follow(&tree, "ABCDEFGHIJKLM"), None);
    assert_eq!(tree.len(), 13);
}

#[test]
fn an_empty_line_makes_the_root_a_word_of_no_letters() {
    let tree = get_dict_tree("CAT", &lines(&[""]));
    assert_eq!(tree.len(), 1);
    assert!(tree[0].is_terminal());
    assert_eq!(tree[0].len, 0);
}

#[test]
fn nodes_are_numbered_as_the_lines_come_to_them() {
    let tree = get_dict_tree("ABCD", &lines(&["AB", "C", "AD", "ABC"]));
    assert_eq!(follow(&tree, "A"), Some(1));
    assert_eq!(follow(&tree, "AB"), Some(2));
    assert_eq!(follow(&tree, "C"), Some(3));
    assert_eq!(follow(&tree, "AD"), Some(4));
    assert_eq!(follow(&tree, "ABC"), Some(5));
    assert_eq!(tree.len(), 6);
    for (index, node) in tree.iter().enumerate() {
        if !node.is_terminal() {
            assert_eq!(node.len, 0, "{}", index);
        }
    }
}

#[test]
fn lines_out_of_order_are_held_all_the_same() {
    let words = ["AB", "C", "AD"];
    let tree = get_dict_tree("ABCD", &lines(&words));
    assert!(!in_dictionary_order("ABCD", &lines(&words)));
    for word in words {
        assert!(holds(&tree, word));
    }
    // The nodes before that of AD can still be read back.
    assert_eq!(reconstruct_word(&tree, follow(&tree, "AB").unwrap()), "AB");
    assert_eq!(reconstruct_word(&tree, follow(&tree, "C").unwrap()), "C");
}

#[test]
fn no_lines_make_a_tree_of_the_root_alone() {
    let tree = get_dict_tree("CAT", &Vec::new());
    assert_eq!(tree.len(), 1);
    assert!(!tree[0].is_terminal());
    assert_eq!(tree[0].connections, 0);
}

#[test]
fn every_word_of_a_list_in_order_is_read_back() {
    let words = ["A", "ACT", "AT", "ATE", "CAT", "EAT", "ETA", "TA", "TAC", "TEA", "TEAT"];
    let tree = get_dict_tree("CATTEA", &lines(&words));
    assert!(in_dictionary_order("CATTEA", &lines(&words)));
    for word in words {
        let node = follow(&tree, word).unwrap();
        assert!(tree[node].is_terminal());
        assert_eq!(reconstruct_word(&tree, node), word);
    }
}

#[test]
fn every_node_of_a_tree_in_order_is_read_back() {
    let words = ["ART", "RAT", "STAR", "START", "STARTLED", "TAR"];
    let tree = get_dict_tree("STARTLED", &lines(&words));
    assert_eq!(reconstruct_word(&tree, 0), "");
    for word in words {
        for end in 1..=word.len() {
            let part = &word[..end];
            assert_eq!(reconstruct_word(&tree, follow(&tree, part).unwrap()), part);
        }
    }
}

#[test]
fn accented_words_are_read_back() {
    let words = ["B\u{c4}R", "\u{c5}R", "\u{d6}L"];
    let tree = get_dict_tree("B\u{c4}R\u{c5}\u{d6}L", &lines(&words));
    assert!(in_dictionary_order("B\u{c4}R\u{c5}\u{d6}L", &lines(&words)));
    for word in words {
        assert_eq!(reconstruct_word(&tree, follow(&tree, word).unwrap()), word);
    }
}

#[test]
fn in_dictionary_order_looks_at_the_spellable_lines_only() {
    assert!(in_dictionary_order("CAT", &lines(&["ACT", "ZOO", "AT", "DOG", "CAT"])));
    assert!(in_dictionary_order("CAT", &lines(&["ACT", "ACT", "AT", "CAT", "CAT"])));
    assert!(in_dictionary_order("CAT", &lines(&[])));
    assert!(in_dictionary_order("CAT", &lines(&["ZOO", "DOG"])));
    assert!(!in_dictionary_order("CAT", &lines(&["CAT", "ACT"])));
    assert!(!in_dictionary_order("CAT", &lines(&["AT", "ACT", "CAT"])));
    assert!(!in_dictionary_order("CAT", &lines(&["ACT", "CAT", "AT"])));
    assert!(!in_dictionary_order("CAT", &lines(&["CAT", "CA"])));
}

#[test]
fn spell_plays_reads_back_each_play() {
    let words = ["ACT", "AT", "CAT"];
    let tree = get_dict_tree("CAT", &lines(&words));
    let plays = vec![
        (0b111u64, follow(&tree, "CAT").unwrap()),
        (0b110u64, follow(&tree, "AT").unwrap()),
        (0b111u64, follow(&tree, "ACT").unwrap()),
    ];
    assert_eq!(spell_plays(&tree, &plays), vec!["CAT", "AT", "ACT"]);
    assert_eq!(spell_plays(&tree, &Vec::new()), Vec::<String>::new());
}
