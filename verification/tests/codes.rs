use cm_tool::code_table::CodeTable;
use cm_tool::frequency::FrequencyTable;
use cm_tool::generate_huffman_codes::{generate_huffman_codes, get_code};
use cm_tool::huffman::{huffman_tree, Tree};

#[test]
fn test_codes() {
    // Generate a Tree
    let mut char_map = FrequencyTable::new();
    char_map.insert('e', 120);
    char_map.insert('u', 37);
    char_map.insert('d', 42);
    char_map.insert('l', 42);
    char_map.insert('c', 32);
    char_map.insert('z', 2);
    char_map.insert('k', 7);
    char_map.insert('m', 24);

    // Build a huffman tree
    let tree = huffman_tree(char_map).unwrap();
    let mut codes_char = CodeTable::new();
    let mut code = String::new();

    // Get the codes
    get_code(tree, &mut code, &mut codes_char);

    assert_eq!(
        codes_char.get(&'e').unwrap().to_string(),
        "0".to_string(),
        "Mismatched Values"
    );
    assert_eq!(
        codes_char.get(&'u').unwrap().to_string(),
        "100".to_string(),
        "Mismatched Values"
    );
    assert_eq!(
        codes_char.get(&'d').unwrap().to_string(),
        "101".to_string(),
        "Mismatched Values"
    );
    assert_eq!(
        codes_char.get(&'l').unwrap().to_string(),
        "110".to_string(),
        "Mismatched Values"
    );
    assert_eq!(
        codes_char.get(&'c').unwrap().to_string(),
        "1110".to_string(),
        "Mismatched Values"
    );
    assert_eq!(
        codes_char.get(&'z').unwrap().to_string(),
        "111100".to_string(),
        "Mismatched Values"
    );
    assert_eq!(
        codes_char.get(&'k').unwrap().to_string(),
        "111101".to_string(),
        "Mismatched Values"
    );
    assert_eq!(
        codes_char.get(&'m').unwrap().to_string(),
        "11111".to_string(),
        "Mismatched Values"
    );
}

#[test]
fn small_alphabet_code_lengths() {
    let mut char_map = FrequencyTable::new();
    for (ch, freq) in [
        ('e', 120u64),
        ('u', 37),
        ('d', 42),
        ('l', 42),
        ('c', 32),
        ('z', 2),
        ('k', 7),
        ('m', 24),
    ] {
        char_map.insert(ch, freq);
    }
    let codes = generate_huffman_codes(huffman_tree(char_map).unwrap());
    let len = |c: char| codes.get(&c).unwrap().len();
    assert_eq!(len('e'), 1);
    assert_eq!(len('u'), 3);
    assert_eq!(len('d'), 3);
    assert_eq!(len('l'), 3);
    assert_eq!(len('c'), 4);
    assert_eq!(len('m'), 5);
    assert_eq!(len('z'), 6);
    assert_eq!(len('k'), 6);
}

fn cost(entries: &[(char, u64)], codes: &CodeTable) -> u64 {
    entries
        .iter()
        .map(|(ch, freq)| freq * codes.get(ch).unwrap().len() as u64)
        .sum()
}

fn codes_of(entries: &[(char, u64)]) -> CodeTable {
    let mut char_map = FrequencyTable::new();
    for (ch, freq) in entries {
        char_map.insert(*ch, *freq);
    }
    generate_huffman_codes(huffman_tree(char_map).unwrap())
}

#[test]
fn codes_cost_what_the_best_tree_costs() {
    // worked out by hand: e at depth 1; u, d, l at 3; c at 4; m at 5; z, k at 6
    let entries = [
        ('e', 120u64),
        ('u', 37),
        ('d', 42),
        ('l', 42),
        ('c', 32),
        ('z', 2),
        ('k', 7),
        ('m', 24),
    ];
    let by_hand = 120 * 1 + (37 + 42 + 42) * 3 + 32 * 4 + 24 * 5 + (2 + 7) * 6;
    assert_eq!(by_hand, 785);
    assert_eq!(cost(&entries, &codes_of(&entries)), 785);

    // a at depth 1, b at 2, c and d at 3
    let entries = [('a', 40u64), ('b', 25), ('c', 15), ('d', 10)];
    assert_eq!(cost(&entries, &codes_of(&entries)), 40 + 2 * 25 + 3 * 15 + 3 * 10);

    // a balanced tree of depth 2 would cost 2 * 90 = 180, a chain with a deepest 195
    assert!(cost(&entries, &codes_of(&entries)) < 180);

    // equal weights: four symbols take two bits each
    let entries = [('w', 5u64), ('x', 5), ('y', 5), ('z', 5)];
    assert_eq!(cost(&entries, &codes_of(&entries)), 40);
}

#[test]
fn four_symbol_tree_shape_and_codes() {
    let mut char_map = FrequencyTable::new();
    char_map.insert('a', 40);
    char_map.insert('b', 25);
    char_map.insert('c', 15);
    char_map.insert('d', 10);
    let tree = huffman_tree(char_map).unwrap();
    assert_eq!(tree.freq(), 90);
    assert_eq!(tree.left().and_then(|n| n.char()), Some('a'));
    assert_eq!(tree.left().map(|n| n.freq()), Some(40));
    assert_eq!(tree.right().map(|n| n.freq()), Some(50));
    assert_eq!(tree.right().and_then(|n| n.left()).and_then(|n| n.char()), Some('b'));
    let codes = generate_huffman_codes(tree);
    assert_eq!(codes.get(&'a').unwrap(), "0");
    assert_eq!(codes.get(&'b').unwrap(), "10");
    assert_eq!(codes.get(&'d').unwrap(), "110");
    assert_eq!(codes.get(&'c').unwrap(), "111");
}

#[test]
fn no_code_is_a_prefix_of_another() {
    let mut char_map = FrequencyTable::new();
    for (i, ch) in "the quick brown fox".chars().enumerate() {
        let seen = char_map.get(&ch).unwrap_or(0);
        char_map.insert(ch, seen + 1 + (i as u64 % 3));
    }
    let symbols: Vec<char> = char_map
        .into_entries()
        .into_iter()
        .map(|(ch, _)| ch)
        .collect();
    let mut again = FrequencyTable::new();
    for (i, ch) in symbols.iter().enumerate() {
        again.insert(*ch, 1 + (i as u64 * 7) % 5);
    }
    let codes = generate_huffman_codes(huffman_tree(again).unwrap());
    for a in &symbols {
        for b in &symbols {
            if a != b {
                let ca = codes.get(a).unwrap();
                let cb = codes.get(b).unwrap();
                assert!(!cb.starts_with(ca.as_str()), "{ca} begins {cb}");
            }
        }
    }
}

#[test]
fn get_code_keeps_the_path_and_starts_from_it() {
    let tree = Tree::Node {
        freq: 3,
        left: Box::new(Tree::Leaf { char: 'x', freq: 1 }),
        right: Box::new(Tree::Leaf { char: 'y', freq: 2 }),
    };
    let mut path = String::from("01");
    let mut codes = CodeTable::new();
    get_code(tree, &mut path, &mut codes);
    assert_eq!(path, "01");
    assert_eq!(codes.get(&'x').unwrap(), "010");
    assert_eq!(codes.get(&'y').unwrap(), "011");
    assert!(codes.get(&'z').is_none());
}

#[test]
fn single_leaf_gets_the_empty_code() {
    let codes = generate_huffman_codes(Tree::Leaf { char: 'a', freq: 4 });
    assert_eq!(codes.get(&'a').unwrap(), "");
}

#[test]
fn code_table_replaces_and_reads_back() {
    let mut codes = CodeTable::new();
    assert!(codes.is_empty());
    assert_eq!(codes.insert('a', "0".to_string()), None);
    assert_eq!(codes.insert('b', "10".to_string()), None);
    assert_eq!(codes.insert('a', "11".to_string()), Some("0".to_string()));
    assert!(!codes.is_empty());
    assert_eq!(codes.get(&'a').unwrap(), "11");
    assert_eq!(
        codes.bit_codes(),
        vec![('a', vec![true, true]), ('b', vec![true, false])]
    );
    assert_eq!(
        codes.into_entries(),
        vec![('a', "11".to_string()), ('b', "10".to_string())]
    );
    assert!(CodeTable::from_entries(vec![('a', "0".to_string()), ('a', "1".to_string())]).is_none());
}
