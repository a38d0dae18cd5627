use cm_tool::error::CodecError;
use cm_tool::frequency::FrequencyTable;
use cm_tool::huffman::{huffman_tree, Tree};

#[test]
fn test_huffman() {
    let mut char_map = FrequencyTable::new();
    char_map.insert('d', 10);
    char_map.insert('a', 40);
    char_map.insert('b', 25);
    char_map.insert('c', 15);

    // Build a huffman tree
    let tree = huffman_tree(char_map).unwrap();
    assert_eq!(tree.freq(), 90); // confirming that the final node gives a freq of 90
    assert_eq!(tree.left().map(|n| n.freq()), Some(40));
    assert_eq!(tree.right().map(|n| n.freq()), Some(50));
    // test the most frequent char, which should be 'a'
    assert_eq!(tree.left().and_then(|char| char.char()), Some('a'));

    // second most frequent char
    assert_eq!(
        tree.right().and_then(|n| n.left()).and_then(|f| f.char()),
        Some('b')
    );
    assert_eq!(
        tree.right().and_then(|n| n.left()).map(|f| f.freq()),
        Some(25)
    );

    // Assert the 3rd most freqent char
    assert_eq!(
        tree.right()
            .and_then(|n| n.right())
            .and_then(|f| f.right())
            .and_then(|f| f.char()),
        Some('c')
    );
    assert_eq!(
        tree.right()
            .and_then(|n| n.right())
            .and_then(|f| f.right())
            .map(|f| f.freq()),
        Some(15)
    );

    // Assert the least occuring char
    assert_eq!(
        tree.right()
            .and_then(|n| n.right())
            .and_then(|f| f.left())
            .and_then(|f| f.char()),
        Some('d')
    );
    assert_eq!(
        tree.right()
            .and_then(|n| n.right())
            .and_then(|f| f.left())
            .map(|f| f.freq()),
        Some(10)
    );
}

#[test]
fn empty_table_has_no_tree() {
    let char_map = FrequencyTable::new();
    assert_eq!(huffman_tree(char_map), Err(CodecError::EmptyInput));
}

#[test]
fn single_symbol_gives_a_single_leaf() {
    let mut char_map = FrequencyTable::new();
    char_map.insert('a', 4);
    let tree = huffman_tree(char_map).unwrap();
    assert_eq!(tree, Tree::Leaf { char: 'a', freq: 4 });
    assert_eq!(tree.freq(), 4);
    assert_eq!(tree.char(), Some('a'));
    assert!(tree.left().is_none());
    assert!(tree.right().is_none());
}

#[test]
fn two_symbols_lighter_goes_left() {
    let mut char_map = FrequencyTable::new();
    char_map.insert('x', 7);
    char_map.insert('y', 3);
    let tree = huffman_tree(char_map).unwrap();
    assert_eq!(
        tree,
        Tree::Node {
            freq: 10,
            left: Box::new(Tree::Leaf { char: 'y', freq: 3 }),
            right: Box::new(Tree::Leaf { char: 'x', freq: 7 }),
        }
    );
}

#[test]
fn equal_weights_leave_queue_in_entry_order() {
    let mut char_map = FrequencyTable::new();
    char_map.insert('p', 1);
    char_map.insert('q', 1);
    char_map.insert('r', 1);
    let tree = huffman_tree(char_map).unwrap();
    // p and q are joined first; r, then their node of weight 2, come next.
    assert_eq!(tree.freq(), 3);
    assert_eq!(tree.left().and_then(|n| n.char()), Some('r'));
    assert_eq!(tree.right().map(|n| n.freq()), Some(2));
    assert_eq!(tree.right().and_then(|n| n.left()).and_then(|n| n.char()), Some('p'));
    assert_eq!(tree.right().and_then(|n| n.right()).and_then(|n| n.char()), Some('q'));
}

#[test]
fn frequency_table_replaces_and_reads_back() {
    let mut char_map = FrequencyTable::new();
    assert!(char_map.is_empty());
    assert_eq!(char_map.insert('a', 1), None);
    assert_eq!(char_map.insert('b', 2), None);
    assert_eq!(char_map.insert('a', 5), Some(1));
    assert_eq!(char_map.len(), 2);
    assert_eq!(char_map.get(&'a'), Some(5));
    assert_eq!(char_map.get(&'b'), Some(2));
    assert_eq!(char_map.get(&'c'), None);
    assert_eq!(char_map.into_entries(), vec![('a', 5), ('b', 2)]);
    assert!(FrequencyTable::from_entries(vec![('a', 1), ('a', 2)]).is_none());
    assert!(FrequencyTable::from_entries(vec![('a', 1), ('b', 2)]).is_some());
}
