use std::collections::HashMap;

use huffman_compression::{
    code_string, CodeTable, FrequencyTable, HuffBaseNode, HuffmanCompression,
};

fn init_huffman_compression() -> HuffmanCompression {
    HuffmanCompression {
        src: "./test.txt".to_string(),
        dst: "huffman.bin".to_string(),
    }
}

/// A text in which `X` stands 333 times and `t` 223000 times, among other
/// characters.
fn reference_text() -> String {
    let mut text = String::new();
    for i in 0..223000 {
        text.push('t');
        if i % 7 == 0 {
            text.push('e');
        }
        if i < 333 {
            text.push('X');
        }
        if i % 1000 == 0 {
            text.push('\n');
        }
    }
    text
}

fn sample_table() -> FrequencyTable {
    let mut table = FrequencyTable::new();
    table.insert('C', 32);
    table.insert('D', 42);
    table.insert('E', 120);
    table.insert('K', 7);
    table.insert('L', 42);
    table.insert('M', 24);
    table.insert('U', 37);
    table.insert('Z', 2);
    table
}

fn as_map(table: &CodeTable) -> HashMap<char, String> {
    let mut map = HashMap::new();
    for i in 0..table.len() {
        let (symbol, code) = table.entry(i);
        map.insert(symbol, code_string(code));
    }
    map
}

#[test]
fn test_table_character_count() {
    let huffman = init_huffman_compression();
    let table = huffman.read(&reference_text());
    assert_eq!(table.get('X').unwrap(), 333);
    assert_eq!(table.get('t').unwrap(), 223000);
}

#[test]
fn test_build_huffman_tree() {
    let huffman = init_huffman_compression();

    let table = sample_table();

    let root = huffman.build_tree(table);
    assert!(!root.is_leaf());
    assert_eq!(root.weight(), 306);
    let root = root.inner.as_internal();
    assert!(root.is_some());
    let root = root.unwrap();

    let left_leaf = root.left();
    assert!(left_leaf.is_leaf());
    assert_eq!(left_leaf.weight(), 120);
    let left_leaf = left_leaf.as_leaf();
    assert!(left_leaf.is_some());
    let left_leaf = left_leaf.unwrap();
    assert_eq!(left_leaf.value(), 'E');

    let right_node = root.right();
    assert!(!right_node.is_leaf());
    assert_eq!(right_node.weight(), 186);
    let right_node = right_node.as_internal();
    assert!(right_node.is_some());
    let _right_node = right_node.unwrap();
}

#[test]
fn test_huffman_lookup_table() {
    let huffman = init_huffman_compression();

    let table = sample_table();

    let mut lookup_table = HashMap::new();
    lookup_table.insert('C', "1110".to_owned());
    lookup_table.insert('D', "101".to_owned());
    lookup_table.insert('E', "0".to_owned());
    lookup_table.insert('K', "111101".to_owned());
    lookup_table.insert('L', "110".to_owned());
    lookup_table.insert('M', "11111".to_owned());
    lookup_table.insert('U', "100".to_owned());
    lookup_table.insert('Z', "111100".to_owned());

    let root = huffman.build_tree(table);
    let res = huffman.generate_huffman_code(root);

    assert_eq!(lookup_table, as_map(&res));
}

#[test]
fn test_encode_file() {
    let huffman = init_huffman_compression();
    huffman.encode(&reference_text()).unwrap();
}

#[test]
fn read_counts_every_character_as_it_is() {
    let huffman = init_huffman_compression();
    let table = huffman.read("aAa é\u{e9}\n");
    assert_eq!(table.len(), 5);
    assert_eq!(table.get('a'), Some(2));
    assert_eq!(table.get('A'), Some(1));
    assert_eq!(table.get(' '), Some(1));
    assert_eq!(table.get('\u{e9}'), Some(2));
    assert_eq!(table.get('\n'), Some(1));
    assert_eq!(table.get('b'), None);
    assert_eq!(table.total(), Some(7));
}

#[test]
fn read_of_an_empty_text_is_an_empty_table() {
    let huffman = init_huffman_compression();
    let table = huffman.read("");
    assert_eq!(table.len(), 0);
    assert_eq!(table.total(), Some(0));
}

#[test]
fn frequency_table_keeps_the_order_of_the_symbols() {
    let mut table = FrequencyTable::new();
    assert_eq!(table.insert('m', 3), None);
    assert_eq!(table.insert('a', 1), None);
    assert_eq!(table.insert('z', 2), None);
    assert_eq!(table.insert('m', 5), Some(3));
    assert_eq!(table.len(), 3);
    assert_eq!(table.entry(0), ('a', 1));
    assert_eq!(table.entry(1), ('m', 5));
    assert_eq!(table.entry(2), ('z', 2));
    assert_eq!(table.total(), Some(8));
}

#[test]
fn frequency_table_total_stops_at_the_limit() {
    let mut table = FrequencyTable::new();
    table.insert('a', u64::MAX);
    assert_eq!(table.total(), Some(u64::MAX));
    table.insert('b', 1);
    assert_eq!(table.total(), None);
}

#[test]
fn code_table_keeps_the_order_of_the_symbols() {
    let mut table = CodeTable::new();
    table.insert('b', vec![true, false]);
    table.insert('a', vec![false]);
    table.insert('b', vec![true, true]);
    assert_eq!(table.len(), 2);
    assert_eq!(table.get('a'), Some(&vec![false]));
    assert_eq!(table.get('b'), Some(&vec![true, true]));
    assert_eq!(table.get('c'), None);
    let (symbol, code) = table.entry(0);
    assert_eq!((symbol, code_string(code)), ('a', "0".to_string()));
    let (symbol, code) = table.entry(1);
    assert_eq!((symbol, code_string(code)), ('b', "11".to_string()));
    assert!(table.fits());
}

#[test]
fn code_table_knows_a_code_that_is_too_long() {
    let mut table = CodeTable::new();
    table.insert('a', vec![false; 255]);
    assert!(table.fits());
    table.insert('b', vec![true; 256]);
    assert!(!table.fits());
}

#[test]
fn a_tree_of_one_symbol_is_a_leaf_with_the_empty_code() {
    let huffman = init_huffman_compression();
    let mut table = FrequencyTable::new();
    table.insert('q', 9);
    let root = huffman.build_tree(table);
    assert!(root.is_leaf());
    assert_eq!(root.weight(), 9);
    assert_eq!(root.inner.as_leaf().unwrap().value(), 'q');
    let codes = huffman.generate_huffman_code(root);
    assert_eq!(codes.len(), 1);
    assert_eq!(codes.get('q'), Some(&vec![]));
}

#[test]
fn equal_weights_are_merged_in_the_order_of_waiting() {
    let huffman = init_huffman_compression();
    let mut table = FrequencyTable::new();
    table.insert('c', 1);
    table.insert('a', 1);
    table.insert('b', 1);
    table.insert('d', 1);
    // a and b are merged first, then c and d, then the two nodes.
    let root = huffman.build_tree(table);
    let codes = as_map(&huffman.generate_huffman_code(root));
    assert_eq!(codes[&'a'], "00");
    assert_eq!(codes[&'b'], "01");
    assert_eq!(codes[&'c'], "10");
    assert_eq!(codes[&'d'], "11");
}

#[test]
fn the_first_node_taken_goes_to_the_left() {
    let huffman = init_huffman_compression();
    let mut table = FrequencyTable::new();
    table.insert('x', 5);
    table.insert('y', 3);
    let root = huffman.build_tree(table);
    let root = root.inner.as_internal().unwrap();
    assert_eq!(root.left().as_leaf().unwrap().value(), 'y');
    assert_eq!(root.right().as_leaf().unwrap().value(), 'x');
    assert_eq!(root.weight(), 8);
}
