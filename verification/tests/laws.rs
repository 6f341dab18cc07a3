use huffman_compression::{
    BoxedHuffNode, CodeTable, FrequencyTable, HuffBaseNode, HuffInternalNode, HuffLeafNode,
    HuffNode, HuffmanCompression, NodeQueue,
};

fn coder() -> HuffmanCompression {
    HuffmanCompression {
        src: String::new(),
        dst: String::new(),
    }
}

fn weights() -> FrequencyTable {
    let mut table = FrequencyTable::new();
    for (symbol, weight) in [
        ('C', 32),
        ('D', 42),
        ('E', 120),
        ('K', 7),
        ('L', 42),
        ('M', 24),
        ('U', 37),
        ('Z', 2),
    ] {
        table.insert(symbol, weight);
    }
    table
}

/// The sum of the leaves below `node`, after checking that every
/// internal node weighs as much as its children.
fn checked_weight(node: &HuffNode, leaves: &mut Vec<(char, u64)>) -> u64 {
    match node.as_internal() {
        None => {
            let leaf = node.as_leaf().unwrap();
            leaves.push((leaf.value(), leaf.weight()));
            leaf.weight()
        }
        Some(inner) => {
            let left = checked_weight(inner.left(), leaves);
            let right = checked_weight(inner.right(), leaves);
            assert_eq!(inner.left().weight(), left);
            assert_eq!(inner.right().weight(), right);
            assert_eq!(inner.weight(), left + right);
            left + right
        }
    }
}

fn codes_of(text: &str) -> CodeTable {
    let table = coder().read(text);
    let root = coder().build_tree(table);
    coder().generate_huffman_code(root)
}

fn is_prefix_free(table: &CodeTable) -> bool {
    for i in 0..table.len() {
        for j in 0..table.len() {
            let (_, a) = table.entry(i);
            let (_, b) = table.entry(j);
            if i != j && b.starts_with(a) {
                return false;
            }
        }
    }
    true
}

#[test]
fn every_node_weighs_as_much_as_its_children() {
    let root = coder().build_tree(weights());
    let mut leaves = Vec::new();
    let total = checked_weight(&root.inner, &mut leaves);
    assert_eq!(total, 306);
    assert_eq!(root.weight(), 306);
    leaves.sort();
    assert_eq!(
        leaves,
        vec![
            ('C', 32),
            ('D', 42),
            ('E', 120),
            ('K', 7),
            ('L', 42),
            ('M', 24),
            ('U', 37),
            ('Z', 2)
        ]
    );
}

#[test]
fn the_tree_of_a_text_has_its_symbols_as_leaves() {
    let text = "so many words, so little time";
    let table = coder().read(text);
    let symbols = table.len();
    let root = coder().build_tree(table);
    let mut leaves = Vec::new();
    let total = checked_weight(&root.inner, &mut leaves);
    assert_eq!(total as usize, text.chars().count());
    assert_eq!(leaves.len(), symbols);
}

#[test]
fn code_tables_are_prefix_free() {
    assert!(is_prefix_free(&codes_of("abracadabra")));
    assert!(is_prefix_free(&codes_of("the quick brown fox jumps over the lazy dog")));
    assert!(is_prefix_free(&codes_of("zz")));
    let root = coder().build_tree(weights());
    assert!(is_prefix_free(&coder().generate_huffman_code(root)));
}

#[test]
fn codes_follow_the_way_down_the_tree() {
    let left = HuffNode::leaf(HuffLeafNode::new('l', 1));
    let mid = HuffNode::leaf(HuffLeafNode::new('m', 1));
    let right = HuffNode::leaf(HuffLeafNode::new('r', 1));
    let inner = HuffNode::internal(HuffInternalNode::new(mid, right, 2));
    let root = HuffNode::internal(HuffInternalNode::new(left, inner, 3));
    let table = coder().generate_huffman_code(BoxedHuffNode::new(root));
    assert_eq!(table.get('l'), Some(&vec![false]));
    assert_eq!(table.get('m'), Some(&vec![true, false]));
    assert_eq!(table.get('r'), Some(&vec![true, true]));
}

#[test]
fn decoding_gives_the_text_back() {
    for text in [
        "a",
        "ab",
        "aaaa",
        "abbbbbbbbb",
        "abracadabra",
        "this is an example of a huffman tree",
        "line one\nline two\n",
        "\u{fc}ber \u{20ac}5 \u{1f600}\u{1f600} na\u{ef}ve",
        "0101010011",
    ] {
        let bytes = coder().encode(text).unwrap();
        assert_eq!(coder().decode(&bytes), Ok(text.to_string()));
    }
}

#[test]
fn decoding_gives_the_text_back_whatever_fills_the_last_byte() {
    // eight symbols of three bits each: sixteen symbols fill six bytes
    let text = "abcdefghabcdefgh";
    let bytes = coder().encode(text).unwrap();
    // head: 8 bytes and eight entries of six bytes; count: 8 bytes;
    // payload: six bytes
    assert_eq!(bytes.len(), 8 + 8 * 6 + 8 + 6);
    assert_eq!(coder().decode(&bytes), Ok(text.to_string()));
    // a = 0 is one bit long and seven 0 bits fill the second byte
    let text = "abbbbbbbb";
    let mut bytes = coder().encode(text).unwrap();
    assert_eq!(coder().decode(&bytes), Ok(text.to_string()));
    // nor do other bits in their place give symbols
    let last = bytes.len() - 1;
    bytes[last] |= 0b0111_1111;
    assert_eq!(coder().decode(&bytes), Ok(text.to_string()));
}

#[test]
fn a_text_of_one_symbol_has_an_empty_code() {
    let bytes = coder().encode("aaaa").unwrap();
    assert_eq!(
        bytes,
        vec![b'H', b'U', b'F', b'F', 0, 0, 0, 3, 1, b'a', 0, 0, 0, 0, 0, 0, 0, 0, 4]
    );
    assert_eq!(coder().decode(&bytes), Ok("aaaa".to_string()));
    let bytes = coder().encode("\u{1f600}").unwrap();
    assert_eq!(coder().decode(&bytes), Ok("\u{1f600}".to_string()));
    let long = "z".repeat(1000);
    let bytes = coder().encode(&long).unwrap();
    assert_eq!(bytes.len(), 19);
    assert_eq!(coder().decode(&bytes), Ok(long));
}

#[test]
fn encoding_twice_gives_the_same_bytes() {
    let text = "equal weights: aabbccdd eeffgghh";
    let first = coder().encode(text).unwrap();
    let second = coder().encode(text).unwrap();
    assert_eq!(first, second);
}

#[test]
fn the_table_does_not_depend_on_the_order_of_insertion() {
    let mut forward = FrequencyTable::new();
    let mut backward = FrequencyTable::new();
    let entries = [('a', 3u64), ('b', 3), ('c', 1), ('d', 1), ('e', 2)];
    for (symbol, count) in entries {
        forward.insert(symbol, count);
    }
    for (symbol, count) in entries.iter().rev() {
        backward.insert(*symbol, *count);
    }
    let first = coder().generate_huffman_code(coder().build_tree(forward));
    let second = coder().generate_huffman_code(coder().build_tree(backward));
    assert_eq!(first.len(), second.len());
    for i in 0..first.len() {
        assert_eq!(first.entry(i), second.entry(i));
    }
}

#[test]
fn the_lighter_node_is_the_greater_in_the_queue() {
    let light = BoxedHuffNode::new(HuffNode::leaf(HuffLeafNode::new('a', 1)));
    let heavy = BoxedHuffNode::new(HuffNode::leaf(HuffLeafNode::new('b', 5)));
    let other = BoxedHuffNode::new(HuffNode::leaf(HuffLeafNode::new('c', 5)));
    assert!(light > heavy);
    assert!(heavy < light);
    assert!(heavy == other);
    assert!(light != heavy);
    assert!(light.inner < heavy.inner);
    assert!(heavy.inner == other.inner);
}

/// Texts made by a small generator: `symbols` different characters, some
/// far more frequent than others.
fn generated_text(seed: u64, symbols: u32, len: usize) -> String {
    let mut state = seed;
    let mut text = String::new();
    for _ in 0..len {
        state = state.wrapping_mul(6364136223846793005).wrapping_add(1442695040888963407);
        let draw = (state >> 33) as u32;
        let skew = draw % symbols;
        let index = if draw % 3 == 0 { skew } else { skew % 3 };
        text.push(char::from_u32(0x61 + index * 7).unwrap());
    }
    text
}

#[test]
fn decoding_gives_generated_texts_back() {
    for seed in 0..40u64 {
        let symbols = 1 + (seed as u32 * 5) % 60;
        let len = 1 + (seed as usize * 37) % 500;
        let text = generated_text(seed, symbols, len);
        let bytes = coder().encode(&text).unwrap();
        assert_eq!(&bytes[..4], b"HUFF");
        assert_eq!(coder().decode(&bytes), Ok(text.clone()));
        assert!(is_prefix_free(&codes_of(&text)));
    }
}

#[test]
fn the_queue_gives_the_lightest_node_first() {
    let mut queue = NodeQueue::new();
    assert!(queue.pop().is_none());
    for (symbol, weight) in [('a', 4), ('b', 2), ('c', 9), ('d', 2), ('e', 1)] {
        queue.push(BoxedHuffNode::new(HuffNode::leaf(HuffLeafNode::new(symbol, weight))));
    }
    assert_eq!(queue.len(), 5);
    let mut order = Vec::new();
    while let Some(node) = queue.pop() {
        order.push((node.inner.as_leaf().unwrap().value(), node.weight()));
    }
    assert_eq!(order, vec![('e', 1), ('b', 2), ('d', 2), ('a', 4), ('c', 9)]);
    assert_eq!(queue.len(), 0);
}
