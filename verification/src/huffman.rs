use crate::assoc::{has_symbol, lemma_sorted_len, lookup, strictly_sorted};
use crate::bits::{pack, pack_bits, pad_bits, padded, unpack, unpack_bits};
use crate::builder::{
    counts_positive, entry_bag, forest_weight, huffman_tree, leaf_forest,
    lemma_forest_weight_remove, lemma_huffman_tree, lemma_leaf_forest_weight, lemma_lightest,
    lemma_merge_lightest_weight, lightest, merge_all, merge_lightest, NodeQueue,
};
use crate::code::{code_table, dfs, lemma_code_table, prefix_free, CodeTable};
use crate::decoder::{decode_count, decode_symbols};
use crate::error::HuffmanError;
use crate::format::{
    append_bytes, append_code_text, codes_fit, count_bytes, entry_bytes, header_bytes,
    parse_container, read_table, table_bytes, u32_be_bytes, u64_be_bytes, MAGIC_NUMBER,
};
use vstd::string::StrSliceExecFns;
use crate::frequency::{
    count_in, frequencies, lemma_frequencies_count, lemma_frequencies_total, total_count,
    FrequencyTable,
};
use crate::node::{BoxedHuffNode, HuffInternalNode, HuffLeafNode, HuffNode};
use crate::text::{lemma_utf8_len, symbol_bytes};
use vstd::prelude::*;

verus! {

/// The coder, with the names of the file that it reads and of the file
/// that it writes. The coder itself works on what the files hold.
pub struct HuffmanCompression {
    pub src: String,
    pub dst: String,
}

/// The code of `symbol` in `table`; the empty code where it has none.
pub open spec fn code_of(table: Seq<(char, Seq<bool>)>, symbol: char) -> Seq<bool> {
    match lookup(table, symbol) {
        Some(code) => code,
        None => Seq::empty(),
    }
}

/// Every symbol of the text has a code in the table.
pub open spec fn all_coded(table: Seq<(char, Seq<bool>)>, text: Seq<char>) -> bool {
    forall|i: int| 0 <= i < text.len() ==> lookup(table, #[trigger] text[i]) is Some
}

/// The codes of the symbols of the text, one after the other.
pub open spec fn text_bits(table: Seq<(char, Seq<bool>)>, text: Seq<char>) -> Seq<bool>
    decreases text.len(),
{
    if text.len() == 0 {
        Seq::empty()
    } else {
        text_bits(table, text.drop_last()) + code_of(table, text.last())
    }
}

/// The payload of a container: the bits of the text, filled up with 0
/// bits to whole bytes and packed.
pub open spec fn payload_bytes(table: Seq<(char, Seq<bool>)>, text: Seq<char>) -> Seq<u8> {
    pack(padded(text_bits(table, text)))
}

/// The code table that a text is encoded with.
pub open spec fn text_table(text: Seq<char>) -> Seq<(char, Seq<bool>)> {
    code_table(huffman_tree(frequencies(text)))
}

/// The container of a text: the head with the code table of the text,
/// the number of its symbols in eight bytes, most significant first, and
/// the text in its codes.
pub open spec fn container(text: Seq<char>) -> Seq<u8> {
    header_bytes(text_table(text)) + count_bytes(text.len() as u64) + payload_bytes(
        text_table(text),
        text,
    )
}

/// The text that a container decodes to: as many symbols as the
/// container says it holds, read from the bits of its payload.
pub open spec fn decoded(data: Seq<u8>) -> Result<Seq<char>, HuffmanError> {
    match parse_container(data) {
        Err(error) => Err(error),
        Ok(parsed) => match decode_symbols(parsed.table, unpack(parsed.payload), parsed.count) {
            Some(text) => Ok(text),
            None => Err(HuffmanError::Truncated),
        },
    }
}

/// Appends the bits of `more` to `bits`.
pub fn append_bits(bits: &mut Vec<bool>, more: &Vec<bool>)
    ensures
        final(bits)@ == old(bits)@ + more@,
{
    let mut next: usize = 0;
    while next < more.len()
        invariant
            0 <= next <= more@.len(),
            bits@ == old(bits)@ + more@.take(next as int),
        decreases more@.len() - next,
    {
        bits.push(more[next]);
        next = next + 1;
        assert(bits@ =~= old(bits)@ + more@.take(next as int));
    }
    assert(more@.take(next as int) =~= more@);
}

/// The code table of a text holds a code for each symbol of the text and
/// for no other, is sorted and is prefix-free.
pub proof fn lemma_text_table(text: Seq<char>)
    requires
        0 < text.len() <= u64::MAX,
    ensures
        strictly_sorted(text_table(text)),
        prefix_free(text_table(text)),
        codes_fit(text_table(text)),
        all_coded(text_table(text), text),
        forall|symbol: char| #[trigger]
            text.contains(symbol) <==> lookup(text_table(text), symbol) is Some,
{
    broadcast use vstd::seq_lib::group_to_multiset_ensures;

    let entries = frequencies(text);
    let table = text_table(text);
    lemma_frequencies_count(text);
    lemma_frequencies_total(text);
    assert(text.contains(text[0]));
    assert(has_symbol(entries, text[0]));
    lemma_code_table(huffman_tree(entries));
    assert(counts_positive(entries)) by {
        assert forall|i: int| 0 <= i < entries.len() implies (#[trigger] entries[i]).1 >= 1 by {
            let symbol = entries[i].0;
            crate::assoc::lemma_lookup_finds(entries, symbol);
            assert(has_symbol(entries, symbol));
            assert(count_in(entries, symbol) == entries[i].1);
            assert(text.contains(symbol));
            assert(text.to_multiset().count(symbol) > 0);
        }
    }
    assert forall|i: int| 0 <= i < table.len() implies (#[trigger] table[i]).1.len() <= 255 by {
        crate::assoc::lemma_lookup_finds(table, table[i].0);
        assert(lookup(table, table[i].0) == Some(table[i].1));
        crate::builder::lemma_huffman_tree_depth(entries, table[i].1);
    }
    assert forall|symbol: char| #[trigger]
        text.contains(symbol) <==> lookup(text_table(text), symbol) is Some by {
        crate::builder::lemma_huffman_tree_symbols(entries, symbol);
        assert(has_symbol(entries, symbol) <==> text.contains(symbol));
        assert(huffman_tree(entries).holds(symbol) <==> lookup(text_table(text), symbol) is Some);
    }
    assert forall|i: int| 0 <= i < text.len() implies lookup(
        text_table(text),
        #[trigger] text[i],
    ) is Some by {
        assert(text.contains(text[i]));
    }
}

impl HuffmanCompression {
    /// Counts how often each symbol occurs in `content`.
    pub fn read(&self, content: &str) -> (table: FrequencyTable)
        ensures
            table@ == frequencies(content@),
            strictly_sorted(table@),
            forall|symbol: char| #[trigger]
                count_in(table@, symbol) == content@.to_multiset().count(symbol),
            forall|symbol: char| #[trigger]
                has_symbol(table@, symbol) <==> content@.contains(symbol),
            total_count(table@) == content@.len(),
            content@.len() <= usize::MAX,
    {
        broadcast use vstd::seq_lib::group_to_multiset_ensures;

        let limit = content.as_bytes().len();
        proof {
            lemma_utf8_len(content@);
            assert(content@.len() <= limit);
        }
        let mut table = FrequencyTable::new();
        for c in it: content.chars()
            invariant
                it.seq() == content@,
                content@.len() <= usize::MAX,
                table@ == frequencies(content@.take(it.index())),
        {
            let ghost seen = content@.take(it.index());
            proof {
                assert(it.index() < content@.len());
                lemma_frequencies_count(seen);
                assert(count_in(table@, c) == seen.to_multiset().count(c));
                seen.to_multiset_ensures();
                assert(seen.to_multiset().count(c) <= seen.to_multiset().len());
                assert(content@.take(it.index() + 1).drop_last() =~= seen);
            }
            let frequency = match table.get(c) {
                Some(count) => count,
                None => 0,
            };
            table.insert(c, frequency + 1);
        }
        proof {
            assert(content@.take(content@.len() as int) =~= content@);
            lemma_frequencies_count(content@);
            lemma_frequencies_total(content@);
        }
        table
    }

    /// Builds the tree of a frequency table: each symbol becomes a leaf,
    /// and while more than one node is left the two lightest are taken
    /// out, the first to the left and the second to the right of a new
    /// node that weighs as much as the two. Of equally light nodes the one
    /// that has waited longest is taken; leaves wait in the order of
    /// their symbols.
    pub fn build_tree(&self, table: FrequencyTable) -> (root: BoxedHuffNode)
        requires
            table@.len() > 0,
            total_count(table@) <= u64::MAX,
        ensures
            root@ == huffman_tree(table@),
            root@.consistent(),
            root@.weight() == total_count(table@),
            root@.total() == total_count(table@),
            root@.leaves().to_multiset() == entry_bag(table@),
            root@.leaves().len() == table@.len(),
            root@.internal_count() == table@.len() - 1,
    {
        let mut heap = NodeQueue::new();
        let count = table.len();
        let mut next: usize = 0;
        while next < count
            invariant
                0 <= next <= count,
                count == table@.len(),
                heap@ == leaf_forest(table@.take(next as int)),
            decreases count - next,
        {
            let entry = table.entry(next);
            let node = BoxedHuffNode::new(HuffNode::leaf(HuffLeafNode::new(entry.0, entry.1)));
            heap.push(node);
            next = next + 1;
            assert(heap@ =~= leaf_forest(table@.take(next as int)));
        }
        proof {
            assert(table@.take(next as int) =~= table@);
            lemma_leaf_forest_weight(table@);
            lemma_huffman_tree(table@);
        }

        while heap.len() > 1
            invariant
                heap@.len() > 0,
                forest_weight(heap@) <= u64::MAX,
                merge_all(heap@) == huffman_tree(table@),
            decreases heap@.len(),
        {
            let ghost forest = heap@;
            proof {
                lemma_lightest(forest);
                lemma_lightest(forest.remove(lightest(forest)));
                lemma_forest_weight_remove(forest, lightest(forest));
                lemma_forest_weight_remove(
                    forest.remove(lightest(forest)),
                    lightest(forest.remove(lightest(forest))),
                );
                lemma_merge_lightest_weight(forest);
            }
            let left = heap.pop().unwrap();
            let right = heap.pop().unwrap();

            let weight = left.weight() + right.weight();
            let internal_node = HuffInternalNode::new(left.inner, right.inner, weight);

            heap.push(BoxedHuffNode::new(HuffNode::internal(internal_node)));
            assert(heap@ =~= merge_lightest(forest));
        }

        heap.pop().unwrap()
    }

    /// Gives each symbol of the tree its code: a 0 for each step to the
    /// left and a 1 for each step to the right on the way from the root
    /// to the symbol's leaf.
    pub fn generate_huffman_code(&self, root: BoxedHuffNode) -> (table: CodeTable)
        ensures
            table@ == code_table(root@),
            strictly_sorted(table@),
            prefix_free(table@),
            forall|symbol: char| #[trigger] root@.holds(symbol) <==> lookup(table@, symbol) is Some,
            forall|symbol: char|
                (#[trigger] lookup(table@, symbol)) matches Some(code) ==> root@.leaf_at(code)
                    == Some(symbol),
    {
        let mut map = CodeTable::new();
        let mut bits: Vec<bool> = Vec::new();
        dfs(&root.inner, &mut map, &mut bits);
        proof {
            lemma_code_table(root@);
        }
        map
    }

    /// Appends the head of a container to `encoded_data`: the magic
    /// bytes, the length of the code table in bytes as four bytes, most
    /// significant first, and the entries of the table in the order of
    /// their symbols.
    pub fn write_header(&self, encoded_data: &mut Vec<u8>, table: &CodeTable)
        requires
            codes_fit(table@),
        ensures
            final(encoded_data)@ == old(encoded_data)@ + header_bytes(table@),
    {
        append_bytes(encoded_data, MAGIC_NUMBER.as_slice());

        let mut buf: Vec<u8> = Vec::new();
        let count = table.len();
        let mut next: usize = 0;
        proof {
            lemma_sorted_len(table@);
        }
        while next < count
            invariant
                0 <= next <= count,
                count == table@.len(),
                count <= 0x110000,
                codes_fit(table@),
                buf@ == table_bytes(table@.take(next as int)),
                buf@.len() <= 261 * next,
            decreases count - next,
        {
            let (symbol, code) = table.entry(next);
            let key = symbol_bytes(symbol);
            let ghost before = buf@;
            buf.push(key.len() as u8);
            append_bytes(&mut buf, key.as_slice());
            buf.push(code.len() as u8);
            append_code_text(&mut buf, code);
            next = next + 1;
            proof {
                let done = table@.take(next as int);
                assert(done.drop_last() =~= table@.take(next - 1));
                assert(done.last() == table@[next - 1]);
                assert(buf@ =~= before + entry_bytes(table@[next - 1]));
            }
        }
        proof {
            assert(table@.take(next as int) =~= table@);
        }

        let table_len = buf.len() as u32;
        let len_bytes = u32_be_bytes(table_len);
        append_bytes(encoded_data, len_bytes.as_slice());
        append_bytes(encoded_data, buf.as_slice());
        assert(encoded_data@ =~= old(encoded_data)@ + header_bytes(table@));
    }

    /// Writes `content` in the codes of `table`: the codes of its symbols
    /// one after the other, filled up with 0 bits to whole bytes, eight
    /// bits to a byte, the first bit being the most significant.
    pub fn encode_content(&self, content: &str, table: &CodeTable) -> (encoded: Result<
        Vec<u8>,
        HuffmanError,
    >)
        ensures
            match encoded {
                Ok(bytes) => all_coded(table@, content@) && bytes@ == payload_bytes(
                    table@,
                    content@,
                ),
                Err(error) => error == HuffmanError::MissingCode && error.encoding() && !all_coded(
                    table@,
                    content@,
                ),
            },
    {
        let mut encoded_data: Vec<bool> = Vec::new();
        for c in it: content.chars()
            invariant
                it.seq() == content@,
                all_coded(table@, content@.take(it.index())),
                encoded_data@ == text_bits(table@, content@.take(it.index())),
        {
            let ghost seen = content@.take(it.index());
            proof {
                assert(content@.take(it.index() + 1).drop_last() =~= seen);
            }
            match table.get(c) {
                Some(code) => {
                    append_bits(&mut encoded_data, code);
                },
                None => {
                    assert(content@[it.index()] == c);
                    return Err(HuffmanError::MissingCode);
                },
            }
        }
        proof {
            assert(content@.take(content@.len() as int) =~= content@);
        }

        pad_bits(&mut encoded_data);
        proof {
            crate::bits::lemma_padded(text_bits(table@, content@));
        }
        Ok(pack_bits(&encoded_data))
    }

    /// Encodes `content` into a container: the head with the code table
    /// of the content, the number of symbols of the content, and the
    /// content in those codes. Every text that is not empty has a
    /// container.
    pub fn encode(&self, content: &str) -> (encoded: Result<Vec<u8>, HuffmanError>)
        requires
            content@.len() > 0,
        ensures
            encoded matches Ok(bytes) && bytes@ == container(content@),
    {
        let frequency_table = self.read(content);
        proof {
            lemma_text_table(content@);
            assert(content@.contains(content@[0]));
            assert(has_symbol(frequency_table@, content@[0]));
        }
        let root_node = self.build_tree(frequency_table);
        let lookup_table = self.generate_huffman_code(root_node);

        let mut encoded_data: Vec<u8> = Vec::new();
        self.write_header(&mut encoded_data, &lookup_table);

        let symbols = content.unicode_len() as u64;
        append_bytes(&mut encoded_data, u64_be_bytes(symbols).as_slice());

        let payload = self.encode_content(content, &lookup_table)?;
        append_bytes(&mut encoded_data, payload.as_slice());
        assert(encoded_data@ =~= container(content@));

        Ok(encoded_data)
    }

    /// Decodes a container: reads its code table and the number of its
    /// symbols, and then as many symbols from the bits of its payload,
    /// each time the symbol of the entry whose code the bits begin with.
    /// The bits that fill the last byte are not read. A container whose
    /// bits do not spell as many symbols as it says is refused.
    pub fn decode(&self, data: &[u8]) -> (text: Result<String, HuffmanError>)
        requires
            8 * data@.len() <= usize::MAX,
        ensures
            match text {
                Ok(text) => decoded(data@) == Ok::<Seq<char>, HuffmanError>(text@),
                Err(error) => decoded(data@) == Err::<Seq<char>, HuffmanError>(error)
                    && error.format(),
            },
    {
        let (lookup_table, symbols, payload) = match read_table(data) {
            Ok(parsed) => parsed,
            Err(error) => {
                return Err(error);
            },
        };
        let content = unpack_bits(payload);
        match decode_count(&lookup_table, &content, symbols) {
            Some(text) => Ok(text),
            None => Err(HuffmanError::Truncated),
        }
    }
}

} // verus!
