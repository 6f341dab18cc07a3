use crate::assoc::{has_symbol, lemma_rank_bounds, lookup, rank, strictly_sorted};
use crate::bits::{lemma_padded, lemma_unpack_pack, padded, padding, unpack};
use crate::builder::{huffman_tree, leaf_forest, leaf_of};
use crate::code::prefix_free;
use crate::decoder::{code_matches, decode_symbols, find_match, lemma_find_match};
use crate::error::HuffmanError;
use crate::format::{
    code_text, lemma_parse_container, magic, parse_container, stored_table, Container,
};
use crate::frequency::{frequencies, lemma_frequencies_count};
use crate::huffman::{
    all_coded, code_of, container, decoded, lemma_text_table, payload_bytes, text_bits,
    text_table,
};
use vstd::prelude::*;

verus! {

/// Decoding inverts encoding: the container of a text that is not empty
/// decodes to that text, with no symbol missing, added or out of place.
/// The bits that fill the last byte give no symbol, and a text of one
/// repeated symbol, whose code is empty, comes back whole.
pub proof fn lemma_decode_inverts_encode(text: Seq<char>)
    requires
        0 < text.len() <= u64::MAX,
    ensures
        decoded(container(text)) == Ok::<Seq<char>, HuffmanError>(text),
{
    let table = text_table(text);
    let bits = text_bits(table, text);
    lemma_text_table(text);
    lemma_container_parses(text);
    let fill = Seq::new(padding(bits.len()), |i: int| false);
    assert(padded(bits) == bits + fill);
    lemma_decode_symbols(table, text, fill);
}

/// A text of one repeated symbol has a table of one entry, that symbol
/// with the empty code, and its container decodes to the text.
pub proof fn lemma_single_symbol_round_trip(text: Seq<char>)
    requires
        0 < text.len() <= u64::MAX,
        forall|i: int| 0 <= i < text.len() ==> #[trigger] text[i] == text[0],
    ensures
        text_table(text) == seq![(text[0], Seq::<bool>::empty())],
        decoded(container(text)) == Ok::<Seq<char>, HuffmanError>(text),
{
    lemma_single_symbol_table(text);
    lemma_decode_inverts_encode(text);
}

/// A container that does not begin with the magic bytes is refused with
/// a format error.
pub proof fn lemma_wrong_magic(data: Seq<u8>)
    requires
        data.len() < 4 || data.subrange(0, 4) != magic(),
    ensures
        decoded(data) == Err::<Seq<char>, HuffmanError>(HuffmanError::BadMagic),
        HuffmanError::BadMagic.format(),
{
}

/// Encoding is a function of the text: two encodings of one text are
/// the same, byte for byte.
pub proof fn lemma_encode_twice(text: Seq<char>, first: Vec<u8>, second: Vec<u8>)
    requires
        first@ == container(text),
        second@ == container(text),
    ensures
        first@ == second@,
{
}

/// A code as text is what the bits begin with exactly if the code is
/// what they begin with.
pub proof fn lemma_code_matches(code: Seq<bool>, bits: Seq<bool>)
    ensures
        code_matches(code_text(code), bits) <==> code.is_prefix_of(bits),
{
    if code.len() <= bits.len() {
        let front = bits.take(code.len() as int);
        if code_text(code) == code_text(front) {
            assert forall|i: int| 0 <= i < code.len() implies code[i] == front[i] by {
                assert(code_text(code)[i] == code_text(front)[i]);
            }
            assert(code =~= bits.subrange(0, code.len() as int));
        }
        if code.is_prefix_of(bits) {
            assert(code =~= front);
        }
    }
}

/// The bits of a text begin with the code of its first symbol.
pub proof fn lemma_text_bits_front(table: Seq<(char, Seq<bool>)>, text: Seq<char>)
    requires
        text.len() > 0,
    ensures
        text_bits(table, text) == code_of(table, text[0]) + text_bits(table, text.drop_first()),
    decreases text.len(),
{
    if text.len() == 1 {
        assert(text.drop_last() =~= Seq::<char>::empty());
        assert(text.drop_first() =~= Seq::<char>::empty());
        assert(text_bits(table, text.drop_last()) =~= Seq::<bool>::empty());
        assert(text_bits(table, text) =~= code_of(table, text[0]) + text_bits(
            table,
            text.drop_first(),
        ));
    } else {
        let front = text.drop_last();
        lemma_text_bits_front(table, front);
        assert(front.drop_first() =~= text.drop_first().drop_last());
        assert(text.drop_first().last() == text.last());
        assert(front[0] == text[0]);
        assert(text_bits(table, text) =~= code_of(table, text[0]) + text_bits(
            table,
            text.drop_first(),
        ));
    }
}

/// In a prefix-free table, bits that begin with the code of a symbol are
/// matched by the entry of that symbol and by no other.
pub proof fn lemma_match_is_code(table: Seq<(char, Seq<bool>)>, symbol: char, bits: Seq<bool>)
    requires
        strictly_sorted(table),
        prefix_free(table),
        lookup(table, symbol) is Some,
        code_of(table, symbol).is_prefix_of(bits),
    ensures
        find_match(stored_table(table), bits) == Some(rank(table, symbol)),
        0 <= rank(table, symbol) < table.len(),
        table[rank(table, symbol)] == (symbol, code_of(table, symbol)),
{
    let held = stored_table(table);
    let k = rank(table, symbol);
    lemma_rank_bounds(table, symbol);
    lemma_find_match(held, bits);
    lemma_code_matches(table[k].1, bits);
    assert(held[k].0 == code_text(table[k].1));
    match find_match(held, bits) {
        None => {
            assert(!code_matches(held[k].0, bits));
        },
        Some(at) => {
            if at != k {
                lemma_code_matches(table[at].1, bits);
                assert(held[at].0 == code_text(table[at].1));
                let a = table[at].1;
                let b = table[k].1;
                assert(a.is_prefix_of(bits));
                assert(b.is_prefix_of(bits));
                if a.len() <= b.len() {
                    assert(a =~= b.subrange(0, a.len() as int));
                    assert(a.is_prefix_of(b));
                } else {
                    assert(b =~= a.subrange(0, b.len() as int));
                    assert(b.is_prefix_of(a));
                }
            }
        },
    }
}

/// Read symbol by symbol, the bits of a text give the text back, whatever
/// follows them.
pub proof fn lemma_decode_symbols(
    table: Seq<(char, Seq<bool>)>,
    text: Seq<char>,
    rest: Seq<bool>,
)
    requires
        strictly_sorted(table),
        prefix_free(table),
        all_coded(table, text),
    ensures
        decode_symbols(stored_table(table), text_bits(table, text) + rest, text.len()) == Some(
            text,
        ),
    decreases text.len(),
{
    let held = stored_table(table);
    let bits = text_bits(table, text) + rest;
    if text.len() == 0 {
        assert(text =~= Seq::<char>::empty());
    } else {
        let first = text[0];
        let others = text.drop_first();
        let code = code_of(table, first);
        lemma_text_bits_front(table, text);
        let tail = text_bits(table, others) + rest;
        assert(bits =~= code + tail);
        assert(code.is_prefix_of(bits)) by {
            assert(code =~= bits.subrange(0, code.len() as int));
        }
        assert(lookup(table, text[0]) is Some);
        lemma_match_is_code(table, first, bits);
        let at = rank(table, first);
        assert(held[at] == (code_text(code), first));
        assert(bits.skip(code.len() as int) =~= tail);
        assert(all_coded(table, others)) by {
            assert forall|i: int| 0 <= i < others.len() implies lookup(
                table,
                #[trigger] others[i],
            ) is Some by {
                assert(others[i] == text[i + 1]);
            }
        }
        lemma_decode_symbols(table, others, rest);
        assert(seq![first] + others =~= text);
    }
}

/// What the container of a text parses into: the table of the text, the
/// number of its symbols, and the bits of the text with the bits that
/// fill the last byte.
pub proof fn lemma_container_parses(text: Seq<char>)
    requires
        0 < text.len() <= u64::MAX,
    ensures
        parse_container(container(text)) == Ok::<Container, HuffmanError>(
            Container {
                table: stored_table(text_table(text)),
                count: text.len(),
                payload: payload_bytes(text_table(text), text),
            },
        ),
        unpack(payload_bytes(text_table(text), text)) == padded(
            text_bits(text_table(text), text),
        ),
{
    let table = text_table(text);
    lemma_text_table(text);
    lemma_parse_container(table, text.len() as u64, payload_bytes(table, text));
    lemma_padded(text_bits(table, text));
    lemma_unpack_pack(padded(text_bits(table, text)));
}

/// A text of one repeated symbol has a table of one entry: that symbol
/// with the empty code.
pub proof fn lemma_single_symbol_table(text: Seq<char>)
    requires
        0 < text.len() <= u64::MAX,
        forall|i: int| 0 <= i < text.len() ==> #[trigger] text[i] == text[0],
    ensures
        text_table(text) == seq![(text[0], Seq::<bool>::empty())],
{
    let entries = frequencies(text);
    lemma_frequencies_count(text);
    assert(text.contains(text[0]));
    assert(has_symbol(entries, text[0]));
    assert forall|k: int| 0 <= k < entries.len() implies (#[trigger] entries[k]).0 == text[0] by {
        assert(has_symbol(entries, entries[k].0));
        assert(text.contains(entries[k].0));
        let at = choose|at: int| 0 <= at < text.len() && text[at] == entries[k].0;
        if text[at] != text[0] {
            assert(0 <= at < text.len() && 0 <= 0 < text.len() && text[at] != text[0]);
        }
    }
    if entries.len() > 1 {
        assert(entries[0].0 < entries[1].0);
    }
    assert(entries.len() == 1);
    let forest = leaf_forest(entries);
    assert(forest.len() == 1);
    let tree = huffman_tree(entries);
    assert(tree == forest[0]);
    assert(tree == leaf_of(entries[0]));
    let none = Seq::<(char, Seq<bool>)>::empty();
    assert(rank(none, text[0]) == 0);
    assert(text_table(text) =~= seq![(text[0], Seq::<bool>::empty())]);
}

} // verus!
