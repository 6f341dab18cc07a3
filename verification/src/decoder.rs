use crate::format::{bit_byte, code_text, held_table};
use crate::text::string_push;
use vstd::prelude::*;

verus! {

/// The code, read as text, is what the bits begin with.
pub open spec fn code_matches(code: Seq<u8>, bits: Seq<bool>) -> bool {
    code.len() <= bits.len() && code == code_text(bits.take(code.len() as int))
}

/// The place of the entry that the bits begin with. A later entry goes
/// before an earlier one, as if the entries had been put into a map one
/// by one.
pub open spec fn find_match(table: Seq<(Seq<u8>, char)>, bits: Seq<bool>) -> Option<int>
    decreases table.len(),
{
    if table.len() == 0 {
        None
    } else if code_matches(table.last().0, bits) {
        Some(table.len() - 1)
    } else {
        find_match(table.drop_last(), bits)
    }
}

/// The first `count` symbols that the bits spell, read from the left: at
/// each place the matching entry gives a symbol and its code is passed
/// over. An empty code matches everywhere and gives its symbol each time
/// it is met. There is no result where the bits do not spell as many
/// symbols. What follows the last symbol is not read.
pub open spec fn decode_symbols(table: Seq<(Seq<u8>, char)>, bits: Seq<bool>, count: nat) -> Option<
    Seq<char>,
>
    decreases count,
{
    if count == 0 {
        Some(Seq::empty())
    } else {
        match find_match(table, bits) {
            None => None,
            Some(at) => match decode_symbols(
                table,
                bits.skip(table[at].0.len() as int),
                (count - 1) as nat,
            ) {
                None => None,
                Some(rest) => Some(seq![table[at].1] + rest),
            },
        }
    }
}

/// What is found is an entry of the table whose code matches, and no
/// later entry is such a one; nothing is found only if there is no such
/// entry.
pub proof fn lemma_find_match(table: Seq<(Seq<u8>, char)>, bits: Seq<bool>)
    ensures
        match find_match(table, bits) {
            Some(at) => {
                &&& 0 <= at < table.len()
                &&& code_matches(table[at].0, bits)
                &&& forall|i: int|
                    at < i < table.len() ==> !code_matches((#[trigger] table[i]).0, bits)
            },
            None => forall|i: int|
                0 <= i < table.len() ==> !code_matches((#[trigger] table[i]).0, bits),
        },
    decreases table.len(),
{
    if table.len() > 0 {
        let front = table.drop_last();
        lemma_find_match(front, bits);
        if code_matches(table.last().0, bits) {
        } else {
            match find_match(front, bits) {
                Some(at) => {
                    assert forall|i: int| at < i < table.len() implies !code_matches(
                        (#[trigger] table[i]).0,
                        bits,
                    ) by {
                        if i < front.len() {
                            assert(front[i] == table[i]);
                        }
                    }
                },
                None => {
                    assert forall|i: int| 0 <= i < table.len() implies !code_matches(
                        (#[trigger] table[i]).0,
                        bits,
                    ) by {
                        if i < front.len() {
                            assert(front[i] == table[i]);
                        }
                    }
                },
            }
        }
    }
}

/// Whether the bits from place `from` on begin with the code.
pub fn code_matches_at(code: &Vec<u8>, bits: &Vec<bool>, from: usize) -> (matches: bool)
    requires
        from <= bits@.len(),
    ensures
        matches == code_matches(code@, bits@.skip(from as int)),
{
    let rest = bits.len() - from;
    if code.len() > rest {
        return false;
    }
    let ghost tail = bits@.skip(from as int);
    let mut next: usize = 0;
    while next < code.len()
        invariant
            0 <= next <= code@.len(),
            code@.len() <= bits@.len() - from,
            bits@.len() <= usize::MAX,
            tail == bits@.skip(from as int),
            forall|i: int| 0 <= i < next ==> code@[i] == bit_byte(#[trigger] tail[i]),
        decreases code@.len() - next,
    {
        let byte: u8 = if bits[from + next] { 0x31 } else { 0x30 };
        if code[next] != byte {
            proof {
                assert(code_text(tail.take(code@.len() as int))[next as int] == bit_byte(
                    tail[next as int],
                ));
            }
            return false;
        }
        next = next + 1;
    }
    assert(code@ =~= code_text(tail.take(code@.len() as int)));
    true
}

/// Looks for the entry that the bits from place `from` on begin with.
pub fn find_code(table: &Vec<(Vec<u8>, char)>, bits: &Vec<bool>, from: usize) -> (found: Option<
    usize,
>)
    requires
        from <= bits@.len(),
    ensures
        match found {
            Some(at) => find_match(held_table(table@), bits@.skip(from as int)) == Some(at as int)
                && at < table@.len(),
            None => find_match(held_table(table@), bits@.skip(from as int)) is None,
        },
{
    let ghost held = held_table(table@);
    let ghost tail = bits@.skip(from as int);
    let mut next: usize = table.len();
    assert(held.take(next as int) =~= held);
    while next > 0
        invariant
            0 <= next <= table@.len(),
            from <= bits@.len(),
            held == held_table(table@),
            tail == bits@.skip(from as int),
            find_match(held, tail) == find_match(held.take(next as int), tail),
        decreases next,
    {
        let ghost upto = held.take(next as int);
        next = next - 1;
        proof {
            assert(upto.drop_last() =~= held.take(next as int));
            assert(upto.last() == held_table(table@)[next as int]);
        }
        let entry = &table[next];
        if code_matches_at(&entry.0, bits, from) {
            return Some(next);
        }
    }
    None
}

/// Reads `count` symbols from the bits, or finds that they do not spell
/// as many.
pub fn decode_count(table: &Vec<(Vec<u8>, char)>, bits: &Vec<bool>, count: u64) -> (text: Option<
    String,
>)
    ensures
        match text {
            Some(text) => decode_symbols(held_table(table@), bits@, count as nat) == Some(text@),
            None => decode_symbols(held_table(table@), bits@, count as nat) is None,
        },
{
    let ghost held = held_table(table@);
    let mut text = String::new();
    let mut from: usize = 0;
    let mut left: u64 = count;
    let total = bits.len();
    assert(bits@.skip(0) =~= bits@);
    proof {
        match decode_symbols(held, bits@, count as nat) {
            Some(all) => {
                assert(text@ + all =~= all);
            },
            None => {},
        }
    }
    while left > 0
        invariant
            0 <= from <= bits@.len() == total,
            held == held_table(table@),
            decode_symbols(held, bits@, count as nat) == match decode_symbols(
                held,
                bits@.skip(from as int),
                left as nat,
            ) {
                Some(rest) => Some(text@ + rest),
                None => None,
            },
        decreases left,
    {
        let ghost tail = bits@.skip(from as int);
        proof {
            lemma_find_match(held, tail);
        }
        match find_code(table, bits, from) {
            None => {
                return None;
            },
            Some(at) => {
                let entry = &table[at];
                let ghost before = text@;
                string_push(&mut text, entry.1);
                proof {
                    let len = held[at as int].0.len() as int;
                    assert(len == entry.0@.len());
                    assert(len <= tail.len());
                    assert(tail.skip(len) =~= bits@.skip(from + len));
                    match decode_symbols(held, tail.skip(len), (left - 1) as nat) {
                        Some(rest) => {
                            assert(before + (seq![entry.1] + rest) =~= before.push(entry.1) + rest);
                        },
                        None => {},
                    }
                }
                from = from + entry.0.len();
                left = left - 1;
            },
        }
    }
    assert(text@ + Seq::<char>::empty() =~= text@);
    Some(text)
}

} // verus!
