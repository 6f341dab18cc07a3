use crate::error::HuffmanError;
use crate::text::{lemma_symbol_bytes, utf8_text};
use vstd::prelude::*;
use vstd::slice::{slice_subrange, slice_to_vec};
use vstd::string::StrSliceExecFns;
use vstd::utf8::{decode_utf8, encode_utf8, valid_utf8};

verus! {

/// The four bytes that a container begins with: the letters HUFF.
pub const MAGIC_NUMBER: [u8; 4] = [0x48, 0x55, 0x46, 0x46];

/// The magic bytes as a sequence.
pub open spec fn magic() -> Seq<u8> {
    MAGIC_NUMBER@
}

/// The magic bytes are the letters H, U, F, F in ASCII.
pub proof fn lemma_magic_letters()
    ensures
        magic() == seq![0x48u8, 0x55u8, 0x46u8, 0x46u8],
        magic() == seq!['H' as u8, 'U' as u8, 'F' as u8, 'F' as u8],
{
    assert(magic() =~= seq![0x48u8, 0x55u8, 0x46u8, 0x46u8]);
    assert(magic() =~= seq!['H' as u8, 'U' as u8, 'F' as u8, 'F' as u8]);
}

/// The number that the first four bytes spell, most significant byte first.
pub open spec fn be_value(bytes: Seq<u8>) -> int {
    bytes[0] as int * 0x100_0000 + bytes[1] as int * 0x1_0000 + bytes[2] as int * 0x100
        + bytes[3] as int
}

/// The four bytes of a number, most significant first.
pub open spec fn be_bytes(n: u32) -> Seq<u8> {
    seq![
        (n / 0x100_0000) as u8,
        (n / 0x1_0000 % 0x100) as u8,
        (n / 0x100 % 0x100) as u8,
        (n % 0x100) as u8,
    ]
}

/// The number that the first eight bytes spell, most significant byte
/// first.
pub open spec fn count_value(bytes: Seq<u8>) -> int {
    be_value(bytes) * 0x1_0000_0000 + be_value(bytes.skip(4))
}

/// The eight bytes of a number, most significant first.
pub open spec fn count_bytes(n: u64) -> Seq<u8> {
    be_bytes((n / 0x1_0000_0000) as u32) + be_bytes((n % 0x1_0000_0000) as u32)
}

/// The character that stands for a bit in a container: `0` or `1`.
pub open spec fn bit_byte(bit: bool) -> u8 {
    if bit {
        0x31
    } else {
        0x30
    }
}

/// A code as the text that a container holds for it.
pub open spec fn code_text(code: Seq<bool>) -> Seq<u8> {
    Seq::new(code.len(), |i: int| bit_byte(code[i]))
}

/// One entry of a code table as a container holds it: the length of the
/// symbol's UTF-8 bytes, those bytes, the length of the code, the code.
pub open spec fn entry_bytes(entry: (char, Seq<bool>)) -> Seq<u8> {
    let key = encode_utf8(seq![entry.0]);
    seq![key.len() as u8] + key + seq![entry.1.len() as u8] + code_text(entry.1)
}

/// The entries of a code table, one after the other.
pub open spec fn table_bytes(table: Seq<(char, Seq<bool>)>) -> Seq<u8>
    decreases table.len(),
{
    if table.len() == 0 {
        Seq::empty()
    } else {
        table_bytes(table.drop_last()) + entry_bytes(table.last())
    }
}

/// Every code is short enough for the one byte that says its length.
pub open spec fn codes_fit(table: Seq<(char, Seq<bool>)>) -> bool {
    forall|i: int| 0 <= i < table.len() ==> (#[trigger] table[i]).1.len() <= 255
}

/// The head of a container: the magic bytes, the length of the code
/// table in bytes, the code table.
pub open spec fn header_bytes(table: Seq<(char, Seq<bool>)>) -> Seq<u8> {
    magic() + be_bytes(table_bytes(table).len() as u32) + table_bytes(table)
}

/// An entry is at most 261 bytes long, a table at most 261 bytes for each
/// entry.
pub proof fn lemma_table_bytes_len(table: Seq<(char, Seq<bool>)>)
    requires
        codes_fit(table),
    ensures
        table_bytes(table).len() <= 261 * table.len(),
    decreases table.len(),
{
    if table.len() > 0 {
        lemma_table_bytes_len(table.drop_last());
        lemma_symbol_bytes(table.last().0);
        assert(table.last() == table[table.len() - 1]);
    }
}

/// A number is the sum of its four bytes, each in its place.
proof fn lemma_be_digits(n: u32)
    by (bit_vector)
    ensures
        n / 0x100_0000 < 0x100,
        (n / 0x100_0000) * 0x100_0000 + (n / 0x1_0000 % 0x100) * 0x1_0000 + (n / 0x100 % 0x100)
            * 0x100 + n % 0x100 == n,
{
}

/// The four bytes of a number spell that number.
pub proof fn lemma_be_round_trip(n: u32)
    ensures
        be_value(be_bytes(n)) == n,
        be_bytes(n).len() == 4,
{
    lemma_be_digits(n);
    let bytes = be_bytes(n);
    assert(bytes[0] as int == n / 0x100_0000);
    assert(bytes[1] as int == n / 0x1_0000 % 0x100);
    assert(bytes[2] as int == n / 0x100 % 0x100);
    assert(bytes[3] as int == n % 0x100);
}

/// The eight bytes of a number spell that number.
pub proof fn lemma_count_round_trip(n: u64)
    ensures
        count_value(count_bytes(n)) == n,
        count_bytes(n).len() == 8,
{
    let high = (n / 0x1_0000_0000) as u32;
    let low = (n % 0x1_0000_0000) as u32;
    lemma_be_round_trip(high);
    lemma_be_round_trip(low);
    let bytes = count_bytes(n);
    assert(bytes.skip(4) =~= be_bytes(low));
    assert(be_value(bytes) == be_value(be_bytes(high))) by {
        assert(bytes[0] == be_bytes(high)[0]);
        assert(bytes[1] == be_bytes(high)[1]);
        assert(bytes[2] == be_bytes(high)[2]);
        assert(bytes[3] == be_bytes(high)[3]);
    }
}

/// The bytes of a number, most significant first.
pub fn u32_be_bytes(n: u32) -> (bytes: [u8; 4])
    ensures
        bytes@ == be_bytes(n),
{
    let bytes = [
        (n / 0x100_0000) as u8,
        (n / 0x1_0000 % 0x100) as u8,
        (n / 0x100 % 0x100) as u8,
        (n % 0x100) as u8,
    ];
    assert(bytes@ =~= be_bytes(n));
    bytes
}

/// The eight bytes of a number, most significant first.
pub fn u64_be_bytes(n: u64) -> (bytes: [u8; 8])
    ensures
        bytes@ == count_bytes(n),
{
    let high = u32_be_bytes((n / 0x1_0000_0000) as u32);
    let low = u32_be_bytes((n % 0x1_0000_0000) as u32);
    let bytes = [high[0], high[1], high[2], high[3], low[0], low[1], low[2], low[3]];
    assert(bytes@ =~= count_bytes(n));
    bytes
}

/// Appends the bytes of `more` to `bytes`.
pub fn append_bytes(bytes: &mut Vec<u8>, more: &[u8])
    ensures
        final(bytes)@ == old(bytes)@ + more@,
{
    let mut next: usize = 0;
    while next < more.len()
        invariant
            0 <= next <= more@.len(),
            bytes@ == old(bytes)@ + more@.take(next as int),
        decreases more@.len() - next,
    {
        bytes.push(more[next]);
        next = next + 1;
        assert(bytes@ =~= old(bytes)@ + more@.take(next as int));
    }
    assert(more@.take(next as int) =~= more@);
}

/// Appends a code as text: a `0` or a `1` for each bit.
pub fn append_code_text(bytes: &mut Vec<u8>, code: &Vec<bool>)
    ensures
        final(bytes)@ == old(bytes)@ + code_text(code@),
{
    let mut next: usize = 0;
    while next < code.len()
        invariant
            0 <= next <= code@.len(),
            bytes@ == old(bytes)@ + code_text(code@.take(next as int)),
        decreases code@.len() - next,
    {
        let byte: u8 = if code[next] { 0x31 } else { 0x30 };
        bytes.push(byte);
        next = next + 1;
        assert(bytes@ =~= old(bytes)@ + code_text(code@.take(next as int)));
    }
    assert(code@.take(next as int) =~= code@);
}

/// What the code table of a container parses into: its entries in their
/// order, each a code as text with its symbol, and the bytes that follow
/// the table.
pub struct Parsed {
    pub table: Seq<(Seq<u8>, char)>,
    pub payload: Seq<u8>,
}

/// What a container parses into: the entries of its code table, the
/// number of symbols that its payload holds, and the payload.
pub struct Container {
    pub table: Seq<(Seq<u8>, char)>,
    pub count: nat,
    pub payload: Seq<u8>,
}

/// The entry that `bytes` begin with, and the number of bytes it takes:
/// the length of the symbol, the symbol's UTF-8 bytes, the length of the
/// code, the code's bytes.
pub open spec fn parse_entry(bytes: Seq<u8>) -> Result<((Seq<u8>, char), int), HuffmanError> {
    if bytes.len() < 1 {
        Err(HuffmanError::Truncated)
    } else {
        let key_len = bytes[0] as int;
        if bytes.len() < 1 + key_len {
            Err(HuffmanError::Truncated)
        } else if !valid_utf8(bytes.subrange(1, 1 + key_len)) {
            Err(HuffmanError::BadText)
        } else if bytes.len() < 2 + key_len {
            Err(HuffmanError::Truncated)
        } else {
            let code_len = bytes[1 + key_len] as int;
            if bytes.len() < 2 + key_len + code_len {
                Err(HuffmanError::Truncated)
            } else if !valid_utf8(bytes.subrange(2 + key_len, 2 + key_len + code_len)) {
                Err(HuffmanError::BadText)
            } else if decode_utf8(bytes.subrange(1, 1 + key_len)).len() == 0 {
                Err(HuffmanError::BadTable)
            } else {
                Ok(
                    (
                        (
                            bytes.subrange(2 + key_len, 2 + key_len + code_len),
                            decode_utf8(bytes.subrange(1, 1 + key_len))[0],
                        ),
                        2 + key_len + code_len,
                    ),
                )
            }
        }
    }
}

/// The entries that fill the next `remaining` bytes exactly, and what
/// follows them.
pub open spec fn parse_entries(bytes: Seq<u8>, remaining: int) -> Result<Parsed, HuffmanError>
    decreases remaining,
{
    if remaining <= 0 {
        Ok(Parsed { table: Seq::empty(), payload: bytes })
    } else {
        match parse_entry(bytes) {
            Err(error) => Err(error),
            Ok((entry, used)) => if used > remaining {
                Err(HuffmanError::BadTable)
            } else {
                match parse_entries(bytes.skip(used), remaining - used) {
                    Err(error) => Err(error),
                    Ok(rest) => Ok(
                        Parsed { table: seq![entry] + rest.table, payload: rest.payload },
                    ),
                }
            },
        }
    }
}

/// The head of a container: after the magic bytes and the length of the
/// code table come the entries of the table; the rest follows them.
pub open spec fn parse_head(data: Seq<u8>) -> Result<Parsed, HuffmanError> {
    if data.len() < 4 || data.subrange(0, 4) != magic() {
        Err(HuffmanError::BadMagic)
    } else if data.len() < 8 {
        Err(HuffmanError::Truncated)
    } else {
        parse_entries(data.skip(8), be_value(data.subrange(4, 8)))
    }
}

/// What a container parses into: after the head come the number of
/// symbols, in eight bytes, and then the payload.
pub open spec fn parse_container(data: Seq<u8>) -> Result<Container, HuffmanError> {
    match parse_head(data) {
        Err(error) => Err(error),
        Ok(head) => if head.payload.len() < 8 {
            Err(HuffmanError::Truncated)
        } else {
            Ok(
                Container {
                    table: head.table,
                    count: count_value(head.payload) as nat,
                    payload: head.payload.skip(8),
                },
            )
        },
    }
}

/// `parsed` with `front` before its entries.
pub open spec fn after(front: Seq<(Seq<u8>, char)>, parsed: Result<Parsed, HuffmanError>) -> Result<
    Parsed,
    HuffmanError,
> {
    match parsed {
        Err(error) => Err(error),
        Ok(rest) => Ok(Parsed { table: front + rest.table, payload: rest.payload }),
    }
}

/// An entry of a code table as it comes back from a container: the code
/// as text, with its symbol.
pub open spec fn stored_entry(entry: (char, Seq<bool>)) -> (Seq<u8>, char) {
    (code_text(entry.1), entry.0)
}

/// A code table as it comes back from a container.
pub open spec fn stored_table(table: Seq<(char, Seq<bool>)>) -> Seq<(Seq<u8>, char)> {
    Seq::new(table.len(), |i: int| stored_entry(table[i]))
}

/// The character that shows a bit.
pub open spec fn bit_letter(bit: bool) -> char {
    if bit {
        '1'
    } else {
        '0'
    }
}

/// A code as text is well-formed UTF-8.
pub proof fn lemma_code_text_utf8(code: Seq<bool>)
    ensures
        valid_utf8(code_text(code)),
{
    let letters = Seq::new(code.len(), |i: int| bit_letter(code[i]));
    assert(vstd::utf8::is_ascii_chars(letters));
    vstd::utf8::is_ascii_chars_encode_utf8(letters);
    assert(encode_utf8(letters) =~= code_text(code)) by {
        assert forall|i: int| 0 <= i < code.len() implies encode_utf8(letters)[i] == code_text(
            code,
        )[i] by {
            assert(letters[i] as u8 == encode_utf8(letters)[i]);
        }
    }
    vstd::utf8::encode_utf8_valid_utf8(letters);
}

/// An entry that was written is read back as it was, whatever follows it.
pub proof fn lemma_parse_entry(entry: (char, Seq<bool>), rest: Seq<u8>)
    requires
        entry.1.len() <= 255,
    ensures
        parse_entry(entry_bytes(entry) + rest) == Ok::<((Seq<u8>, char), int), HuffmanError>(
            (stored_entry(entry), entry_bytes(entry).len() as int),
        ),
        entry_bytes(entry).len() >= 2,
{
    let key = encode_utf8(seq![entry.0]);
    let code = code_text(entry.1);
    let bytes = entry_bytes(entry) + rest;
    let key_len = key.len() as int;
    let code_len = code.len() as int;
    lemma_symbol_bytes(entry.0);
    lemma_code_text_utf8(entry.1);
    assert(bytes[0] == key_len as u8);
    assert(bytes.subrange(1, 1 + key_len) =~= key);
    assert(bytes[1 + key_len] == code_len as u8);
    assert(bytes.subrange(2 + key_len, 2 + key_len + code_len) =~= code);
    assert(decode_utf8(key) =~= seq![entry.0]);
    assert(decode_utf8(key)[0] == entry.0);
}

/// The bytes of a table begin with the bytes of its first entry.
pub proof fn lemma_table_bytes_front(table: Seq<(char, Seq<bool>)>)
    requires
        table.len() > 0,
    ensures
        table_bytes(table) == entry_bytes(table[0]) + table_bytes(table.drop_first()),
    decreases table.len(),
{
    if table.len() == 1 {
        assert(table.drop_last() =~= Seq::<(char, Seq<bool>)>::empty());
        assert(table.drop_first() =~= Seq::<(char, Seq<bool>)>::empty());
        assert(table_bytes(table.drop_last()) =~= Seq::<u8>::empty());
        assert(table_bytes(table) =~= entry_bytes(table[0]) + table_bytes(table.drop_first()));
    } else {
        let front = table.drop_last();
        lemma_table_bytes_front(front);
        assert(front.drop_first() =~= table.drop_first().drop_last());
        assert(table.drop_first().last() == table.last());
        assert(front[0] == table[0]);
        assert(table_bytes(table) =~= entry_bytes(table[0]) + table_bytes(table.drop_first()));
    }
}

/// A table that was written is read back entry by entry, and what
/// follows it is left over.
pub proof fn lemma_parse_entries(table: Seq<(char, Seq<bool>)>, rest: Seq<u8>)
    requires
        codes_fit(table),
    ensures
        parse_entries(table_bytes(table) + rest, table_bytes(table).len() as int) == Ok::<
            Parsed,
            HuffmanError,
        >(Parsed { table: stored_table(table), payload: rest }),
    decreases table.len(),
{
    if table.len() == 0 {
        assert(table_bytes(table) + rest =~= rest);
        assert(stored_table(table) =~= Seq::<(Seq<u8>, char)>::empty());
    } else {
        let first = table[0];
        let others = table.drop_first();
        lemma_table_bytes_front(table);
        let tail = table_bytes(others) + rest;
        lemma_parse_entry(first, tail);
        let bytes = table_bytes(table) + rest;
        assert(bytes =~= entry_bytes(first) + tail);
        let used = entry_bytes(first).len() as int;
        assert(bytes.skip(used) =~= tail);
        assert(codes_fit(others)) by {
            assert forall|i: int| 0 <= i < others.len() implies (#[trigger] others[i]).1.len()
                <= 255 by {
                assert(others[i] == table[i + 1]);
            }
        }
        lemma_parse_entries(others, rest);
        assert(table_bytes(table).len() - used == table_bytes(others).len());
        assert(seq![stored_entry(first)] + stored_table(others) =~= stored_table(table)) by {
            assert forall|i: int| 0 <= i < table.len() implies (seq![stored_entry(first)]
                + stored_table(others))[i] == stored_table(table)[i] by {
                if i > 0 {
                    assert(others[i - 1] == table[i]);
                }
            }
        }
    }
}

/// A container is read back as it was written: the table that its head
/// was written for, the number of symbols, and the payload.
pub proof fn lemma_parse_container(table: Seq<(char, Seq<bool>)>, count: u64, payload: Seq<u8>)
    requires
        codes_fit(table),
        crate::assoc::strictly_sorted(table),
    ensures
        parse_container(header_bytes(table) + count_bytes(count) + payload) == Ok::<
            Container,
            HuffmanError,
        >(Container { table: stored_table(table), count: count as nat, payload }),
{
    let rest = count_bytes(count) + payload;
    lemma_parse_header(table, rest);
    lemma_count_round_trip(count);
    assert(header_bytes(table) + count_bytes(count) + payload =~= header_bytes(table) + rest);
    assert(rest.skip(8) =~= payload);
    assert(count_value(rest) == count_value(count_bytes(count))) by {
        assert(rest.skip(4) =~= count_bytes(count).skip(4) + payload);
        assert(rest[0] == count_bytes(count)[0]);
        assert(rest[1] == count_bytes(count)[1]);
        assert(rest[2] == count_bytes(count)[2]);
        assert(rest[3] == count_bytes(count)[3]);
        assert(rest.skip(4)[0] == count_bytes(count).skip(4)[0]);
        assert(rest.skip(4)[1] == count_bytes(count).skip(4)[1]);
        assert(rest.skip(4)[2] == count_bytes(count).skip(4)[2]);
        assert(rest.skip(4)[3] == count_bytes(count).skip(4)[3]);
    }
}

/// The head of a container is read back as the table that it was written
/// for, and what follows the head is left over.
pub proof fn lemma_parse_header(table: Seq<(char, Seq<bool>)>, payload: Seq<u8>)
    requires
        codes_fit(table),
        crate::assoc::strictly_sorted(table),
    ensures
        parse_head(header_bytes(table) + payload) == Ok::<Parsed, HuffmanError>(
            Parsed { table: stored_table(table), payload },
        ),
{
    let data = header_bytes(table) + payload;
    let size = table_bytes(table).len();
    crate::assoc::lemma_sorted_len(table);
    lemma_table_bytes_len(table);
    lemma_be_round_trip(size as u32);
    assert(data.subrange(0, 4) =~= magic());
    assert(data.subrange(4, 8) =~= be_bytes(size as u32));
    assert(data.skip(8) =~= table_bytes(table) + payload);
    lemma_parse_entries(table, payload);
}

/// The entries of a parsed table as they are held: bytes for the code.
pub open spec fn held_entry(entry: (Vec<u8>, char)) -> (Seq<u8>, char) {
    (entry.0@, entry.1)
}

/// The parsed table as a sequence of codes with their symbols.
pub open spec fn held_table(table: Seq<(Vec<u8>, char)>) -> Seq<(Seq<u8>, char)> {
    Seq::new(table.len(), |i: int| held_entry(table[i]))
}

/// `bytes::Buf::get_u8` on a byte slice: hands out the first byte and
/// moves the slice on by one. The crate panics on an empty slice, which
/// the precondition leaves out.
#[verifier::external_body]
pub(crate) fn buf_get_u8(buf: &mut &[u8]) -> (byte: u8)
    requires
        old(buf)@.len() >= 1,
    ensures
        byte == old(buf)@[0],
        final(buf)@ == old(buf)@.skip(1),
{
    bytes::Buf::get_u8(buf)
}

/// `bytes::Buf::get_u32` on a byte slice: reads the first four bytes as a
/// number, most significant byte first, and moves the slice on by four.
/// The crate panics on fewer than four bytes, which the precondition
/// leaves out.
#[verifier::external_body]
pub(crate) fn buf_get_u32(buf: &mut &[u8]) -> (value: u32)
    requires
        old(buf)@.len() >= 4,
    ensures
        value == be_value(old(buf)@),
        final(buf)@ == old(buf)@.skip(4),
{
    bytes::Buf::get_u32(buf)
}

/// `bytes::Buf::get_u64` on a byte slice: reads the first eight bytes as
/// a number, most significant byte first, and moves the slice on by
/// eight. The crate panics on fewer than eight bytes, which the
/// precondition leaves out.
#[verifier::external_body]
pub(crate) fn buf_get_u64(buf: &mut &[u8]) -> (value: u64)
    requires
        old(buf)@.len() >= 8,
    ensures
        value == count_value(old(buf)@),
        final(buf)@ == old(buf)@.skip(8),
{
    bytes::Buf::get_u64(buf)
}

/// Reads one entry of a code table from the front of `buf` and moves
/// `buf` past it: the code as its bytes, the symbol, and the number of
/// bytes that the entry took.
pub fn read_entry<'a>(buf: &mut &'a [u8]) -> (entry: Result<(Vec<u8>, char, u32), HuffmanError>)
    ensures
        match entry {
            Ok((code, symbol, used)) => {
                &&& parse_entry(old(buf)@) == Ok::<((Seq<u8>, char), int), HuffmanError>(
                    ((code@, symbol), used as int),
                )
                &&& 2 <= used <= old(buf)@.len()
                &&& final(buf)@ == old(buf)@.skip(used as int)
            },
            Err(error) => parse_entry(old(buf)@) == Err::<((Seq<u8>, char), int), HuffmanError>(
                error,
            ) && error.format(),
        },
{
    let ghost here = buf@;
    if buf.len() < 1 {
        return Err(HuffmanError::Truncated);
    }
    let key_len = buf_get_u8(buf) as usize;
    if buf.len() < key_len {
        return Err(HuffmanError::Truncated);
    }
    let key_bytes = slice_subrange(*buf, 0, key_len);
    assert(key_bytes@ =~= here.subrange(1, 1 + key_len));
    let key = match utf8_text(key_bytes) {
        Ok(key) => key,
        Err(_) => {
            return Err(HuffmanError::BadText);
        },
    };
    *buf = slice_subrange(*buf, key_len, buf.len());
    assert(buf@ =~= here.skip(1 + key_len));
    if buf.len() < 1 {
        return Err(HuffmanError::Truncated);
    }
    let code_len = buf_get_u8(buf) as usize;
    if buf.len() < code_len {
        return Err(HuffmanError::Truncated);
    }
    let code_bytes = slice_subrange(*buf, 0, code_len);
    assert(code_bytes@ =~= here.subrange(2 + key_len, 2 + key_len + code_len));
    if utf8_text(code_bytes).is_err() {
        return Err(HuffmanError::BadText);
    }
    *buf = slice_subrange(*buf, code_len, buf.len());
    assert(buf@ =~= here.skip(2 + key_len + code_len));
    if key.is_empty() {
        return Err(HuffmanError::BadTable);
    }
    let symbol = key.get_char(0);
    let used: u32 = 2 + key_len as u32 + code_len as u32;
    Ok((slice_to_vec(code_bytes), symbol, used))
}

/// Reads a container up to its payload: checks the magic bytes, reads
/// the length of the code table, its entries and the number of symbols,
/// and hands them out with the payload.
pub fn read_table<'a>(data: &'a [u8]) -> (parsed: Result<
    (Vec<(Vec<u8>, char)>, u64, &'a [u8]),
    HuffmanError,
>)
    ensures
        match parsed {
            Ok((table, count, payload)) => parse_container(data@) == Ok::<
                Container,
                HuffmanError,
            >(Container { table: held_table(table@), count: count as nat, payload: payload@ })
                && payload@.len() <= data@.len(),
            Err(error) => parse_container(data@) == Err::<Container, HuffmanError>(error)
                && error.format(),
        },
{
    if data.len() < 4 || data[0] != MAGIC_NUMBER[0] || data[1] != MAGIC_NUMBER[1] || data[2]
        != MAGIC_NUMBER[2] || data[3] != MAGIC_NUMBER[3] {
        proof {
            if data@.len() >= 4 {
                assert(data@.subrange(0, 4)[0] == data@[0]);
                assert(data@.subrange(0, 4)[1] == data@[1]);
                assert(data@.subrange(0, 4)[2] == data@[2]);
                assert(data@.subrange(0, 4)[3] == data@[3]);
            }
        }
        return Err(HuffmanError::BadMagic);
    }
    assert(data@.subrange(0, 4) =~= magic());
    let mut buf: &[u8] = data;
    let _ = buf_get_u32(&mut buf);
    if buf.len() < 4 {
        return Err(HuffmanError::Truncated);
    }
    let table_len = buf_get_u32(&mut buf);
    proof {
        assert(data@.skip(4).skip(4) =~= data@.skip(8));
        assert(be_value(data@.skip(4)) == be_value(data@.subrange(4, 8)));
    }
    let ghost start = buf@;
    let mut remaining: u32 = table_len;
    let mut table: Vec<(Vec<u8>, char)> = Vec::new();
    assert(held_table(table@) + Seq::<(Seq<u8>, char)>::empty() =~= held_table(table@));
    while remaining > 0
        invariant
            buf@.len() <= data@.len(),
            parse_head(data@) == parse_entries(start, table_len as int),
            after(held_table(table@), parse_entries(buf@, remaining as int)) == parse_entries(
                start,
                table_len as int,
            ),
        decreases remaining,
    {
        let (code, symbol, used) = match read_entry(&mut buf) {
            Ok(entry) => entry,
            Err(error) => {
                return Err(error);
            },
        };
        if used > remaining {
            return Err(HuffmanError::BadTable);
        }
        let ghost before = held_table(table@);
        let ghost entry = (code@, symbol);
        table.push((code, symbol));
        remaining = remaining - used;
        proof {
            assert(held_table(table@) =~= before.push(entry));
            match parse_entries(buf@, remaining as int) {
                Ok(rest) => {
                    assert(before + (seq![entry] + rest.table) =~= before.push(entry)
                        + rest.table);
                },
                Err(_) => {},
            }
        }
    }
    if buf.len() < 8 {
        return Err(HuffmanError::Truncated);
    }
    let count = buf_get_u64(&mut buf);
    Ok((table, count, buf))
}

} // verus!
