use vstd::prelude::*;

verus! {

/// What the bit at place `k` of a byte is worth; place 0 is the most
/// significant.
pub open spec fn place(k: int) -> int {
    if k == 0 {
        128
    } else if k == 1 {
        64
    } else if k == 2 {
        32
    } else if k == 3 {
        16
    } else if k == 4 {
        8
    } else if k == 5 {
        4
    } else if k == 6 {
        2
    } else {
        1
    }
}

/// A bit as a number.
pub open spec fn bit_number(bit: bool) -> u32 {
    if bit {
        1
    } else {
        0
    }
}

/// The byte that eight bits make, the first bit being the most significant.
pub open spec fn byte_of(bits: Seq<bool>) -> u8 {
    (128 * bit_number(bits[0]) + 64 * bit_number(bits[1]) + 32 * bit_number(bits[2]) + 16
        * bit_number(bits[3]) + 8 * bit_number(bits[4]) + 4 * bit_number(bits[5]) + 2 * bit_number(
        bits[6],
    ) + bit_number(bits[7])) as u8
}

/// The bit at place `k` of a byte.
pub open spec fn bit_of(byte: u8, k: int) -> bool {
    (byte as int / place(k)) % 2 == 1
}

/// The number of bits that bring a string of `len` bits up to a whole
/// number of bytes.
pub open spec fn padding(len: nat) -> nat {
    ((8 - len % 8) % 8) as nat
}

/// The bits followed by as many 0 bits as fill the last byte.
pub open spec fn padded(bits: Seq<bool>) -> Seq<bool> {
    bits + Seq::new(padding(bits.len()), |i: int| false)
}

/// The bytes that hold the bits eight by eight, the first bit of each
/// eight being the most significant of its byte.
pub open spec fn pack(bits: Seq<bool>) -> Seq<u8> {
    Seq::new(bits.len() / 8, |i: int| byte_of(bits.subrange(8 * i, 8 * i + 8)))
}

/// The bits of the bytes, eight for each, most significant first.
pub open spec fn unpack(bytes: Seq<u8>) -> Seq<bool> {
    Seq::new(8 * bytes.len(), |i: int| bit_of(bytes[i / 8], i % 8))
}

/// The binary digits of a sum of powers of two are the factors of the
/// powers.
proof fn lemma_digits(a: u32, b: u32, c: u32, d: u32, e: u32, f: u32, g: u32, h: u32)
    by (bit_vector)
    requires
        a <= 1,
        b <= 1,
        c <= 1,
        d <= 1,
        e <= 1,
        f <= 1,
        g <= 1,
        h <= 1,
    ensures
        128 * a + 64 * b + 32 * c + 16 * d + 8 * e + 4 * f + 2 * g + h < 256,
        (128 * a + 64 * b + 32 * c + 16 * d + 8 * e + 4 * f + 2 * g + h) / 128 % 2 == a,
        (128 * a + 64 * b + 32 * c + 16 * d + 8 * e + 4 * f + 2 * g + h) / 64 % 2 == b,
        (128 * a + 64 * b + 32 * c + 16 * d + 8 * e + 4 * f + 2 * g + h) / 32 % 2 == c,
        (128 * a + 64 * b + 32 * c + 16 * d + 8 * e + 4 * f + 2 * g + h) / 16 % 2 == d,
        (128 * a + 64 * b + 32 * c + 16 * d + 8 * e + 4 * f + 2 * g + h) / 8 % 2 == e,
        (128 * a + 64 * b + 32 * c + 16 * d + 8 * e + 4 * f + 2 * g + h) / 4 % 2 == f,
        (128 * a + 64 * b + 32 * c + 16 * d + 8 * e + 4 * f + 2 * g + h) / 2 % 2 == g,
        (128 * a + 64 * b + 32 * c + 16 * d + 8 * e + 4 * f + 2 * g + h) % 2 == h,
{
}

/// Each bit of a packed byte is the bit that went into it.
pub proof fn lemma_bit_of_byte(bits: Seq<bool>, k: int)
    requires
        bits.len() == 8,
        0 <= k < 8,
    ensures
        bit_of(byte_of(bits), k) == bits[k],
{
    lemma_digits(
        bit_number(bits[0]),
        bit_number(bits[1]),
        bit_number(bits[2]),
        bit_number(bits[3]),
        bit_number(bits[4]),
        bit_number(bits[5]),
        bit_number(bits[6]),
        bit_number(bits[7]),
    );
}

/// Unpacking what was packed gives the bits back.
pub proof fn lemma_unpack_pack(bits: Seq<bool>)
    requires
        bits.len() % 8 == 0,
    ensures
        unpack(pack(bits)) == bits,
{
    let back = unpack(pack(bits));
    assert(back.len() == bits.len());
    assert forall|i: int| 0 <= i < bits.len() implies back[i] == bits[i] by {
        let chunk = bits.subrange(8 * (i / 8), 8 * (i / 8) + 8);
        lemma_bit_of_byte(chunk, i % 8);
        assert(chunk[i % 8] == bits[i]);
    }
    assert(back =~= bits);
}

/// Padding completes the last byte and adds fewer than eight bits.
pub proof fn lemma_padded(bits: Seq<bool>)
    ensures
        padded(bits).len() % 8 == 0,
        padded(bits).len() == bits.len() + padding(bits.len()),
        padding(bits.len()) < 8,
        padded(bits).take(bits.len() as int) == bits,
{
    assert(padded(bits).take(bits.len() as int) =~= bits);
}

/// Appends 0 bits until the length is a multiple of eight.
pub fn pad_bits(bits: &mut Vec<bool>)
    ensures
        final(bits)@ == padded(old(bits)@),
{
    let ghost start = bits@;
    while bits.len() % 8 != 0
        invariant
            start.len() <= bits@.len() <= start.len() + padding(start.len()),
            bits@.len() < start.len() + padding(start.len()) ==> bits@.len() % 8 != 0,
            bits@ == start + Seq::new((bits@.len() - start.len()) as nat, |i: int| false),
        decreases start.len() + padding(start.len()) - bits@.len(),
    {
        bits.push(false);
        assert(bits@ =~= start + Seq::new((bits@.len() - start.len()) as nat, |i: int| false));
    }
    assert(bits@ =~= padded(start));
}

/// The byte that the eight bits from place `base` on make.
pub fn pack_byte(bits: &Vec<bool>, base: usize) -> (byte: u8)
    requires
        base + 8 <= bits.len(),
    ensures
        byte == byte_of(bits@.subrange(base as int, base + 8)),
{
    let ghost chunk = bits@.subrange(base as int, base + 8);
    let b0: u8 = if bits[base] { 128 } else { 0 };
    assert(b0 == 128 * bit_number(chunk[0]));
    let b1: u8 = if bits[base + 1] { 64 } else { 0 };
    assert(b1 == 64 * bit_number(chunk[1]));
    let b2: u8 = if bits[base + 2] { 32 } else { 0 };
    assert(b2 == 32 * bit_number(chunk[2]));
    let b3: u8 = if bits[base + 3] { 16 } else { 0 };
    assert(b3 == 16 * bit_number(chunk[3]));
    let b4: u8 = if bits[base + 4] { 8 } else { 0 };
    assert(b4 == 8 * bit_number(chunk[4]));
    let b5: u8 = if bits[base + 5] { 4 } else { 0 };
    assert(b5 == 4 * bit_number(chunk[5]));
    let b6: u8 = if bits[base + 6] { 2 } else { 0 };
    assert(b6 == 2 * bit_number(chunk[6]));
    let b7: u8 = if bits[base + 7] { 1 } else { 0 };
    assert(b7 == bit_number(chunk[7]));
    b0 + b1 + b2 + b3 + b4 + b5 + b6 + b7
}

/// Packs bits into bytes, eight to a byte.
pub fn pack_bits(bits: &Vec<bool>) -> (bytes: Vec<u8>)
    requires
        bits@.len() % 8 == 0,
    ensures
        bytes@ == pack(bits@),
{
    let mut bytes: Vec<u8> = Vec::new();
    let count = bits.len() / 8;
    let mut next: usize = 0;
    while next < count
        invariant
            0 <= next <= count,
            8 * count == bits@.len(),
            bits@.len() <= usize::MAX,
            bytes@.len() == next,
            forall|i: int|
                0 <= i < next ==> bytes@[i] == byte_of(#[trigger] bits@.subrange(8 * i, 8 * i + 8)),
        decreases count - next,
    {
        let byte = pack_byte(bits, next * 8);
        bytes.push(byte);
        next = next + 1;
    }
    assert(bytes@ =~= pack(bits@));
    bytes
}

/// Appends the eight bits of a byte, most significant first.
pub fn unpack_byte(bits: &mut Vec<bool>, byte: u8)
    ensures
        final(bits)@.len() == old(bits)@.len() + 8,
        forall|i: int| 0 <= i < old(bits)@.len() ==> final(bits)@[i] == old(bits)@[i],
        forall|k: int| 0 <= k < 8 ==> final(bits)@[old(bits)@.len() + k] == bit_of(byte, k),
{
    let mut k: usize = 0;
    let mut worth: u8 = 128;
    while k < 8
        invariant
            0 <= k <= 8,
            k < 8 ==> worth == place(k as int),
            bits@.len() == old(bits)@.len() + k,
            forall|i: int| 0 <= i < old(bits)@.len() ==> bits@[i] == old(bits)@[i],
            forall|j: int| 0 <= j < k ==> bits@[old(bits)@.len() + j] == bit_of(byte, j),
        decreases 8 - k,
    {
        bits.push(byte / worth % 2 == 1);
        k = k + 1;
        worth = worth / 2;
    }
}

/// Spreads bytes out into their bits, eight for each.
pub fn unpack_bits(bytes: &[u8]) -> (bits: Vec<bool>)
    requires
        8 * bytes@.len() <= usize::MAX,
    ensures
        bits@ == unpack(bytes@),
{
    let mut bits: Vec<bool> = Vec::new();
    let mut next: usize = 0;
    while next < bytes.len()
        invariant
            0 <= next <= bytes@.len(),
            bits@.len() == 8 * next,
            forall|i: int|
                #![trigger bits@[i]]
                0 <= i < 8 * next ==> bits@[i] == bit_of(bytes@[i / 8], i % 8),
        decreases bytes@.len() - next,
    {
        let ghost before = bits@;
        unpack_byte(&mut bits, bytes[next]);
        proof {
            assert forall|i: int| #![trigger bits@[i]] 0 <= i < 8 * (next + 1) implies bits@[i]
                == bit_of(bytes@[i / 8], i % 8) by {
                if i < 8 * next {
                    assert(bits@[i] == before[i]);
                } else {
                    let k = i - 8 * next;
                    assert(bits@[before.len() + k] == bit_of(bytes@[next as int], k));
                    assert(i / 8 == next && i % 8 == k);
                }
            }
        }
        next = next + 1;
    }
    assert(bits@ =~= unpack(bytes@));
    bits
}

} // verus!
