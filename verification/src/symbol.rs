//! Static RFC 1951 symbol tables and helpers.

use vstd::arithmetic::power2::{lemma2_to64, pow2};
use vstd::prelude::*;

verus! {

/// Maximum code width allowed for any DEFLATE Huffman code.
pub const MAX_BITS: u8 = 15;

/// End-of-block symbol in the literal/length alphabet.
pub const END_OF_BLOCK: u16 = 256;

/// Maximum back-reference distance.
pub const WINDOW_SIZE: usize = 32_768;

/// Minimum LZ77 match length.
pub const MIN_MATCH: usize = 3;

/// Maximum LZ77 match length.
pub const MAX_MATCH: usize = 258;

/// Maximum payload size of a stored (BTYPE=00) block.
pub const MAX_STORED_BLOCK: usize = 0xFFFF;

/// The code-length alphabet's symbols appear in this order when transmitted.
pub const BITWIDTH_CODE_ORDER: [usize; 19] = [
    16, 17, 18, 0, 8, 7, 9, 6, 10, 5, 11, 4, 12, 3, 13, 2, 14, 1, 15,
];

/// Length codes: `(base_length, extra_bits)` for symbols 257..=285.
pub const LENGTH_TABLE: [(u16, u8); 29] = [
    (3, 0), (4, 0), (5, 0), (6, 0), (7, 0), (8, 0), (9, 0), (10, 0), (11, 1), (13, 1),
    (15, 1), (17, 1), (19, 2), (23, 2), (27, 2), (31, 2), (35, 3), (43, 3), (51, 3), (59, 3),
    (67, 4), (83, 4), (99, 4), (115, 4), (131, 5), (163, 5), (195, 5), (227, 5), (258, 0),
];

/// Distance codes: `(base_distance, extra_bits)` for symbols 0..=29.
pub const DISTANCE_TABLE: [(u16, u8); 30] = [
    (1, 0), (2, 0), (3, 0), (4, 0), (5, 1), (7, 1), (9, 2), (13, 2), (17, 3), (25, 3),
    (33, 4), (49, 4), (65, 5), (97, 5), (129, 6), (193, 6), (257, 7), (385, 7), (513, 8),
    (769, 8), (1025, 9), (1537, 9), (2049, 10), (3073, 10), (4097, 11), (6145, 11), (8193, 12),
    (12_289, 12), (16_385, 13), (24_577, 13),
];

/// Result of encoding a literal/length or distance value into a Huffman
/// alphabet symbol plus optional extra bits.
#[derive(Debug, Clone, Copy)]
pub struct EncodedSymbol {
    /// The symbol.
    pub code: u16,
    /// The number of extra bits that follow the symbol, and their value.
    pub extra: Option<(u8, u16)>,
}

/// The last of the first `n` entries of `table` whose base does not exceed
/// `value`.
pub open spec fn last_base(table: Seq<(u16, u8)>, value: nat, n: nat) -> nat
    decreases n,
{
    if n <= 1 || table[n - 1].0 <= value {
        (n - 1) as nat
    } else {
        last_base(table, value, (n - 1) as nat)
    }
}

/// The entry of [`LENGTH_TABLE`] that encodes the match length `length`.
pub open spec fn length_index(length: nat) -> nat {
    last_base(LENGTH_TABLE@, length, 29)
}

/// The entry of [`DISTANCE_TABLE`] that encodes `distance`.
pub open spec fn distance_index(distance: nat) -> nat {
    last_base(DISTANCE_TABLE@, distance, 30)
}

/// The symbol and the extra bits that entry `index` of `table` gives to
/// `value`, when the symbols of the table start at `first`.
pub open spec fn encoded(
    table: Seq<(u16, u8)>,
    first: nat,
    index: nat,
    value: nat,
) -> EncodedSymbol {
    let (base, extra_bits) = table[index as int];
    EncodedSymbol {
        code: (first + index) as u16,
        extra: if extra_bits > 0 {
            Some((extra_bits, (value - base) as u16))
        } else {
            None
        },
    }
}

proof fn lemma_last_base(table: Seq<(u16, u8)>, value: nat, n: nat)
    requires
        0 < n <= table.len(),
        table[0].0 <= value,
    ensures
        0 <= last_base(table, value, n) < n,
        table[last_base(table, value, n) as int].0 <= value,
        last_base(table, value, n) < n - 1 ==> value < table[last_base(
            table,
            value,
            n,
        ) as int + 1].0,
    decreases n,
{
    if n > 1 && table[n - 1].0 > value {
        lemma_last_base(table, value, (n - 1) as nat);
    }
}

/// A match length is its base and an offset that its extra bits can hold.
pub proof fn lemma_length_index(length: nat)
    requires
        3 <= length <= 258,
    ensures
        length_index(length) < 29,
        LENGTH_TABLE@[length_index(length) as int].0 <= length,
        LENGTH_TABLE@[length_index(length) as int].1 <= 5,
        length - LENGTH_TABLE@[length_index(length) as int].0 < pow2(
            LENGTH_TABLE@[length_index(length) as int].1 as nat,
        ),
{
    lemma2_to64();
    lemma_last_base(LENGTH_TABLE@, length, 29);
}

/// A distance is its base and an offset that its extra bits can hold.
pub proof fn lemma_distance_index(distance: nat)
    requires
        1 <= distance <= 32768,
    ensures
        distance_index(distance) < 30,
        DISTANCE_TABLE@[distance_index(distance) as int].0 <= distance,
        DISTANCE_TABLE@[distance_index(distance) as int].1 <= 13,
        distance - DISTANCE_TABLE@[distance_index(distance) as int].0 < pow2(
            DISTANCE_TABLE@[distance_index(distance) as int].1 as nat,
        ),
{
    lemma2_to64();
    lemma_last_base(DISTANCE_TABLE@, distance, 30);
}

/// The symbol and extra bits of a match length.
pub fn length_to_symbol(length: u16) -> (symbol: EncodedSymbol)
    requires
        length >= 3,
    ensures
        symbol == encoded(LENGTH_TABLE@, 257, length_index(length as nat), length as nat),
        257 <= symbol.code <= 285,
{
    // Iterate from the high end; the first entry whose base is <= length
    // is the correct code. This naturally handles the special case of
    // length=258 (code 285) whose single-value range would otherwise
    // overlap with the 227..=257 range of code 284.
    let mut index: usize = 28;
    while length < LENGTH_TABLE[index].0
        invariant
            index < 29,
            length >= 3,
            last_base(LENGTH_TABLE@, length as nat, (index + 1) as nat) == length_index(
                length as nat,
            ),
        decreases index,
    {
        index -= 1;
    }
    let (base, extra_bits): (u16, u8) = LENGTH_TABLE[index];
    EncodedSymbol {
        code: 257 + index as u16,
        extra: if extra_bits > 0 {
            Some((extra_bits, length - base))
        } else {
            None
        },
    }
}

/// The symbol and extra bits of a distance.
pub fn distance_to_symbol(distance: u16) -> (symbol: EncodedSymbol)
    requires
        distance >= 1,
    ensures
        symbol == encoded(DISTANCE_TABLE@, 0, distance_index(distance as nat), distance as nat),
        symbol.code < 30,
{
    let mut index: usize = 29;
    while distance < DISTANCE_TABLE[index].0
        invariant
            index < 30,
            distance >= 1,
            last_base(DISTANCE_TABLE@, distance as nat, (index + 1) as nat) == distance_index(
                distance as nat,
            ),
        decreases index,
    {
        index -= 1;
    }
    let (base, extra_bits): (u16, u8) = DISTANCE_TABLE[index];
    EncodedSymbol {
        code: index as u16,
        extra: if extra_bits > 0 {
            Some((extra_bits, distance - base))
        } else {
            None
        },
    }
}

/// The code widths of the literal/length alphabet in a fixed block.
pub open spec fn fixed_literal_lengths() -> Seq<u8> {
    Seq::new(
        288,
        |i: int|
            if i <= 143 {
                8u8
            } else if i <= 255 {
                9u8
            } else if i <= 279 {
                7u8
            } else {
                8u8
            },
    )
}

/// The code widths of the distance alphabet in a fixed block.
pub open spec fn fixed_distance_lengths() -> Seq<u8> {
    Seq::new(30, |i: int| 5u8)
}

/// Fixed-block literal/length code lengths per RFC 1951 §3.2.6.
pub fn fixed_literal_code_lengths() -> (lengths: [u8; 288])
    ensures
        lengths@ == fixed_literal_lengths(),
        forall|s: int| 0 <= s < 144 ==> #[trigger] lengths@[s] == 8,
        forall|s: int| 144 <= s < 256 ==> #[trigger] lengths@[s] == 9,
        forall|s: int| 256 <= s < 280 ==> #[trigger] lengths@[s] == 7,
        forall|s: int| 280 <= s < 288 ==> #[trigger] lengths@[s] == 8,
{
    let mut lengths: [u8; 288] = [0u8; 288];
    let mut index: usize = 0;
    while index < 288
        invariant
            index <= 288,
            forall|i: int| 0 <= i < index ==> lengths@[i] == fixed_literal_lengths()[i],
        decreases 288 - index,
    {
        lengths[index] = if index <= 143 {
            8
        } else if index <= 255 {
            9
        } else if index <= 279 {
            7
        } else {
            8
        };
        index += 1;
    }
    assert(lengths@ =~= fixed_literal_lengths());
    lengths
}

/// Fixed-block distance code lengths per RFC 1951 §3.2.6 (all 5).
pub fn fixed_distance_code_lengths() -> (lengths: [u8; 30])
    ensures
        lengths@ == fixed_distance_lengths(),
        forall|s: int| 0 <= s < 30 ==> #[trigger] lengths@[s] == 5,
{
    let lengths: [u8; 30] = [5u8; 30];
    assert(lengths@ =~= fixed_distance_lengths());
    lengths
}

// ---------------------------------------------------------------------------
// The tables of RFC 1951
// ---------------------------------------------------------------------------

/// The limits of the format: back-references are of 3 to 258 bytes and reach
/// 32768 bytes back, a stored block holds up to 65535 bytes, a code has up to
/// fifteen bits, and symbol 256 ends a block.
pub proof fn lemma_limits()
    ensures
        MIN_MATCH == 3,
        MAX_MATCH == 258,
        WINDOW_SIZE == 32768,
        MAX_STORED_BLOCK == 65535,
        MAX_BITS == 15,
        END_OF_BLOCK == 256,
{
}

/// The widths of the codes of a fixed block, symbol by symbol.
pub proof fn lemma_fixed_widths()
    ensures
        fixed_literal_lengths().len() == 288,
        forall|s: int| 0 <= s < 144 ==> #[trigger] fixed_literal_lengths()[s] == 8,
        forall|s: int| 144 <= s < 256 ==> #[trigger] fixed_literal_lengths()[s] == 9,
        forall|s: int| 256 <= s < 280 ==> #[trigger] fixed_literal_lengths()[s] == 7,
        forall|s: int| 280 <= s < 288 ==> #[trigger] fixed_literal_lengths()[s] == 8,
        fixed_distance_lengths().len() == 30,
        forall|s: int| 0 <= s < 30 ==> #[trigger] fixed_distance_lengths()[s] == 5,
{
}

/// The ranges of the length symbols follow one another from 3 on, four of them
/// for each number of extra bits behind the first four. The last symbol has a
/// range of its own: it is 258 and nothing else.
pub proof fn lemma_length_ranges(i: int)
    requires
        0 <= i < 29,
    ensures
        LENGTH_TABLE@[0].0 == 3,
        LENGTH_TABLE@[28].0 == 258,
        LENGTH_TABLE@[i].1 == if i < 4 || i == 28 {
            0
        } else {
            (i - 4) / 4
        },
        i < 27 ==> LENGTH_TABLE@[i + 1].0 == LENGTH_TABLE@[i].0 + pow2(LENGTH_TABLE@[i].1 as nat),
        LENGTH_TABLE@[27].0 + pow2(LENGTH_TABLE@[27].1 as nat) == 259,
{
    lemma2_to64();
}

/// The ranges of the distance symbols follow one another from 1 to 32768, two of
/// them for each number of extra bits behind the first two.
pub proof fn lemma_distance_ranges(i: int)
    requires
        0 <= i < 30,
    ensures
        DISTANCE_TABLE@[0].0 == 1,
        DISTANCE_TABLE@[i].1 == if i < 2 {
            0
        } else {
            (i - 2) / 2
        },
        i < 29 ==> DISTANCE_TABLE@[i + 1].0 == DISTANCE_TABLE@[i].0 + pow2(
            DISTANCE_TABLE@[i].1 as nat,
        ),
        DISTANCE_TABLE@[29].0 + pow2(DISTANCE_TABLE@[29].1 as nat) == 32769,
{
    lemma2_to64();
}

/// The widths of the code-length alphabet are sent in an order that starts with
/// the three repeat symbols and zero, and from there on alternates upwards and
/// downwards from eight.
pub proof fn lemma_width_order(i: int)
    requires
        0 <= i < 19,
    ensures
        BITWIDTH_CODE_ORDER@[i] == if i < 3 {
            16 + i
        } else if i == 3 {
            0
        } else if i % 2 == 0 {
            8 + (i - 4) / 2
        } else {
            8 - (i - 3) / 2
        },
{
}

/// A match length has the symbol with the last base up to it, and the extra bits
/// say how far it is from the base. From 258 on it has the last symbol, which has
/// no extra bits.
pub proof fn lemma_length_symbol(length: nat)
    requires
        length >= 3,
    ensures
        ({
            let symbol = encoded(LENGTH_TABLE@, 257, length_index(length), length);
            let (base, bits) = LENGTH_TABLE@[symbol.code - 257];
            &&& 257 <= symbol.code <= 285
            &&& symbol.code == 285 <==> length >= 258
            &&& base <= length
            &&& symbol.code < 285 ==> length < base + pow2(bits as nat)
            &&& symbol.extra == if bits == 0 {
                None::<(u8, u16)>
            } else {
                Some((bits, (length - base) as u16))
            }
        }),
{
    lemma2_to64();
    lemma_last_base(LENGTH_TABLE@, length, 29);
}

/// A distance has the symbol with the last base up to it, and the extra bits say
/// how far it is from the base. They have room for that up to 32768.
pub proof fn lemma_distance_symbol(distance: nat)
    requires
        distance >= 1,
    ensures
        ({
            let symbol = encoded(DISTANCE_TABLE@, 0, distance_index(distance), distance);
            let (base, bits) = DISTANCE_TABLE@[symbol.code as int];
            &&& symbol.code < 30
            &&& base <= distance
            &&& symbol.code < 29 || distance <= 32768 ==> distance < base + pow2(bits as nat)
            &&& symbol.extra == if bits == 0 {
                None::<(u8, u16)>
            } else {
                Some((bits, (distance - base) as u16))
            }
        }),
{
    lemma2_to64();
    lemma_last_base(DISTANCE_TABLE@, distance, 30);
}

} // verus!
