//! The frame format, symbol by symbol and rule by rule.

use vstd::prelude::*;

use crate::float;
use crate::float::error;
use crate::float::error::{one, units};
use crate::float::Binary;
use crate::ook::clock;
use crate::ook::precision;
use crate::proflame;
use crate::proflame::laws;
use crate::proflame::{Frame, Keys, Problem};

verus! {

/// Bit `k` of a byte, the most significant one first.
pub open spec fn bit(value: u8, k: int) -> bool {
    if k == 0 {
        value & 0x80 != 0
    } else if k == 1 {
        value & 0x40 != 0
    } else if k == 2 {
        value & 0x20 != 0
    } else if k == 3 {
        value & 0x10 != 0
    } else if k == 4 {
        value & 0x08 != 0
    } else if k == 5 {
        value & 0x04 != 0
    } else if k == 6 {
        value & 0x02 != 0
    } else {
        value & 0x01 != 0
    }
}

/// Whether an odd number of ten symbols, two apart, is set.
pub open spec fn odd_ten(symbols: Seq<bool>, start: int) -> bool {
    symbols[start] != (symbols[start + 2] != (symbols[start + 4] != (symbols[start + 6] != (
    symbols[start + 8] != (symbols[start + 10] != (symbols[start + 12] != (symbols[start + 14] != (
    symbols[start + 16] != symbols[start + 18]))))))))
}

/// The checksum map, bit by bit: what each bit of a command byte contributes.
pub proof fn checksums_bit_by_bit(byte: u8)
    ensures
        proflame::mixed(byte) == (if byte & 0x01 != 0 {
            0x21u8
        } else {
            0
        }) ^ (if byte & 0x02 != 0 {
            0x42u8
        } else {
            0
        }) ^ (if byte & 0x04 != 0 {
            0x84u8
        } else {
            0
        }) ^ (if byte & 0x08 != 0 {
            0x08u8
        } else {
            0
        }) ^ (if byte & 0x10 != 0 {
            0x31u8
        } else {
            0
        }) ^ (if byte & 0x20 != 0 {
            0x62u8
        } else {
            0
        }) ^ (if byte & 0x40 != 0 {
            0xc4u8
        } else {
            0
        }) ^ (if byte & 0x80 != 0 {
            0x88u8
        } else {
            0
        }),
{
    assert(proflame::mixed(byte) == (if byte & 0x01 != 0 {
        0x21u8
    } else {
        0
    }) ^ (if byte & 0x02 != 0 {
        0x42u8
    } else {
        0
    }) ^ (if byte & 0x04 != 0 {
        0x84u8
    } else {
        0
    }) ^ (if byte & 0x08 != 0 {
        0x08u8
    } else {
        0
    }) ^ (if byte & 0x10 != 0 {
        0x31u8
    } else {
        0
    }) ^ (if byte & 0x20 != 0 {
        0x62u8
    } else {
        0
    }) ^ (if byte & 0x40 != 0 {
        0xc4u8
    } else {
        0
    }) ^ (if byte & 0x80 != 0 {
        0x88u8
    } else {
        0
    })) by (bit_vector);
}

/// The eight single-bit commands have these checksums, under the key zero;
/// the map being linear, they fix it.
pub proof fn single_bits_are_mixed()
    ensures
        proflame::mixed(0x01) == 0x21,
        proflame::mixed(0x02) == 0x42,
        proflame::mixed(0x04) == 0x84,
        proflame::mixed(0x08) == 0x08,
        proflame::mixed(0x10) == 0x31,
        proflame::mixed(0x20) == 0x62,
        proflame::mixed(0x40) == 0xc4,
        proflame::mixed(0x80) == 0x88,
{
    assert(proflame::mixed(0x01) == 0x21 && proflame::mixed(0x02) == 0x42 && proflame::mixed(0x04)
        == 0x84 && proflame::mixed(0x08) == 0x08 && proflame::mixed(0x10) == 0x31
        && proflame::mixed(0x20) == 0x62 && proflame::mixed(0x40) == 0xc4 && proflame::mixed(0x80)
        == 0x88) by (bit_vector);
}

/// The seven blocks of a frame, in air order: the serial number, the version,
/// the two commands, and a checksum of each command under its own key.
pub proof fn blocks_in_order(frame: Frame, keys: Keys)
    ensures
        ({
            let blocks = frame.on_air(keys);
            &&& blocks.len() == 7
            &&& blocks[0] == frame.serial1
            &&& blocks[1] == frame.serial2
            &&& blocks[2] == frame.version
            &&& blocks[3] == frame.cmd1
            &&& blocks[4] == frame.cmd2
            &&& blocks[5] ^ keys.k1 == proflame::mixed(frame.cmd1)
            &&& blocks[6] ^ keys.k2 == proflame::mixed(frame.cmd2)
        }),
{
    let a = proflame::mixed(frame.cmd1);
    let b = proflame::mixed(frame.cmd2);
    let k1 = keys.k1;
    let k2 = keys.k2;
    assert((a ^ k1) ^ k1 == a && (b ^ k2) ^ k2 == b) by (bit_vector);
}

proof fn lemma_binary(value: u8)
    ensures
        proflame::binary(value as nat, 8).len() == 8,
        forall|k: int| 0 <= k < 8 ==> #[trigger] proflame::binary(value as nat, 8)[k] == bit(
            value,
            k,
        ),
{
    reveal_with_fuel(proflame::binary, 9);
    laws::binary_length(value as nat, 8);
    assert((value & 0x80 != 0) == (value / 2 / 2 / 2 / 2 / 2 / 2 / 2 % 2 == 1) && (value & 0x40
        != 0) == (value / 2 / 2 / 2 / 2 / 2 / 2 % 2 == 1) && (value & 0x20 != 0) == (value / 2 / 2
        / 2 / 2 / 2 % 2 == 1) && (value & 0x10 != 0) == (value / 2 / 2 / 2 / 2 % 2 == 1) && (value
        & 0x08 != 0) == (value / 2 / 2 / 2 % 2 == 1) && (value & 0x04 != 0) == (value / 2 / 2 % 2
        == 1) && (value & 0x02 != 0) == (value / 2 % 2 == 1) && (value & 0x01 != 0) == (value % 2
        == 1)) by (bit_vector);
}

/// Whether an odd number of the first bits is set.
spec fn odd_of(bits: Seq<bool>, count: nat) -> bool
    decreases count,
{
    if count == 0 {
        false
    } else {
        odd_of(bits, (count - 1) as nat) != bits[count - 1]
    }
}

proof fn lemma_odd(bits: Seq<bool>, count: nat)
    requires
        count <= bits.len(),
    ensures
        (proflame::ones(bits.take(count as int)) % 2 == 1) == odd_of(bits, count),
    decreases count,
{
    if count > 0 {
        lemma_odd(bits, (count - 1) as nat);
        assert(bits.take(count as int).drop_last() =~= bits.take(count - 1));
    }
}

proof fn lemma_ones(bits: Seq<bool>)
    requires
        bits.len() >= 10,
    ensures
        (proflame::ones(bits.take(9)) % 2 == 1) == (bits[0] != (bits[1] != (bits[2] != (bits[3] != (
        bits[4] != (bits[5] != (bits[6] != (bits[7] != bits[8])))))))),
        (proflame::ones(bits.take(10)) % 2 == 1) == (bits[0] != (bits[1] != (bits[2] != (bits[3]
            != (bits[4] != (bits[5] != (bits[6] != (bits[7] != (bits[8] != bits[9]))))))))),
{
    lemma_odd(bits, 9);
    lemma_odd(bits, 10);
    reveal_with_fuel(odd_of, 11);
}

/// Whether some symbols, from one of them on, are a block with this value:
/// three marks and a space, then eleven pairs of opposite symbols, the first of
/// each pair being the eight bits of the value, most significant first, a flag
/// that is set in the first block of a frame only, a parity bit that makes the
/// number of set ones among these ten even, and a stop bit that is set.
pub open spec fn is_block(symbols: Seq<bool>, start: int, value: u8, first: bool) -> bool {
    &&& symbols[start]
    &&& symbols[start + 1]
    &&& symbols[start + 2]
    &&& !symbols[start + 3]
    &&& forall|k: int|
        #![trigger symbols[start + 5 + 2 * k]]
        0 <= k < 11 ==> symbols[start + 4 + 2 * k] != symbols[start + 5 + 2 * k]
    &&& forall|k: int|
        #![trigger symbols[start + 4 + 2 * k]]
        0 <= k < 8 ==> symbols[start + 4 + 2 * k] == bit(value, k)
    &&& symbols[start + 20] == first
    &&& !odd_ten(symbols, start + 4)
    &&& symbols[start + 24]
}

proof fn lemma_is_block(symbols: Seq<bool>, start: int, value: u8, first: bool)
    requires
        0 <= start,
        start + 26 <= symbols.len(),
        symbols.subrange(start, start + 26) == proflame::block_symbols(value, first),
    ensures
        is_block(symbols, start, value, first),
{
    let block = proflame::block_symbols(value, first);
    let bits = proflame::block_bits(value, first);
    let pairs = proflame::manchester(bits);
    lemma_binary(value);
    assert(bits.len() == 11);
    assert forall|k: int| 0 <= k < 26 implies #[trigger] symbols[start + k] == block[k] by {
        assert(symbols.subrange(start, start + 26)[k] == symbols[start + k]);
    }
    assert(symbols[start + 0] == block[0]);
    assert forall|k: int| #![trigger bits[k]] 0 <= k < 11 implies symbols[start + 4 + 2 * k]
        == bits[k] && symbols[start + 5 + 2 * k] == !bits[k] by {
        assert(symbols[start + (4 + 2 * k)] == block[4 + 2 * k]);
        assert(symbols[start + (5 + 2 * k)] == block[5 + 2 * k]);
        assert(block[4 + 2 * k] == pairs[2 * k]);
        assert(block[5 + 2 * k] == pairs[2 * k + 1]);
    }
    assert forall|k: int| #![trigger symbols[start + 5 + 2 * k]] 0 <= k < 11 implies symbols[start
        + 4 + 2 * k] != symbols[start + 5 + 2 * k] by {
        assert(symbols[start + 5 + 2 * k] == !bits[k]);
    }
    assert forall|k: int| #![trigger symbols[start + 4 + 2 * k]] 0 <= k < 8 implies symbols[start
        + 4 + 2 * k] == bit(value, k) by {
        assert(bits[k] == proflame::binary(value as nat, 8)[k]);
    }
    let flagged = proflame::binary(value as nat, 8).push(first);
    assert(bits.take(9) =~= flagged);
    lemma_ones(bits);
    assert(bits[0] == symbols[start + 4] && bits[1] == symbols[start + 6] && bits[2]
        == symbols[start + 8] && bits[3] == symbols[start + 10] && bits[4] == symbols[start + 12]
        && bits[5] == symbols[start + 14] && bits[6] == symbols[start + 16] && bits[7]
        == symbols[start + 18] && bits[8] == symbols[start + 20] && bits[9] == symbols[start + 22]
        && bits[10] == symbols[start + 24]);
}

/// The symbols that timings stand for, each timing a whole number of symbols
/// of 450 microseconds, positive for marks.
pub open spec fn laid_out(timings: Seq<i64>) -> Seq<bool>
    decreases timings.len(),
{
    if timings.len() == 0 {
        Seq::empty()
    } else {
        let last = timings.last();
        laid_out(timings.drop_last()) + Seq::new(
            (if last < 0 {
                -last / 450
            } else {
                last / 450
            }) as nat,
            |k: int| last > 0,
        )
    }
}

proof fn lemma_laid_out(stretches: Seq<(bool, nat)>)
    requires
        laws::short(stretches),
    ensures
        laid_out(laws::pulsed(stretches)) == laws::expanded(stretches),
    decreases stretches.len(),
{
    let timings = laws::pulsed(stretches);
    if stretches.len() == 0 {
        assert(laid_out(timings) =~= laws::expanded(stretches));
    } else {
        let rest = stretches.drop_last();
        assert forall|k: int| 0 <= k < rest.len() implies 1 <= (#[trigger] rest[k]).1 <= 1000 by {
            assert(rest[k] == stretches[k]);
        }
        lemma_laid_out(rest);
        assert(timings.drop_last() =~= laws::pulsed(rest));
        assert(1 <= stretches[stretches.len() - 1].1 <= 1000);
        let (on, count) = stretches.last();
        let last = timings.last();
        assert(last == proflame::pulse((on, count)));
        assert(laid_out(timings) =~= laws::expanded(stretches));
    }
}

/// A frame goes on air as its seven blocks, one after the other, each as the
/// format has it, at 450 microseconds a symbol, and the first one flagged; but
/// for the very last symbol, a space, which is one with the silence that
/// follows.
pub proof fn frames_go_on_air(frame: Frame, keys: Keys)
    ensures
        ({
            let symbols = laid_out(frame.encoded(keys)).push(false);
            &&& symbols.len() == 182
            &&& forall|b: int|
                #![trigger frame.on_air(keys)[b]]
                0 <= b < 7 ==> is_block(symbols, 26 * b, frame.on_air(keys)[b], b == 0)
        }),
{
    let blocks = frame.on_air(keys);
    let symbols = proflame::symbols_of(blocks, 7);
    laws::lemma_encoded(frame, keys);
    lemma_laid_out(laws::frame_stretches(frame, keys));
    assert(symbols.drop_last().push(false) =~= symbols);
    assert forall|b: int| #![trigger blocks[b]] 0 <= b < 7 implies is_block(
        symbols,
        26 * b,
        blocks[b],
        b == 0,
    ) by {
        laws::lemma_block(blocks, 7, b);
        lemma_is_block(symbols, 26 * b, blocks[b], b == 0);
    }
}

/// Whether a block opens with three marks and a space.
pub open spec fn opens(symbols: Seq<bool>, start: int) -> bool {
    symbols[start] && symbols[start + 1] && symbols[start + 2] && !symbols[start + 3]
}

/// Whether each of a block's eleven pairs is of opposite symbols.
pub open spec fn paired(symbols: Seq<bool>, start: int) -> bool {
    forall|k: int|
        #![trigger symbols[start + 5 + 2 * k]]
        0 <= k < 11 ==> symbols[start + 4 + 2 * k] != symbols[start + 5 + 2 * k]
}

/// Whether a value is what the first eight pairs of a block spell.
pub open spec fn spells(symbols: Seq<bool>, start: int, value: u8) -> bool {
    forall|k: int|
        #![trigger symbols[start + 4 + 2 * k]]
        0 <= k < 8 ==> symbols[start + 4 + 2 * k] == bit(value, k)
}

/// Bits that spell a byte.
proof fn lemma_number(bits: Seq<bool>)
    requires
        bits.len() == 8,
    ensures
        forall|k: int| 0 <= k < 8 ==> bits[k] == #[trigger] bit(proflame::number(bits) as u8, k),
{
    laws::number_bound(bits);
    lemma_digits(bits);
    lemma_binary(proflame::number(bits) as u8);
}

/// The digits of the number that digits spell are those digits.
proof fn lemma_digits(bits: Seq<bool>)
    ensures
        proflame::binary(proflame::number(bits), bits.len()) == bits,
    decreases bits.len(),
{
    let all = proflame::binary(proflame::number(bits), bits.len());
    if bits.len() > 0 {
        lemma_digits(bits.drop_last());
        assert(bits.drop_last().push(bits.last()) =~= bits);
    } else {
        assert(all =~= bits);
    }
}

/// What is noted of one block: each rule that it breaks, by name.
proof fn lemma_judged(symbols: Seq<bool>, start: int, index: int)
    requires
        0 <= start,
        start + 26 <= symbols.len(),
        0 <= index <= usize::MAX,
    ensures
        ({
            let block = symbols.subrange(start, start + 26);
            let noted = proflame::problems_of(block, index);
            let b = index as usize;
            &&& proflame::value_of(block) is Some <==> paired(symbols, start)
            &&& proflame::value_of(block) matches Some(value) ==> spells(symbols, start, value)
            &&& noted.contains(Problem::Sync { block: b }) <==> !opens(symbols, start)
            &&& noted.contains(Problem::Manchester { block: b }) <==> !paired(symbols, start)
            &&& noted.contains(Problem::StopBit { block: b }) <==> paired(symbols, start)
                && !symbols[start + 24]
            &&& noted.contains(Problem::Parity { block: b }) <==> paired(symbols, start) && odd_ten(
                symbols,
                start + 4,
            )
            &&& forall|value: bool| #[trigger]
                noted.contains(Problem::StartOfFrame { block: b, value }) <==> paired(
                    symbols,
                    start,
                ) && symbols[start + 20] == value && value != (index == 0)
            &&& forall|k: int|
                0 <= k < noted.len() ==> match #[trigger] noted[k] {
                    Problem::Sync { block } => block == b,
                    Problem::Manchester { block } => block == b,
                    Problem::StopBit { block } => block == b,
                    Problem::Parity { block } => block == b,
                    Problem::StartOfFrame { block, .. } => block == b,
                    Problem::BlockCount { .. } => false,
                }
        }),
{
    let block = symbols.subrange(start, start + 26);
    let bits = proflame::paired_bits(block);
    let b = index as usize;
    let noted = proflame::problems_of(block, index);
    assert forall|k: int| 0 <= k < 26 implies #[trigger] block[k] == symbols[start + k] by {}
    assert forall|k: int| #![trigger bits[k]] 0 <= k < 11 implies bits[k] == symbols[start + 4 + 2
        * k] && block[5 + 2 * k] == symbols[start + 5 + 2 * k] by {
        assert(bits[k] == block[4 + 2 * k]);
        assert(block[4 + 2 * k] == symbols[start + (4 + 2 * k)]);
        assert(block[5 + 2 * k] == symbols[start + (5 + 2 * k)]);
    }
    assert(proflame::violates(block) == !paired(symbols, start)) by {
        if proflame::violates(block) {
            let k = choose|k: int|
                0 <= k < 11 && #[trigger] proflame::paired_bits(block)[k] == block[4 + 2 * k + 1];
            assert(bits[k] == block[5 + 2 * k]);
            assert(symbols[start + 4 + 2 * k] == symbols[start + 5 + 2 * k]);
        }
        if !paired(symbols, start) {
            let k = choose|k: int|
                #![trigger symbols[start + 5 + 2 * k]]
                0 <= k < 11 && symbols[start + 4 + 2 * k] == symbols[start + 5 + 2 * k];
            assert(proflame::paired_bits(block)[k] == block[4 + 2 * k + 1]);
        }
    }
    if !proflame::violates(block) {
        lemma_number(bits.take(8));
        let value = proflame::number(bits.take(8)) as u8;
        assert forall|k: int| #![trigger symbols[start + 4 + 2 * k]] 0 <= k < 8 implies symbols[start
            + 4 + 2 * k] == bit(value, k) by {
            assert(bits.take(8)[k] == bits[k]);
        }
    }
    assert((block.take(4) == proflame::sync()) == opens(symbols, start)) by {
        let head = block.take(4);
        assert(head[0] == block[0] && head[1] == block[1] && head[2] == block[2] && head[3]
            == block[3]);
        assert(block[0] == symbols[start + 0]);
        if opens(symbols, start) {
            assert(head =~= proflame::sync());
        } else {
            assert(proflame::sync()[0] && proflame::sync()[1] && proflame::sync()[2]
                && !proflame::sync()[3]);
        }
    }
    lemma_ones(bits);
    assert(bits[0] == symbols[start + 4] && bits[1] == symbols[start + 6] && bits[2]
        == symbols[start + 8] && bits[3] == symbols[start + 10] && bits[4] == symbols[start + 12]
        && bits[5] == symbols[start + 14] && bits[6] == symbols[start + 16] && bits[7]
        == symbols[start + 18] && bits[8] == symbols[start + 20] && bits[9] == symbols[start + 22]
        && bits[10] == symbols[start + 24]);
    let first = proflame::noted(!opens(symbols, start), Problem::Sync { block: b });
    let second = if proflame::violates(block) {
        seq![Problem::Manchester { block: b }]
    } else {
        proflame::noted(!bits[10], Problem::StopBit { block: b }) + proflame::noted(
            proflame::ones(bits.take(10)) % 2 == 1,
            Problem::Parity { block: b },
        ) + proflame::noted(
            bits[8] != (index == 0),
            Problem::StartOfFrame { block: b, value: bits[8] },
        )
    };
    assert(noted == first + second);
    lemma_contains_joined(first, second);
    if proflame::violates(block) {
        lemma_contains_one(Problem::Manchester { block: b }, true);
        assert(second =~= proflame::noted(true, Problem::Manchester { block: b }));
    } else {
        let stop = proflame::noted(!bits[10], Problem::StopBit { block: b });
        let parity = proflame::noted(
            proflame::ones(bits.take(10)) % 2 == 1,
            Problem::Parity { block: b },
        );
        let flag = proflame::noted(
            bits[8] != (index == 0),
            Problem::StartOfFrame { block: b, value: bits[8] },
        );
        lemma_contains_joined(stop, parity);
        lemma_contains_joined(stop + parity, flag);
        lemma_contains_one(Problem::StopBit { block: b }, !bits[10]);
        lemma_contains_one(
            Problem::Parity { block: b },
            proflame::ones(bits.take(10)) % 2 == 1,
        );
        lemma_contains_one(
            Problem::StartOfFrame { block: b, value: bits[8] },
            bits[8] != (index == 0),
        );
    }
    lemma_contains_one(Problem::Sync { block: b }, !opens(symbols, start));
}

proof fn lemma_contains_joined(a: Seq<Problem>, b: Seq<Problem>)
    ensures
        forall|problem: Problem| #[trigger]
            (a + b).contains(problem) <==> a.contains(problem) || b.contains(problem),
{
    let all = a + b;
    assert forall|problem: Problem| #[trigger] all.contains(problem) <==> a.contains(problem)
        || b.contains(problem) by {
        if a.contains(problem) {
            let k = choose|k: int| 0 <= k < a.len() && a[k] == problem;
            assert(all[k] == problem);
        }
        if b.contains(problem) {
            let k = choose|k: int| 0 <= k < b.len() && b[k] == problem;
            assert(all[a.len() + k] == problem);
        }
        if all.contains(problem) {
            let k = choose|k: int| 0 <= k < all.len() && all[k] == problem;
            if k < a.len() {
                assert(a[k] == problem);
            } else {
                assert(b[k - a.len()] == problem);
            }
        }
    }
}

proof fn lemma_contains_one(problem: Problem, found: bool)
    ensures
        forall|other: Problem| #[trigger]
            proflame::noted(found, problem).contains(other) <==> found && other == problem,
{
    let list = proflame::noted(found, problem);
    if found {
        assert(list[0] == problem);
    }
}

/// Whether a problem is about a block.
pub open spec fn is_about(problem: Problem, index: int) -> bool {
    match problem {
        Problem::Sync { block } => block == index,
        Problem::Manchester { block } => block == index,
        Problem::StopBit { block } => block == index,
        Problem::Parity { block } => block == index,
        Problem::StartOfFrame { block, .. } => block == index,
        Problem::BlockCount { .. } => false,
    }
}

/// Whether a problem is about one of so many blocks.
pub open spec fn is_about_some(problem: Problem, count: nat) -> bool {
    exists|b: int| 0 <= b < count && #[trigger] is_about(problem, b)
}

/// Whether a report says of a block what the format's rules say: it has a value
/// exactly where each of its pairs is of opposite symbols, and then the one
/// that is spelled; and each rule that it breaks is named. Where a pair is not,
/// nothing is said of what the pairs spell.
pub open spec fn is_told(symbols: Seq<bool>, report: proflame::Report, b: int) -> bool {
    &&& report.blocks[b] is Some <==> paired(symbols, 26 * b)
    &&& report.blocks[b] matches Some(value) ==> spells(symbols, 26 * b, value)
    &&& report.problems.contains(Problem::Sync { block: b as usize }) <==> !opens(symbols, 26 * b)
    &&& report.problems.contains(Problem::Manchester { block: b as usize }) <==> !paired(
        symbols,
        26 * b,
    )
    &&& report.problems.contains(Problem::StopBit { block: b as usize }) <==> paired(symbols, 26 * b)
        && !symbols[26 * b + 24]
    &&& report.problems.contains(Problem::Parity { block: b as usize }) <==> paired(symbols, 26 * b)
        && odd_ten(symbols, 26 * b + 4)
    &&& report.problems.contains(Problem::StartOfFrame { block: b as usize, value: true })
        <==> paired(symbols, 26 * b) && symbols[26 * b + 20] && b != 0
    &&& report.problems.contains(Problem::StartOfFrame { block: b as usize, value: false })
        <==> paired(symbols, 26 * b) && !symbols[26 * b + 20] && b == 0
}

/// The report of the first blocks, rule by rule.
spec fn reported(symbols: Seq<bool>, report: proflame::Report, count: nat) -> bool {
    &&& report.blocks.len() == count
    &&& forall|b: int| 0 <= b < count ==> #[trigger] is_told(symbols, report, b)
    &&& forall|k: int|
        0 <= k < report.problems.len() ==> is_about_some(#[trigger] report.problems[k], count)
}

proof fn lemma_reported(symbols: Seq<bool>, count: nat)
    requires
        26 * count <= symbols.len(),
        count <= usize::MAX,
    ensures
        reported(symbols, proflame::report_of(symbols, count), count),
    decreases count,
{
    let report = proflame::report_of(symbols, count);
    if count > 0 {
        let last = count - 1;
        let before = proflame::report_of(symbols, last as nat);
        lemma_reported(symbols, last as nat);
        let block = symbols.subrange(26 * last, 26 * last + 26);
        let more = proflame::problems_of(block, last);
        lemma_judged(symbols, 26 * last, last);
        lemma_contains_joined(before.problems, more);
        // Nothing noted before is about the last block, and nothing noted of
        // it is about an earlier one.
        assert forall|problem: Problem|
            #![trigger before.problems.contains(problem)]
            is_about(problem, last) implies !before.problems.contains(problem) by {
            if before.problems.contains(problem) {
                let k = choose|k: int| 0 <= k < before.problems.len() && before.problems[k]
                    == problem;
                assert(is_about_some(before.problems[k], last as nat));
            }
        }
        assert forall|problem: Problem, b: int|
            #![trigger more.contains(problem), is_about(problem, b)]
            is_about(problem, b) && b != last implies !more.contains(problem) by {
            if more.contains(problem) {
                let k = choose|k: int| 0 <= k < more.len() && more[k] == problem;
                assert(more[k] == problem);
            }
        }
        assert forall|b: int| 0 <= b < count implies #[trigger] is_told(symbols, report, b) by {
            let at = b as usize;
            assert(is_about(Problem::Sync { block: at }, b));
            assert(is_about(Problem::Manchester { block: at }, b));
            assert(is_about(Problem::StopBit { block: at }, b));
            assert(is_about(Problem::Parity { block: at }, b));
            assert(is_about(Problem::StartOfFrame { block: at, value: true }, b));
            assert(is_about(Problem::StartOfFrame { block: at, value: false }, b));
            if b < last {
                assert(is_told(symbols, before, b));
                assert(report.blocks[b] == before.blocks[b]);
                assert(!more.contains(Problem::Sync { block: at }));
                assert(!more.contains(Problem::Manchester { block: at }));
                assert(!more.contains(Problem::StopBit { block: at }));
                assert(!more.contains(Problem::Parity { block: at }));
                assert(!more.contains(Problem::StartOfFrame { block: at, value: true }));
                assert(!more.contains(Problem::StartOfFrame { block: at, value: false }));
            } else {
                assert(report.blocks[b] == proflame::value_of(block));
                assert(!before.problems.contains(Problem::Sync { block: at }));
                assert(!before.problems.contains(Problem::Manchester { block: at }));
                assert(!before.problems.contains(Problem::StopBit { block: at }));
                assert(!before.problems.contains(Problem::Parity { block: at }));
                assert(!before.problems.contains(Problem::StartOfFrame { block: at, value: true }));
                assert(!before.problems.contains(
                    Problem::StartOfFrame { block: at, value: false },
                ));
            }
        }
        assert forall|k: int|
            0 <= k < report.problems.len() implies is_about_some(
            #[trigger] report.problems[k],
            count,
        ) by {
            if k < before.problems.len() {
                assert(report.problems[k] == before.problems[k]);
                let b = choose|b: int| 0 <= b < last && is_about(before.problems[k], b);
                assert(0 <= b < count && is_about(report.problems[k], b));
            } else {
                assert(report.problems[k] == more[k - before.problems.len()]);
                assert(is_about(report.problems[k], last));
            }
        }
    }
}

/// Decoding reports every rule, block by block, over the symbols that the
/// timings quantise to, filled up with spaces to whole blocks: what each block
/// carries, which rules it breaks, and, where there are not seven, how many
/// blocks there are. Nothing else is reported.
pub proof fn every_rule_is_reported(timings: Seq<i64>)
    requires
        proflame::quantised(timings).len() + 26 <= usize::MAX,
    ensures
        ({
            let quantised = proflame::quantised(timings);
            let count = (quantised.len() + 25) / 26;
            let symbols = quantised + Seq::new((26 * count - quantised.len()) as nat, |k: int| false);
            let report = proflame::decoded(timings);
            &&& report.blocks.len() == count
            &&& forall|b: int| 0 <= b < count ==> #[trigger] is_told(symbols, report, b)
            &&& report.problems.contains(Problem::BlockCount { blocks: count as usize }) <==> count
                != 7
            &&& forall|k: int|
                #![trigger report.problems[k]]
                0 <= k < report.problems.len() ==> report.problems[k] == (Problem::BlockCount {
                    blocks: count as usize,
                }) || is_about_some(report.problems[k], count)
        }),
{
    let quantised = proflame::quantised(timings);
    let count = (quantised.len() + 25) / 26;
    let symbols = quantised + Seq::new((26 * count - quantised.len()) as nat, |k: int| false);
    lemma_filled(quantised);
    lemma_reported(symbols, count);
    lemma_counted(
        symbols,
        proflame::report_of(symbols, count),
        proflame::decoded(timings),
        count,
    );
}

/// Filling up makes whole blocks, as few as hold all the symbols.
proof fn lemma_filled(symbols: Seq<bool>)
    ensures
        ({
            let count = (symbols.len() + 25) / 26;
            let whole = symbols + Seq::new((26 * count - symbols.len()) as nat, |k: int| false);
            &&& proflame::filled(symbols) == whole
            &&& whole.len() == 26 * count
            &&& whole.len() / 26 == count
            &&& count <= symbols.len() + 1
        }),
{
    let count = (symbols.len() + 25) / 26;
    let missing = (26 * count - symbols.len()) as nat;
    assert((26 - symbols.len() % 26) % 26 == 26 * count - symbols.len());
    assert(proflame::filled(symbols) =~= symbols + Seq::new(missing, |k: int| false));
}

/// A note of how many blocks there are leaves the rest of a report as it was.
proof fn lemma_counted(
    symbols: Seq<bool>,
    plain: proflame::Report,
    report: proflame::Report,
    count: nat,
)
    requires
        count <= usize::MAX,
        reported(symbols, plain, count),
        report.blocks == plain.blocks,
        report.problems == if count == 7 {
            plain.problems
        } else {
            plain.problems.push(Problem::BlockCount { blocks: count as usize })
        },
    ensures
        forall|b: int| 0 <= b < count ==> #[trigger] is_told(symbols, report, b),
        report.problems.contains(Problem::BlockCount { blocks: count as usize }) <==> count != 7,
        forall|k: int|
            #![trigger report.problems[k]]
            0 <= k < report.problems.len() ==> report.problems[k] == (Problem::BlockCount {
                blocks: count as usize,
            }) || is_about_some(report.problems[k], count),
{
    let extra = Problem::BlockCount { blocks: count as usize };
    assert(!plain.problems.contains(extra)) by {
        if plain.problems.contains(extra) {
            let k = choose|k: int| 0 <= k < plain.problems.len() && plain.problems[k] == extra;
            assert(is_about_some(plain.problems[k], count));
        }
    }
    lemma_contains_joined(plain.problems, seq![extra]);
    assert(seq![extra][0] == extra);
    assert(plain.problems.push(extra) =~= plain.problems + seq![extra]);
    assert forall|b: int| 0 <= b < count implies #[trigger] is_told(symbols, report, b) by {
        assert(is_told(symbols, plain, b));
    }
    assert forall|k: int|
        #![trigger report.problems[k]]
        0 <= k < report.problems.len() implies report.problems[k] == extra || is_about_some(
        report.problems[k],
        count,
    ) by {
        if k < plain.problems.len() {
            assert(report.problems[k] == plain.problems[k]);
        }
    }
}

/// A burst that decodes without a problem is an encoding: its symbols, filled
/// up with spaces, are the blocks that it reports, each of them as the format
/// has it, pair by pair, and the frame and the keys are read off them. Nothing
/// that breaks a rule passes for a frame.
pub proof fn clean_bursts_are_encodings(timings: Seq<i64>)
    requires
        proflame::decoded(timings).problems.len() == 0,
        proflame::quantised(timings).len() + 26 <= usize::MAX,
    ensures
        ({
            let quantised = proflame::quantised(timings);
            let symbols = quantised + Seq::new((182 - quantised.len()) as nat, |k: int| false);
            let report = proflame::decoded(timings);
            &&& 156 < quantised.len() <= 182
            &&& report.blocks.len() == 7
            &&& forall|b: int|
                0 <= b < 7 ==> (#[trigger] report.blocks[b] matches Some(value) && is_block(
                    symbols,
                    26 * b,
                    value,
                    b == 0,
                ))
            &&& report.frame() matches Some(frame) && report.keys() matches Some(keys) && {
                &&& report.blocks[0] == Some(frame.serial1)
                &&& report.blocks[1] == Some(frame.serial2)
                &&& report.blocks[2] == Some(frame.version)
                &&& report.blocks[3] == Some(frame.cmd1)
                &&& report.blocks[4] == Some(frame.cmd2)
                &&& report.blocks[5] == Some(proflame::mixed(frame.cmd1) ^ keys.k1)
                &&& report.blocks[6] == Some(proflame::mixed(frame.cmd2) ^ keys.k2)
            }
        }),
{
    let quantised = proflame::quantised(timings);
    let count = (quantised.len() + 25) / 26;
    let report = proflame::decoded(timings);
    every_rule_is_reported(timings);
    assert forall|problem: Problem| !(#[trigger] report.problems.contains(problem)) by {}
    assert(count == 7);
    let symbols = quantised + Seq::new((182 - quantised.len()) as nat, |k: int| false);
    let whole = quantised + Seq::new((26 * count - quantised.len()) as nat, |k: int| false);
    assert(symbols =~= whole);
    assert forall|b: int| 0 <= b < 7 implies (#[trigger] report.blocks[b] matches Some(value)
        && is_block(symbols, 26 * b, value, b == 0)) by {
        assert(is_told(symbols, report, b));
    }
    assert(report.blocks[0] is Some && report.blocks[1] is Some && report.blocks[2] is Some
        && report.blocks[3] is Some && report.blocks[4] is Some && report.blocks[5] is Some
        && report.blocks[6] is Some);
    assert(report.clean());
    let sum1 = report.blocks[5]->0;
    let sum2 = report.blocks[6]->0;
    let m1 = proflame::mixed(report.blocks[3]->0);
    let m2 = proflame::mixed(report.blocks[4]->0);
    assert(m1 ^ (m1 ^ sum1) == sum1 && m2 ^ (m2 ^ sum2) == sum2) by (bit_vector);
}

/// A frame is read off a burst only where encoding that frame, under the keys
/// read off it, gives the burst's symbols back.
pub proof fn reencoding_gives_the_burst_back(timings: Seq<i64>, frame: Frame, keys: Keys)
    requires
        proflame::decoded(timings).frame() == Some(frame),
        proflame::decoded(timings).keys() == Some(keys),
        proflame::quantised(timings).len() + 26 <= usize::MAX,
    ensures
        ({
            let quantised = proflame::quantised(timings);
            let symbols = quantised + Seq::new((182 - quantised.len()) as nat, |k: int| false);
            symbols == laid_out(frame.encoded(keys)).push(false)
        }),
{
    let quantised = proflame::quantised(timings);
    let symbols = quantised + Seq::new((182 - quantised.len()) as nat, |k: int| false);
    let report = proflame::decoded(timings);
    let sent = laid_out(frame.encoded(keys)).push(false);
    laws::without_problems_is_clean(timings);
    clean_bursts_are_encodings(timings);
    frames_go_on_air(frame, keys);
    let blocks = frame.on_air(keys);
    assert forall|k: int| 0 <= k < 182 implies symbols[k] == sent[k] by {
        let b = k / 26;
        let at = k % 26;
        assert(0 <= b < 7 && k == 26 * b + at);
        assert(report.blocks[b] == Some(blocks[b]));
        assert(is_block(sent, 26 * b, blocks[b], b == 0));
        lemma_blocks_agree(symbols, sent, 26 * b, blocks[b], b == 0, at);
    }
    assert(symbols =~= sent);
}

proof fn lemma_blocks_agree(
    a: Seq<bool>,
    b: Seq<bool>,
    start: int,
    value: u8,
    first: bool,
    at: int,
)
    requires
        is_block(a, start, value, first),
        is_block(b, start, value, first),
        0 <= at < 26,
    ensures
        a[start + at] == b[start + at],
{
    assert forall|k: int| 0 <= k < 11 implies #[trigger] a[start + 4 + 2 * k] == b[start + 4 + 2 * k]
        by {
        assert(a[start + 4 + 2 * 0] == bit(value, 0) && b[start + 4 + 2 * 0] == bit(value, 0));
        assert(a[start + 4 + 2 * 1] == bit(value, 1) && b[start + 4 + 2 * 1] == bit(value, 1));
        assert(a[start + 4 + 2 * 2] == bit(value, 2) && b[start + 4 + 2 * 2] == bit(value, 2));
        assert(a[start + 4 + 2 * 3] == bit(value, 3) && b[start + 4 + 2 * 3] == bit(value, 3));
        assert(a[start + 4 + 2 * 4] == bit(value, 4) && b[start + 4 + 2 * 4] == bit(value, 4));
        assert(a[start + 4 + 2 * 5] == bit(value, 5) && b[start + 4 + 2 * 5] == bit(value, 5));
        assert(a[start + 4 + 2 * 6] == bit(value, 6) && b[start + 4 + 2 * 6] == bit(value, 6));
        assert(a[start + 4 + 2 * 7] == bit(value, 7) && b[start + 4 + 2 * 7] == bit(value, 7));
    }
    if at >= 4 {
        let k = (at - 4) / 2;
        assert(a[start + 4 + 2 * k] == b[start + 4 + 2 * k]);
        if at % 2 == 1 {
            assert(start + at == start + 5 + 2 * k);
            assert(a[start + 5 + 2 * k] != a[start + 4 + 2 * k]);
            assert(b[start + 5 + 2 * k] != b[start + 4 + 2 * k]);
        } else {
            assert(start + at == start + 4 + 2 * k);
        }
    } else {
        assert(at == 0 || at == 1 || at == 2 || at == 3);
    }
}

/// What is too short to be a symbol is one all the same.
pub proof fn short_is_one_symbol(timing: int)
    requires
        clock::magnitude(timing) <= 225,
    ensures
        proflame::symbol_count(timing) == 1,
{
    let t = clock::magnitude(timing);
    let ratio = float::quotient(float::from_nat(t), float::from_nat(450));
    vstd::arithmetic::power2::lemma_pow2_pos(1074);
    if t == 0 {
        error::from_nat_exact(450);
        vstd::arithmetic::div_mod::lemma_basic_div(one() as int, (2 * one()) as int);
        assert(float::round_magnitude(0, -1074) == 0);
    } else {
        precision::ratio_near(t, 450);
        match ratio {
            Binary::Finite { mantissa, exponent, .. } => {
                error::round_in_units(mantissa, exponent);
                let whole = float::round_magnitude(mantissa, exponent);
                let q = units(ratio) as int;
                let o = one() as int;
                assert(whole <= 1) by (nonlinear_arith)
                    requires
                        0x20_0000_0000_0000 * (q * 450 - t * o) <= 1 * (t * o),
                        (2 * whole - 1) * o <= 2 * q,
                        t <= 225,
                        o > 0,
                {
                    assert(t * o <= 225 * o);
                    assert(q * 450 <= 226 * o);
                    assert(((2 * whole - 1) * 225) * o <= 226 * o);
                }
            },
            _ => {},
        }
    }
}

/// A timing is as many symbols as are nearest to it, and one at the least; marks
/// are what is positive.
pub proof fn timings_are_whole_symbols(timings: Seq<i64>, timing: i64, count: nat)
    requires
        1 <= count <= 0x4000_0000,
        (count == 1 && -675 < timing < 675) || 450 * count - 225 < (if timing < 0 {
            -timing
        } else {
            timing as int
        }) < 450 * count + 225,
    ensures
        proflame::quantised(Seq::empty()).len() == 0,
        proflame::quantised(timings.push(timing)) == proflame::quantised(timings) + Seq::new(
            count,
            |k: int| timing > 0,
        ),
{
    assert(timings.push(timing).drop_last() =~= timings);
    let span = if timing < 0 {
        -timing
    } else {
        timing as int
    };
    if 450 * count - 225 < span {
        laws::nearest_symbol(timing as int, count);
    } else {
        short_is_one_symbol(timing as int);
    }
    assert(proflame::quantised(timings.push(timing)) =~= proflame::quantised(timings) + Seq::new(
        count,
        |k: int| timing > 0,
    ));
}

/// Where a problem stands in a report: by block, and within a block the sync,
/// the pairs, the stop bit, the parity and the flag; how many blocks there are
/// comes last.
pub open spec fn place(problem: Problem) -> int {
    match problem {
        Problem::Sync { block } => 5 * block,
        Problem::Manchester { block } => 5 * block + 1,
        Problem::StopBit { block } => 5 * block + 2,
        Problem::Parity { block } => 5 * block + 3,
        Problem::StartOfFrame { block, .. } => 5 * block + 4,
        Problem::BlockCount { blocks } => 5 * blocks,
    }
}

/// Problems in their places.
spec fn placed(problems: Seq<Problem>, low: int, high: int) -> bool {
    &&& forall|k: int| 0 <= k < problems.len() ==> low <= place(#[trigger] problems[k]) < high
    &&& forall|i: int, j: int|
        0 <= i < j < problems.len() ==> place(#[trigger] problems[i]) < place(
            #[trigger] problems[j],
        )
}

proof fn lemma_placed_joined(a: Seq<Problem>, b: Seq<Problem>, low: int, middle: int, high: int)
    requires
        placed(a, low, middle),
        placed(b, middle, high),
        low <= middle <= high,
    ensures
        placed(a + b, low, high),
{
    let all = a + b;
    assert forall|k: int| 0 <= k < all.len() implies low <= place(#[trigger] all[k]) < high by {
        if k < a.len() {
            assert(all[k] == a[k]);
        } else {
            assert(all[k] == b[k - a.len()]);
        }
    }
    assert forall|i: int, j: int| 0 <= i < j < all.len() implies place(#[trigger] all[i]) < place(
        #[trigger] all[j],
    ) by {
        if j < a.len() {
            assert(all[i] == a[i] && all[j] == a[j]);
        } else if i >= a.len() {
            assert(all[i] == b[i - a.len()] && all[j] == b[j - a.len()]);
        } else {
            assert(all[i] == a[i] && all[j] == b[j - a.len()]);
        }
    }
}

proof fn lemma_placed_block(block: Seq<bool>, index: int)
    requires
        0 <= index <= usize::MAX,
    ensures
        placed(proflame::problems_of(block, index), 5 * index, 5 * index + 5),
{
    let b = index as usize;
    let bits = proflame::paired_bits(block);
    let at = 5 * index;
    let sync = proflame::noted(block.take(4) != proflame::sync(), Problem::Sync { block: b });
    assert(placed(sync, at, at + 1));
    if proflame::violates(block) {
        let pairs = seq![Problem::Manchester { block: b }];
        assert(placed(pairs, at + 1, at + 5));
        lemma_placed_joined(sync, pairs, at, at + 1, at + 5);
    } else {
        let stop = proflame::noted(!bits[10], Problem::StopBit { block: b });
        let parity = proflame::noted(
            proflame::ones(bits.take(10)) % 2 == 1,
            Problem::Parity { block: b },
        );
        let flag = proflame::noted(
            bits[8] != (index == 0),
            Problem::StartOfFrame { block: b, value: bits[8] },
        );
        assert(placed(stop, at + 1, at + 3));
        assert(placed(parity, at + 3, at + 4));
        assert(placed(flag, at + 4, at + 5));
        lemma_placed_joined(stop, parity, at + 1, at + 3, at + 4);
        lemma_placed_joined(stop + parity, flag, at + 1, at + 4, at + 5);
        lemma_placed_joined(sync, stop + parity + flag, at, at + 1, at + 5);
    }
}

proof fn lemma_placed_report(symbols: Seq<bool>, count: nat)
    requires
        count <= usize::MAX,
    ensures
        placed(proflame::report_of(symbols, count).problems, 0, 5 * count as int),
        proflame::report_of(symbols, count).blocks.len() == count,
    decreases count,
{
    if count > 0 {
        let last = count - 1;
        lemma_placed_report(symbols, last as nat);
        lemma_placed_block(symbols.subrange(26 * last, 26 * last + 26), last);
        lemma_placed_joined(
            proflame::report_of(symbols, last as nat).problems,
            proflame::problems_of(symbols.subrange(26 * last, 26 * last + 26), last),
            0,
            5 * last,
            5 * last + 5,
        );
    }
}

/// Problems are reported in order, block by block and rule by rule, and each of
/// them once.
pub proof fn problems_come_in_order(timings: Seq<i64>)
    requires
        proflame::quantised(timings).len() + 26 <= usize::MAX,
    ensures
        ({
            let problems = proflame::decoded(timings).problems;
            forall|i: int, j: int|
                0 <= i < j < problems.len() ==> place(#[trigger] problems[i]) < place(
                    #[trigger] problems[j],
                )
        }),
{
    let quantised = proflame::quantised(timings);
    let count = (quantised.len() + 25) / 26;
    lemma_filled(quantised);
    let symbols = proflame::filled(quantised);
    lemma_placed_report(symbols, count);
    let plain = proflame::report_of(symbols, count).problems;
    let extra = seq![Problem::BlockCount { blocks: count as usize }];
    assert(placed(extra, 5 * count as int, 5 * (count as int) + 1));
    lemma_placed_joined(plain, extra, 0, 5 * count as int, 5 * (count as int) + 1);
    assert(plain.push(extra[0]) =~= plain + extra);
}

/// A burst that breaks a rule is no frame, and gives no keys away.
pub proof fn broken_bursts_are_no_frames(timings: Seq<i64>)
    requires
        proflame::decoded(timings).problems.len() > 0,
    ensures
        proflame::decoded(timings).frame() is None,
        proflame::decoded(timings).keys() is None,
{
}

} // verus!
