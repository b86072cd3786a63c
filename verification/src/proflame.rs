//! The SIT Proflame 2 protocol: Flipper-RAW timings <-> frames.
//!
//! This module is pure protocol: it never touches the radio, and both
//! directions are total functions over their inputs.
//!
//! Safety: the encoder makes it trivial to synthesise a frame no remote has
//! ever sent, which on a gas appliance is not something to settle by
//! experiment. Only transmit field values that have been observed from the
//! physical remote.

pub mod air;
pub mod laws;
pub mod state;
pub mod telling;

use vstd::prelude::*;

pub use state::State;

use crate::float;
use crate::float::Float;
use crate::ook::bursts;
use crate::ook::clock;
use crate::ook::runs;
use crate::text;

verus! {

/// Manchester half-bit duration. Measured pulse widths sit about 100 µs off
/// this (marks short, spaces long, a slicing-threshold artefact), which is why
/// decoding quantises to the nearest whole symbol.
pub const SYMBOL_US: i64 = 450;

/// Sync (3 mark + 1 space) plus 11 Manchester bits of 2 symbols each.
pub const BLOCK_SYMBOLS: usize = 26;

/// Three consecutive equal symbols cannot occur in Manchester data; the sync
/// is a deliberate code violation.
pub const SYNC_SYMBOLS: usize = 4;

/// serial1, serial2, version, cmd1, cmd2, checksum1, checksum2.
pub const FRAME_BLOCKS: usize = 7;

/// Block names, in air order.
pub const FIELD_NAMES: [&'static str; 7] = [
    "serial1",
    "serial2",
    "version",
    "cmd1",
    "cmd2",
    "checksum1",
    "checksum2",
];

/// Gap between repeats of a held button, as measured from the remote.
pub const INTER_FRAME_GAP_US: i64 = 4_150;

/// Repetition count proven on air: the first ignition sent ten frames, and
/// the remote itself sends five per state step.
pub const PROVEN_REPEATS: u32 = 10;

/// data[8] + start-of-frame + parity + stop.
pub const BITS_PER_BLOCK: usize = 11;

/// Per-remote checksum constants, one per frame half.
#[derive(Debug, Clone, Copy, PartialEq, Eq, Structural)]
pub struct Keys {
    pub k1: u8,
    pub k2: u8,
}

/// One frame's payload. Checksums are derived from [`Keys`], not stored.
#[derive(Debug, Clone, Copy, PartialEq, Eq, Structural)]
pub struct Frame {
    pub serial1: u8,
    pub serial2: u8,
    pub version: u8,
    pub cmd1: u8,
    pub cmd2: u8,
}

/// A nibble, spread over a byte.
pub open spec fn spread(n: u8) -> u8 {
    n ^ (n << 5u8)
}

/// The linear map shared by both checksum halves: `cs = mixed(cmd) ^ key`.
///
/// Invertible but not a CRC: polynomial search over the known packets found
/// nothing, and nothing here depends on it being one.
pub open spec fn mixed(byte: u8) -> u8 {
    (byte & 0xF0) ^ spread(byte & 0x0F) ^ spread(byte >> 4u8)
}

fn nibble(n: u8) -> (result: u8)
    ensures
        result == spread(n),
{
    n ^ (n << 5u8)
}

fn mix(byte: u8) -> (result: u8)
    ensures
        result == mixed(byte),
{
    (byte & 0xF0) ^ nibble(byte & 0x0F) ^ nibble(byte >> 4u8)
}

/// Checksum for one half, given that half's per-remote constant.
pub fn checksum(cmd: u8, key: u8) -> (result: u8)
    ensures
        result == mixed(cmd) ^ key,
{
    mix(cmd) ^ key
}

/// Recover a half's per-remote constant from any observed (cmd, checksum)
/// pair. One valid frame fixes both constants, so the serial-to-key mapping
/// never has to be solved to transmit.
pub fn derive_key(cmd: u8, checksum: u8) -> (result: u8)
    ensures
        result == mixed(cmd) ^ checksum,
{
    mix(cmd) ^ checksum
}

/// The last `count` binary digits of a number, most significant first.
pub open spec fn binary(value: nat, count: nat) -> Seq<bool>
    decreases count,
{
    if count == 0 {
        Seq::empty()
    } else {
        binary(value / 2, (count - 1) as nat).push(value % 2 == 1)
    }
}

/// The number that binary digits spell, most significant first.
pub open spec fn number(bits: Seq<bool>) -> nat
    decreases bits.len(),
{
    if bits.len() == 0 {
        0
    } else {
        2 * number(bits.drop_last()) + if bits.last() {
            1nat
        } else {
            0
        }
    }
}

/// How many bits are set.
pub open spec fn ones(bits: Seq<bool>) -> nat
    decreases bits.len(),
{
    if bits.len() == 0 {
        0
    } else {
        ones(bits.drop_last()) + if bits.last() {
            1nat
        } else {
            0
        }
    }
}

/// A block's bits: eight of data, the start-of-frame flag, even parity over
/// those nine, and the stop bit.
pub open spec fn block_bits(value: u8, first: bool) -> Seq<bool> {
    let flagged = binary(value as nat, 8).push(first);
    flagged.push(ones(flagged) % 2 == 1).push(true)
}

/// Manchester coding: a set bit is a mark and a space, a clear one the
/// reverse.
pub open spec fn manchester(bits: Seq<bool>) -> Seq<bool> {
    Seq::new(2 * bits.len(), |k: int| bits[k / 2] == (k % 2 == 0))
}

/// The sync pattern: three marks and a space.
pub open spec fn sync() -> Seq<bool> {
    seq![true, true, true, false]
}

/// A block as it goes on air, symbol by symbol.
pub open spec fn block_symbols(value: u8, first: bool) -> Seq<bool> {
    sync() + manchester(block_bits(value, first))
}

/// The first `count` blocks of a frame, symbol by symbol.
pub open spec fn symbols_of(blocks: Seq<u8>, count: nat) -> Seq<bool>
    decreases count,
{
    if count == 0 {
        Seq::empty()
    } else {
        symbols_of(blocks, (count - 1) as nat) + block_symbols(blocks[count - 1], count == 1)
    }
}

/// How long a stretch of equal symbols lasts, signed.
pub open spec fn pulse(stretch: (bool, nat)) -> i64 {
    if stretch.0 {
        (SYMBOL_US * stretch.1) as i64
    } else {
        (-SYMBOL_US * stretch.1) as i64
    }
}

/// Symbols as timings.
pub open spec fn pulses(symbols: Seq<bool>) -> Seq<i64> {
    runs::stretches(symbols).map_values(|stretch: (bool, nat)| pulse(stretch))
}

/// The number of whole symbols nearest to a timing, one at the least.
pub open spec fn symbol_count(timing: int) -> int {
    let count = float::round_into(
        float::quotient(
            float::from_nat(clock::magnitude(timing)),
            float::from_nat(SYMBOL_US as nat),
        ),
        0,
        usize::MAX as int,
    );
    if count < 1 {
        1
    } else {
        count
    }
}

/// Timings quantised to whole symbols.
pub open spec fn quantised(timings: Seq<i64>) -> Seq<bool>
    decreases timings.len(),
{
    if timings.len() == 0 {
        Seq::empty()
    } else {
        quantised(timings.drop_last()) + Seq::new(
            symbol_count(timings.last() as int) as nat,
            |k: int| timings.last() > 0,
        )
    }
}

/// Symbols filled up with spaces to a whole number of blocks.
pub open spec fn filled(symbols: Seq<bool>) -> Seq<bool> {
    symbols + Seq::new(
        ((BLOCK_SYMBOLS - symbols.len() % BLOCK_SYMBOLS as nat) % BLOCK_SYMBOLS as int) as nat,
        |k: int| false,
    )
}

/// The first symbol of each Manchester pair of a block.
pub open spec fn paired_bits(block: Seq<bool>) -> Seq<bool> {
    Seq::new(BITS_PER_BLOCK as nat, |k: int| block[SYNC_SYMBOLS + 2 * k])
}

/// Whether a symbol pair of a block is neither `10` nor `01`.
pub open spec fn violates(block: Seq<bool>) -> bool {
    exists|k: int|
        0 <= k < BITS_PER_BLOCK && #[trigger] paired_bits(block)[k] == block[SYNC_SYMBOLS + 2 * k
            + 1]
}

/// A framing rule violated while decoding one burst.
#[derive(Debug, Clone, Copy, PartialEq, Eq, Structural)]
pub enum Problem {
    /// The block does not open with the 3-mark, 1-space sync pattern.
    Sync { block: usize },
    /// A symbol pair was neither `10` nor `01`; the block value is lost.
    Manchester { block: usize },
    StopBit { block: usize },
    Parity { block: usize },
    /// The start-of-frame flag must be set in block 0 and clear elsewhere.
    StartOfFrame { block: usize, value: bool },
    /// The burst did not quantise to exactly [`FRAME_BLOCKS`] blocks.
    BlockCount { blocks: usize },
}

impl Problem {
    /// The problem in words.
    pub open spec fn described(self) -> Seq<char> {
        match self {
            Problem::Sync { block } => "block "@ + text::decimal(block as nat) + ": bad sync"@,
            Problem::Manchester { block } => "block "@ + text::decimal(block as nat)
                + ": Manchester violation"@,
            Problem::StopBit { block } => "block "@ + text::decimal(block as nat)
                + ": stop bit not set"@,
            Problem::Parity { block } => "block "@ + text::decimal(block as nat) + ": parity"@,
            Problem::StartOfFrame { block, value } => "block "@ + text::decimal(block as nat)
                + ": start-of-frame flag is "@ + text::decimal(
                if value {
                    1
                } else {
                    0
                },
            ),
            Problem::BlockCount { blocks } => text::decimal(blocks as nat) + " blocks, expected 7"@,
        }
    }

    /// The problem in words.
    pub fn to_string(&self) -> (result: String)
        ensures
            result@ == self.described(),
    {
        let mut out: String = String::new();
        match self {
            Problem::Sync { block } => {
                push_block_number(&mut out, *block);
                out.append(": bad sync");
            },
            Problem::Manchester { block } => {
                push_block_number(&mut out, *block);
                out.append(": Manchester violation");
            },
            Problem::StopBit { block } => {
                push_block_number(&mut out, *block);
                out.append(": stop bit not set");
            },
            Problem::Parity { block } => {
                push_block_number(&mut out, *block);
                out.append(": parity");
            },
            Problem::StartOfFrame { block, value } => {
                push_block_number(&mut out, *block);
                out.append(": start-of-frame flag is ");
                text::push_decimal(
                    &mut out,
                    if *value {
                        1
                    } else {
                        0
                    },
                );
            },
            Problem::BlockCount { blocks } => {
                text::push_decimal(&mut out, *blocks as u128);
                out.append(" blocks, expected 7");
            },
        }
        assert(out@ =~= self.described());
        out
    }
}

fn push_block_number(out: &mut String, block: usize)
    ensures
        final(out)@ == old(out)@ + "block "@ + text::decimal(block as nat),
{
    out.append("block ");
    text::push_decimal(out, block as u128);
}

/// The value a block carries; none where Manchester decoding fails.
pub open spec fn value_of(block: Seq<bool>) -> Option<u8> {
    if violates(block) {
        None
    } else {
        Some(number(paired_bits(block).take(8)) as u8)
    }
}

/// The one problem, if there is one.
pub open spec fn noted(found: bool, problem: Problem) -> Seq<Problem> {
    if found {
        seq![problem]
    } else {
        Seq::empty()
    }
}

/// The framing rules that a block breaks, in the order they are checked.
pub open spec fn problems_of(symbols: Seq<bool>, index: int) -> Seq<Problem> {
    let block = index as usize;
    let bits = paired_bits(symbols);
    noted(symbols.take(SYNC_SYMBOLS as int) != sync(), Problem::Sync { block }) + if violates(
        symbols,
    ) {
        seq![Problem::Manchester { block }]
    } else {
        noted(!bits[10], Problem::StopBit { block }) + noted(
            ones(bits.take(10)) % 2 == 1,
            Problem::Parity { block },
        ) + noted(
            bits[8] != (index == 0),
            Problem::StartOfFrame { block, value: bits[8] },
        )
    }
}

/// What a decoded burst reports.
#[verifier::ext_equal]
pub struct Report {
    pub blocks: Seq<Option<u8>>,
    pub problems: Seq<Problem>,
}

/// The report of the first `count` blocks.
pub open spec fn report_of(symbols: Seq<bool>, count: nat) -> Report
    decreases count,
{
    if count == 0 {
        Report { blocks: Seq::empty(), problems: Seq::empty() }
    } else {
        let before = report_of(symbols, (count - 1) as nat);
        let block = symbols.subrange(
            BLOCK_SYMBOLS * (count - 1),
            BLOCK_SYMBOLS * (count - 1) + BLOCK_SYMBOLS,
        );
        Report {
            blocks: before.blocks.push(value_of(block)),
            problems: before.problems + problems_of(block, count - 1),
        }
    }
}

/// The report of a burst, symbol by symbol.
pub open spec fn judged(symbols: Seq<bool>) -> Report {
    let report = report_of(symbols, symbols.len() / BLOCK_SYMBOLS as nat);
    if report.blocks.len() == FRAME_BLOCKS {
        report
    } else {
        Report {
            problems: report.problems.push(
                Problem::BlockCount { blocks: report.blocks.len() as usize },
            ),
            ..report
        }
    }
}

/// The report of a burst.
pub open spec fn decoded(timings: Seq<i64>) -> Report {
    judged(filled(quantised(timings)))
}

impl Report {
    /// Every framing rule held and all seven blocks decoded.
    pub open spec fn clean(self) -> bool {
        &&& self.problems.len() == 0
        &&& self.blocks.len() == FRAME_BLOCKS
        &&& forall|k: int| 0 <= k < FRAME_BLOCKS ==> #[trigger] self.blocks[k] is Some
    }

    /// The frame, if the burst decoded cleanly.
    pub open spec fn frame(self) -> Option<Frame> {
        match (
            self.blocks[0],
            self.blocks[1],
            self.blocks[2],
            self.blocks[3],
            self.blocks[4],
        ) {
            (Some(serial1), Some(serial2), Some(version), Some(cmd1), Some(cmd2)) if self.clean() =>
                Some(Frame { serial1, serial2, version, cmd1, cmd2 }),
            _ => None,
        }
    }

    /// The per-remote checksum constants, if the burst decoded cleanly.
    pub open spec fn keys(self) -> Option<Keys> {
        match (self.blocks[3], self.blocks[4], self.blocks[5], self.blocks[6]) {
            (Some(cmd1), Some(cmd2), Some(sum1), Some(sum2)) if self.clean() => Some(
                Keys { k1: mixed(cmd1) ^ sum1, k2: mixed(cmd2) ^ sum2 },
            ),
            _ => None,
        }
    }
}

/// Append the last `count` binary digits of a number.
fn push_binary(bits: &mut Vec<bool>, value: u8, count: usize)
    ensures
        final(bits)@ == old(bits)@ + binary(value as nat, count as nat),
    decreases count,
{
    if count > 0 {
        push_binary(bits, value / 2, count - 1);
        bits.push(value % 2 == 1);
    }
    assert(bits@ =~= old(bits)@ + binary(value as nat, count as nat));
}

/// Whether an odd number of the first `count` bits is set.
fn odd(bits: &Vec<bool>, count: usize) -> (result: bool)
    requires
        count <= bits@.len(),
    ensures
        result == (ones(bits@.take(count as int)) % 2 == 1),
{
    let mut result: bool = false;
    for k in 0..count
        invariant
            count <= bits@.len(),
            result == (ones(bits@.take(k as int)) % 2 == 1),
    {
        assert(bits@.take(k + 1).drop_last() =~= bits@.take(k as int));
        if bits[k] {
            result = !result;
        }
    }
    result
}

fn push_block(symbols: &mut Vec<bool>, value: u8, first: bool)
    ensures
        final(symbols)@ == old(symbols)@ + block_symbols(value, first),
{
    let mut bits: Vec<bool> = Vec::new();
    push_binary(&mut bits, value, 8);
    assert(bits@ =~= binary(value as nat, 8));
    proof {
        laws::binary_length(value as nat, 8);
    }
    bits.push(first);
    assert(bits@.take(9) =~= bits@);
    let parity: bool = odd(&bits, 9);
    bits.push(parity);
    bits.push(true);
    assert(bits@ =~= block_bits(value, first));

    symbols.push(true);
    symbols.push(true);
    symbols.push(true);
    symbols.push(false);
    let ghost head = symbols@;
    assert(head =~= old(symbols)@ + sync());
    for k in 0..bits.len()
        invariant
            bits@ == block_bits(value, first),
            symbols@ == head + manchester(bits@).take(2 * k),
    {
        let bit: bool = bits[k];
        symbols.push(bit);
        symbols.push(!bit);
        assert(symbols@ =~= head + manchester(bits@).take(2 * (k + 1)));
    }
    assert(manchester(bits@).take(2 * bits@.len() as int) =~= manchester(bits@));
    assert(symbols@ =~= old(symbols)@ + block_symbols(value, first));
}

impl Frame {
    /// The seven block values as they go on air.
    pub open spec fn on_air(self, keys: Keys) -> Seq<u8> {
        seq![
            self.serial1,
            self.serial2,
            self.version,
            self.cmd1,
            self.cmd2,
            mixed(self.cmd1) ^ keys.k1,
            mixed(self.cmd2) ^ keys.k2,
        ]
    }

    /// The frame as timings. The last space is not among them: on air it is
    /// one with the silence that follows.
    pub open spec fn encoded(self, keys: Keys) -> Seq<i64> {
        bursts::trimmed(pulses(symbols_of(self.on_air(keys), FRAME_BLOCKS as nat)))
    }

    /// The seven block values as they go on air.
    pub fn blocks(&self, keys: Keys) -> (result: [u8; 7])
        ensures
            result@ == self.on_air(keys),
    {
        let result: [u8; 7] = [
            self.serial1,
            self.serial2,
            self.version,
            self.cmd1,
            self.cmd2,
            checksum(self.cmd1, keys.k1),
            checksum(self.cmd2, keys.k2),
        ];
        assert(result@ =~= self.on_air(keys));
        result
    }

    /// Encode as a Flipper-RAW timing array (positive = mark, negative =
    /// space), symbols exactly [`SYMBOL_US`] long.
    ///
    /// The result ends on a mark. The frame's true final space is
    /// indistinguishable on air from the silence that follows it, so it
    /// belongs to the inter-frame gap the caller inserts; this also makes
    /// encode and demodulated captures byte-comparable.
    pub fn to_timings(&self, keys: Keys) -> (result: Vec<i64>)
        ensures
            result@ == self.encoded(keys),
    {
        let blocks: [u8; 7] = self.blocks(keys);
        let mut symbols: Vec<bool> = Vec::new();
        for index in 0..FRAME_BLOCKS
            invariant
                blocks@ == self.on_air(keys),
                symbols@ == symbols_of(blocks@, index as nat),
        {
            push_block(&mut symbols, blocks[index], index == 0);
        }
        proof {
            laws::symbols_length(blocks@, FRAME_BLOCKS as nat);
        }
        let mut timings: Vec<i64> = Vec::new();
        assert(timings@ =~= pulses(symbols@.take(0)));
        for k in 0..symbols.len()
            invariant
                symbols@.len() == 182,
                timings@ == pulses(symbols@.take(k as int)),
        {
            let symbol: bool = symbols[k];
            let signed: i64 = if symbol {
                SYMBOL_US
            } else {
                -SYMBOL_US
            };
            let ghost before = symbols@.take(k as int);
            let ghost after = symbols@.take(k + 1);
            let ghost stretches = runs::stretches(before);
            proof {
                assert(after.drop_last() =~= before);
                runs::stretch_bound(before);
                crate::ook::round_trip::last_stretch(before);
                if stretches.len() > 0 {
                    let last = stretches[stretches.len() - 1];
                    assert(timings@[timings@.len() - 1] == pulse(last));
                    assert(0 < last.1 <= 182);
                }
            }
            let count: usize = timings.len();
            if count > 0 && (timings[count - 1] > 0) == symbol {
                timings[count - 1] = timings[count - 1] + signed;
            } else {
                timings.push(signed);
            }
            assert(timings@ =~= pulses(after));
        }
        assert(symbols@.take(symbols@.len() as int) =~= symbols@);
        while timings.len() > 0 && timings[timings.len() - 1] < 0
            invariant
                bursts::trimmed(timings@) == bursts::trimmed(pulses(symbols@)),
            decreases timings@.len(),
        {
            timings.pop();
        }
        timings
    }

    /// The appliance state this frame commands.
    pub fn state(&self) -> (result: State)
        ensures
            result == State::commanded(self.cmd1, self.cmd2),
    {
        State::from_commands(self.cmd1, self.cmd2)
    }
}

/// One decoded burst: every block value that survived Manchester decoding,
/// and every framing rule that failed.
///
/// Partial results matter here (a burst with one damaged block still says a
/// lot during protocol analysis) so this is a report, not a `Result`.
#[derive(Debug, Clone, Default)]
pub struct Decoded {
    /// Per-block value, in air order; `None` where Manchester decoding failed.
    pub blocks: Vec<Option<u8>>,
    pub problems: Vec<Problem>,
}

impl View for Decoded {
    type V = Report;

    open spec fn view(&self) -> Report {
        Report { blocks: self.blocks@, problems: self.problems@ }
    }
}

impl Decoded {
    /// Every framing rule held and all seven blocks decoded.
    pub fn is_clean(&self) -> (result: bool)
        ensures
            result == self@.clean(),
    {
        if self.problems.len() != 0 || self.blocks.len() != FRAME_BLOCKS {
            return false;
        }
        for k in 0..FRAME_BLOCKS
            invariant
                self.problems@.len() == 0,
                self.blocks@.len() == FRAME_BLOCKS,
                forall|j: int| 0 <= j < k ==> #[trigger] self.blocks@[j] is Some,
        {
            if self.blocks[k].is_none() {
                assert(self@.blocks[k as int] is None);
                return false;
            }
        }
        true
    }

    /// The frame, if the burst decoded cleanly.
    pub fn frame(&self) -> (result: Option<Frame>)
        ensures
            result == self@.frame(),
    {
        if !self.is_clean() {
            return None;
        }
        match (self.blocks[0], self.blocks[1], self.blocks[2], self.blocks[3], self.blocks[4]) {
            (Some(serial1), Some(serial2), Some(version), Some(cmd1), Some(cmd2)) => Some(
                Frame { serial1, serial2, version, cmd1, cmd2 },
            ),
            _ => None,
        }
    }

    /// The per-remote checksum constants, if the burst decoded cleanly.
    pub fn keys(&self) -> (result: Option<Keys>)
        ensures
            result == self@.keys(),
    {
        if !self.is_clean() {
            return None;
        }
        match (self.blocks[3], self.blocks[4], self.blocks[5], self.blocks[6]) {
            (Some(cmd1), Some(cmd2), Some(sum1), Some(sum2)) => Some(
                Keys { k1: derive_key(cmd1, sum1), k2: derive_key(cmd2, sum2) },
            ),
            _ => None,
        }
    }
}

fn whole_symbols(timing: i64) -> (count: usize)
    ensures
        count == symbol_count(timing as int),
{
    let us: u64 = if timing < 0 {
        (-(timing as i128)) as u64
    } else {
        timing as u64
    };
    let count: usize = Float::from_u64(us).over(Float::from_u64(SYMBOL_US as u64)).round_to_usize();
    if count < 1 {
        1
    } else {
        count
    }
}

/// Whether a block opens with the sync pattern.
fn opens_in_sync(block: &[bool]) -> (result: bool)
    requires
        block@.len() == BLOCK_SYMBOLS,
    ensures
        result == (block@.take(SYNC_SYMBOLS as int) == sync()),
{
    let result: bool = block[0] && block[1] && block[2] && !block[3];
    proof {
        let head = block@.take(4);
        if result {
            assert(head =~= sync());
        } else {
            assert(head[0] == block@[0] && head[1] == block@[1] && head[2] == block@[2] && head[3]
                == block@[3]);
            assert(sync()[0] && sync()[1] && sync()[2] && !sync()[3]);
        }
    }
    result
}

/// The bits of a block's symbol pairs, and whether a pair spells none.
fn read_pairs(block: &[bool]) -> (result: (Vec<bool>, bool))
    requires
        block@.len() == BLOCK_SYMBOLS,
    ensures
        result.0@ == paired_bits(block@),
        result.1 == violates(block@),
{
    let mut bits: Vec<bool> = Vec::new();
    let mut violated: bool = false;
    for k in 0..BITS_PER_BLOCK
        invariant
            block@.len() == BLOCK_SYMBOLS,
            bits@ == paired_bits(block@).take(k as int),
            violated == exists|j: int|
                0 <= j < k && #[trigger] paired_bits(block@)[j] == block@[SYNC_SYMBOLS + 2 * j + 1],
    {
        let bit: bool = block[SYNC_SYMBOLS + 2 * k];
        assert(paired_bits(block@)[k as int] == bit);
        if bit == block[SYNC_SYMBOLS + 2 * k + 1] {
            violated = true;
        }
        bits.push(bit);
    }
    assert(bits@ =~= paired_bits(block@));
    (bits, violated)
}

/// The number that the first eight bits spell.
fn data_byte(bits: &Vec<bool>) -> (value: u8)
    requires
        bits@.len() == BITS_PER_BLOCK,
    ensures
        value == number(bits@.take(8)),
{
    let mut value: u8 = 0;
    proof {
        laws::number_bound(bits@.take(8));
        assert(number(bits@.take(0)) == 0);
    }
    for k in 0..8
        invariant
            bits@.len() == BITS_PER_BLOCK,
            value == number(bits@.take(k as int)),
            number(bits@.take(8)) < 256,
    {
        proof {
            assert(bits@.take(k + 1).drop_last() =~= bits@.take(k as int));
            laws::number_grows(bits@.take(8), k + 1);
            assert(bits@.take(8).take(k + 1) =~= bits@.take(k + 1));
        }
        value = 2 * value + if bits[k] {
            1
        } else {
            0
        };
    }
    value
}

fn note(problems: &mut Vec<Problem>, found: bool, problem: Problem)
    ensures
        final(problems)@ == old(problems)@ + noted(found, problem),
{
    if found {
        problems.push(problem);
    }
    assert(problems@ =~= old(problems)@ + noted(found, problem));
}

/// Judge one block of symbols.
fn judge_block(block: &[bool], index: usize, report: &mut Decoded)
    requires
        block@.len() == BLOCK_SYMBOLS,
    ensures
        final(report).blocks@ == old(report).blocks@.push(value_of(block@)),
        final(report).problems@ == old(report).problems@ + problems_of(block@, index as int),
{
    let in_sync: bool = opens_in_sync(block);
    note(&mut report.problems, !in_sync, Problem::Sync { block: index });
    let (bits, violated) = read_pairs(block);
    if violated {
        note(&mut report.problems, true, Problem::Manchester { block: index });
        report.blocks.push(None);
    } else {
        let parity: bool = odd(&bits, 10);
        note(&mut report.problems, !bits[10], Problem::StopBit { block: index });
        note(&mut report.problems, parity, Problem::Parity { block: index });
        note(
            &mut report.problems,
            bits[8] != (index == 0),
            Problem::StartOfFrame { block: index, value: bits[8] },
        );
        report.blocks.push(Some(data_byte(&bits)));
    }
    assert(report.problems@ =~= old(report).problems@ + problems_of(block@, index as int));
}

/// Decode one demodulated burst.
///
/// Timings are quantised to the nearest whole symbol, then padded with space
/// symbols to a block boundary: a burst always ends on a mark because its
/// final space has no terminating edge, so the missing tail is restored from
/// the known block length rather than being a decode error.
///
/// The symbols of the burst are all held at once.
pub fn decode(timings: &[i64]) -> (result: Decoded)
    requires
        quantised(timings@).len() + BLOCK_SYMBOLS <= isize::MAX,
    ensures
        result@ == decoded(timings@),
{
    let mut symbols: Vec<bool> = Vec::new();
    for k in 0..timings.len()
        invariant
            symbols@ == quantised(timings@.take(k as int)),
    {
        let timing: i64 = timings[k];
        let count: usize = whole_symbols(timing);
        let ghost before = symbols@;
        for n in 0..count
            invariant
                symbols@ == before + Seq::new(n as nat, |j: int| timing > 0),
        {
            symbols.push(timing > 0);
            assert(symbols@ =~= before + Seq::new((n + 1) as nat, |j: int| timing > 0));
        }
        assert(timings@.take(k + 1).drop_last() =~= timings@.take(k as int));
        assert(symbols@ =~= quantised(timings@.take(k + 1)));
    }
    assert(timings@.take(timings@.len() as int) =~= timings@);
    let ghost all = symbols@;
    let missing: usize = (BLOCK_SYMBOLS - symbols.len() % BLOCK_SYMBOLS) % BLOCK_SYMBOLS;
    for n in 0..missing
        invariant
            symbols@ == all + Seq::new(n as nat, |j: int| false),
    {
        symbols.push(false);
        assert(symbols@ =~= all + Seq::new((n + 1) as nat, |j: int| false));
    }
    assert(symbols@ =~= filled(all));

    let mut report = Decoded { blocks: Vec::new(), problems: Vec::new() };
    let count: usize = symbols.len() / BLOCK_SYMBOLS;
    let mut start: usize = 0;
    assert(report@ =~= report_of(symbols@, 0));
    for index in 0..count
        invariant
            count == symbols@.len() / 26,
            start == 26 * index,
            report@ == report_of(symbols@, index as nat),
            report.blocks@.len() == index,
    {
        assert(start + 26 <= symbols.len());
        let end: usize = start + BLOCK_SYMBOLS;
        let block: &[bool] = vstd::slice::slice_subrange(symbols.as_slice(), start, end);
        judge_block(block, index, &mut report);
        assert(report@ =~= report_of(symbols@, (index + 1) as nat));
        start = end;
    }
    if report.blocks.len() != FRAME_BLOCKS {
        let blocks: usize = report.blocks.len();
        report.problems.push(Problem::BlockCount { blocks });
    }
    assert(report@ =~= judged(symbols@));
    report
}

/// How many symbols a burst quantises to; `None` where that is more than can
/// be held.
pub fn burst_symbols(timings: &[i64]) -> (result: Option<usize>)
    ensures
        match result {
            Some(count) => count == quantised(timings@).len() && count + BLOCK_SYMBOLS
                <= isize::MAX,
            None => quantised(timings@).len() + BLOCK_SYMBOLS > isize::MAX,
        },
{
    let limit: u128 = isize::MAX as u128;
    let mut total: u128 = 0;
    for k in 0..timings.len()
        invariant
            limit == isize::MAX,
            total == quantised(timings@.take(k as int)).len(),
            total + 26 <= limit,
    {
        assert(timings@.take(k + 1).drop_last() =~= timings@.take(k as int));
        total = total + whole_symbols(timings[k]) as u128;
        if total + 26 > limit {
            proof {
                laws::quantised_grows(timings@, k + 1);
            }
            return None;
        }
    }
    assert(timings@.take(timings@.len() as int) =~= timings@);
    Some(total as usize)
}

} // verus!
