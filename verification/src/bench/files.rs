//! Timings files: what `demod` writes, and what `decode` and `transmit` make
//! of one.
//!
//! A file is JSON: one burst as a list of timings, or a list of such lists.

use vstd::prelude::*;

use crate::bench::report;
use crate::bench::report::Findings;
use crate::ook::analysis;
use crate::ook::analysis::{duration_us, is_countable};
use crate::ook::bursts;
use crate::ook::synthesis;
use crate::ook::synthesis::{render_transmission, transmission_bytes};
use crate::proflame;
use crate::proflame::burst_symbols;
use crate::radio;
use crate::radio::{pad_to_alignment, XFER_ALIGN};
use crate::text;

verus! {

/// How loud a timings file is sent.
pub const AMPLITUDE: i8 = 100;

/// Some texts with commas between them.
pub open spec fn comma_separated(items: Seq<Seq<char>>) -> Seq<char>
    decreases items.len(),
{
    if items.len() == 0 {
        Seq::empty()
    } else if items.len() == 1 {
        items[0]
    } else {
        comma_separated(items.drop_last()) + seq![','] + items.last()
    }
}

/// A JSON list, without a blank in it.
pub open spec fn json_list(items: Seq<Seq<char>>) -> Seq<char> {
    seq!['['] + comma_separated(items) + seq![']']
}

/// One burst as JSON.
pub open spec fn burst_json(timings: Seq<i64>) -> Seq<char> {
    json_list(timings.map_values(|timing: i64| text::signed_decimal(timing as int)))
}

/// A list of bursts as JSON.
pub open spec fn bursts_json(bursts: Seq<Seq<i64>>) -> Seq<char> {
    json_list(bursts.map_values(|timings: Seq<i64>| burst_json(timings)))
}

/// What `serde_json` reads as one list of timings: the timings, or else in
/// which words it refuses the text.
pub uninterp spec fn timings_in(json: Seq<char>) -> Result<Seq<i64>, Seq<char>>;

/// What `serde_json` reads as a list of such lists: the bursts, or else in
/// which words it refuses the text.
pub uninterp spec fn bursts_in(json: Seq<char>) -> Result<Seq<Seq<i64>>, Seq<char>>;

/// What came of reading one list of timings.
pub open spec fn timings_read(read: Result<Vec<i64>, String>) -> Result<Seq<i64>, Seq<char>> {
    match read {
        Ok(timings) => Ok(timings@),
        Err(words) => Err(words@),
    }
}

/// What came of reading a list of bursts.
pub open spec fn bursts_read(read: Result<Vec<Vec<i64>>, String>) -> Result<
    Seq<Seq<i64>>,
    Seq<char>,
> {
    match read {
        Ok(found) => Ok(bursts::contents(found@)),
        Err(words) => Err(words@),
    }
}

/// Whether these timings were read.
pub open spec fn gives_timings(read: Result<Vec<i64>, String>, timings: Seq<i64>) -> bool {
    read matches Ok(found) && found@ == timings
}

/// Whether these bursts were read.
pub open spec fn gives_bursts(read: Result<Vec<Vec<i64>>, String>, sent: Seq<Seq<i64>>) -> bool {
    read matches Ok(found) && bursts::contents(found@) == sent
}

/// Whether this text was written.
pub open spec fn gives_text(written: Result<String, String>, json: Seq<char>) -> bool {
    written matches Ok(found) && found@ == json
}

/// `serde_json::from_str`, asked for a `Vec<i64>`, and its error's own words.
///
/// The claim is that the outcome depends on the text alone, and that a list of
/// integers written without blanks is read back as it was.
#[verifier::external_body]
fn parse_timings(json: &str) -> (result: Result<Vec<i64>, String>)
    ensures
        timings_read(result) == timings_in(json@),
        forall|timings: Seq<i64>| #[trigger]
            burst_json(timings) == json@ ==> gives_timings(result, timings),
{
    match serde_json::from_str::<Vec<i64>>(json) {
        Ok(timings) => Ok(timings),
        Err(error) => Err(error.to_string()),
    }
}

/// `serde_json::from_str`, asked for a `Vec<Vec<i64>>`, and its error's own
/// words.
///
/// The claim is that the outcome depends on the text alone, that a list of
/// lists of integers written without blanks is read back as it was, and that a
/// list that begins with an integer is refused.
#[verifier::external_body]
fn parse_bursts(json: &str) -> (result: Result<Vec<Vec<i64>>, String>)
    ensures
        bursts_read(result) == bursts_in(json@),
        forall|found: Seq<Seq<i64>>| #[trigger]
            bursts_json(found) == json@ ==> gives_bursts(result, found),
        forall|timings: Seq<i64>| #[trigger]
            burst_json(timings) == json@ && timings.len() > 0 ==> result is Err,
{
    match serde_json::from_str::<Vec<Vec<i64>>>(json) {
        Ok(found) => Ok(found),
        Err(error) => Err(error.to_string()),
    }
}

/// `serde_json::to_string` of a `Vec<i64>`.
///
/// The claim is that it succeeds, and writes the integers in decimal, between
/// brackets and with commas, without a blank.
#[verifier::external_body]
fn print_timings(timings: &Vec<i64>) -> (result: Result<String, String>)
    ensures
        gives_text(result, burst_json(timings@)),
{
    match serde_json::to_string(timings) {
        Ok(json) => Ok(json),
        Err(error) => Err(error.to_string()),
    }
}

/// `serde_json::to_string` of a `Vec<Vec<i64>>`.
///
/// The claim is that it succeeds, and writes the lists between brackets and
/// with commas, without a blank, each one as it would be written alone.
#[verifier::external_body]
fn print_bursts(found: &Vec<Vec<i64>>) -> (result: Result<String, String>)
    ensures
        gives_text(result, bursts_json(bursts::contents(found@))),
{
    match serde_json::to_string(found) {
        Ok(json) => Ok(json),
        Err(error) => Err(error.to_string()),
    }
}

/// One burst as a timings file.
pub fn burst_file(timings: &Vec<i64>) -> (result: Result<String, String>)
    ensures
        gives_text(result, burst_json(timings@)),
{
    print_timings(timings)
}

/// Every burst of a capture as a timings file.
pub fn bursts_file(found: &Vec<Vec<i64>>) -> (result: Result<String, String>)
    ensures
        gives_text(result, bursts_json(bursts::contents(found@))),
{
    print_bursts(found)
}

/// Why a timings file cannot be sent.
#[derive(Debug, Clone)]
pub enum Unsendable {
    /// The file is not one list of integers, in the parser's words.
    NotTimings { words: String },
    /// The list is empty.
    NoTimings,
    /// The samples would not fit into a buffer.
    TooLong,
}

/// A timings file, ready for the radio.
#[derive(Debug, Clone)]
pub struct Prepared {
    /// The waveform, padded for the transfers.
    pub samples: Vec<u8>,
    /// How many timings one frame has.
    pub edges: usize,
    /// How long one frame lasts, in microseconds; `None` where that is more
    /// than can be told.
    pub duration_us: Option<i64>,
}

/// The waveform that some timings are sent as.
pub open spec fn waveform(
    timings: Seq<i64>,
    repeat: u32,
    gap_us: u32,
    sample_rate: u32,
) -> Seq<u8> {
    radio::aligned(synthesis::transmission(timings, repeat, gap_us, sample_rate, AMPLITUDE))
}

impl Prepared {
    /// Whether this is what some timings are sent as.
    pub open spec fn carries(
        self,
        timings: Seq<i64>,
        repeat: u32,
        gap_us: u32,
        sample_rate: u32,
    ) -> bool {
        &&& self.samples@ == waveform(timings, repeat, gap_us, sample_rate)
        &&& self.edges == timings.len()
        &&& match self.duration_us {
            Some(duration) => duration == analysis::air_time(timings),
            None => analysis::air_time(timings) > i64::MAX,
        }
    }
}

/// Whether this is what comes of preparing some timings.
pub open spec fn prepares(
    timings: Seq<i64>,
    repeat: u32,
    gap_us: u32,
    sample_rate: u32,
    outcome: Result<Prepared, Unsendable>,
) -> bool {
    match outcome {
        Ok(prepared) => {
            &&& timings.len() > 0
            &&& waveform(timings, repeat, gap_us, sample_rate).len() <= isize::MAX
            &&& prepared.carries(timings, repeat, gap_us, sample_rate)
        },
        Err(Unsendable::NotTimings { .. }) => false,
        Err(Unsendable::NoTimings) => timings.len() == 0,
        Err(Unsendable::TooLong) => timings.len() > 0 && waveform(
            timings,
            repeat,
            gap_us,
            sample_rate,
        ).len() > isize::MAX,
    }
}

/// Whether this is what comes of preparing what was read.
pub open spec fn prepares_read(
    read: Result<Seq<i64>, Seq<char>>,
    repeat: u32,
    gap_us: u32,
    sample_rate: u32,
    outcome: Result<Prepared, Unsendable>,
) -> bool {
    match read {
        Ok(timings) => prepares(timings, repeat, gap_us, sample_rate, outcome),
        Err(told) => outcome matches Err(Unsendable::NotTimings { words }) && words@ == told,
    }
}

/// Render timings into what the radio is handed: the frame and its
/// repetitions, padded to whole transfers.
pub fn prepare(timings: &Vec<i64>, repeat: u32, gap_us: u32, sample_rate: u32) -> (result: Result<
    Prepared,
    Unsendable,
>)
    ensures
        prepares(timings@, repeat, gap_us, sample_rate, result),
{
    if timings.len() == 0 {
        return Err(Unsendable::NoTimings);
    }
    let ghost frames = synthesis::transmission(timings@, repeat, gap_us, sample_rate, AMPLITUDE);
    proof {
        radio::padding_aligns(frames);
    }
    let bytes: usize = match transmission_bytes(timings, repeat, gap_us, sample_rate) {
        Some(bytes) => bytes,
        None => {
            return Err(Unsendable::TooLong);
        },
    };
    let padding: usize = (XFER_ALIGN - bytes % XFER_ALIGN) % XFER_ALIGN;
    if padding > isize::MAX as usize - bytes {
        return Err(Unsendable::TooLong);
    }
    let mut samples: Vec<u8> = render_transmission(timings, repeat, gap_us, sample_rate, AMPLITUDE);
    pad_to_alignment(&mut samples);
    let duration: Option<i64> = if is_countable(timings) {
        Some(duration_us(timings))
    } else {
        None
    };
    Ok(Prepared { samples, edges: timings.len(), duration_us: duration })
}

/// Render what was read from a timings file, where it was timings.
pub fn prepare_read(
    read: Result<Vec<i64>, String>,
    repeat: u32,
    gap_us: u32,
    sample_rate: u32,
) -> (result: Result<Prepared, Unsendable>)
    ensures
        prepares_read(timings_read(read), repeat, gap_us, sample_rate, result),
{
    match read {
        Ok(timings) => prepare(&timings, repeat, gap_us, sample_rate),
        Err(words) => Err(Unsendable::NotTimings { words }),
    }
}

/// Render a timings file into what the radio is handed. One burst that `demod`
/// wrote is sent as it was.
pub fn prepare_file(json: &str, repeat: u32, gap_us: u32, sample_rate: u32) -> (result: Result<
    Prepared,
    Unsendable,
>)
    ensures
        prepares_read(timings_in(json@), repeat, gap_us, sample_rate, result),
        forall|timings: Seq<i64>| #[trigger]
            burst_json(timings) == json@ ==> prepares(
                timings,
                repeat,
                gap_us,
                sample_rate,
                result,
            ),
{
    prepare_read(parse_timings(json), repeat, gap_us, sample_rate)
}

/// Why a timings file cannot be decoded.
#[derive(Debug, Clone)]
pub enum Undecodable {
    /// The file is neither a list of bursts nor one burst, in the parser's
    /// words.
    NotTimings { words: String },
    /// A burst has more symbols than can be held.
    TooLong,
}

/// The bursts of a file, of what it reads as: a list of bursts, or else one.
pub open spec fn listed(
    many: Result<Seq<Seq<i64>>, Seq<char>>,
    one: Result<Seq<i64>, Seq<char>>,
) -> Result<Seq<Seq<i64>>, Seq<char>> {
    match (many, one) {
        (Ok(found), _) => Ok(found),
        (Err(_), Ok(timings)) => Ok(seq![timings]),
        (Err(_), Err(words)) => Err(words),
    }
}

/// Whether every burst's symbols can be held.
pub open spec fn decodable(found: Seq<Seq<i64>>) -> bool {
    forall|k: int|
        #![trigger found[k]]
        0 <= k < found.len() ==> proflame::quantised(found[k]).len() + proflame::BLOCK_SYMBOLS
            <= isize::MAX
}

/// Whether this is what comes of decoding some bursts.
pub open spec fn decodes(found: Seq<Seq<i64>>, outcome: Result<Findings, Undecodable>) -> bool {
    match outcome {
        Ok(findings) => decodable(found) && findings.follow_from(found),
        Err(Undecodable::NotTimings { .. }) => false,
        Err(Undecodable::TooLong) => !decodable(found),
    }
}

/// Whether this is what comes of decoding what was read.
pub open spec fn decodes_read(
    read: Result<Seq<Seq<i64>>, Seq<char>>,
    outcome: Result<Findings, Undecodable>,
) -> bool {
    match read {
        Ok(found) => decodes(found, outcome),
        Err(told) => outcome matches Err(Undecodable::NotTimings { words }) && words@ == told,
    }
}

/// The bursts of a file. `demod --out` writes one burst, `--out-all` a list of
/// bursts; both are accepted.
pub fn list_bursts(many: Result<Vec<Vec<i64>>, String>, one: Result<Vec<i64>, String>) -> (result:
    Result<Vec<Vec<i64>>, String>)
    ensures
        bursts_read(result) == listed(bursts_read(many), timings_read(one)),
{
    match many {
        Ok(found) => Ok(found),
        Err(_) => match one {
            Ok(timings) => {
                let mut found: Vec<Vec<i64>> = Vec::new();
                found.push(timings);
                assert(bursts::contents(found@) =~= seq![timings@]);
                Ok(found)
            },
            Err(words) => Err(words),
        },
    }
}

/// Decode every burst, where their symbols can be held.
pub fn decode_bursts(found: &Vec<Vec<i64>>) -> (result: Result<Findings, Undecodable>)
    ensures
        decodes(bursts::contents(found@), result),
{
    let ghost sent = bursts::contents(found@);
    for k in 0..found.len()
        invariant
            sent == bursts::contents(found@),
            forall|i: int|
                #![trigger found@[i]]
                0 <= i < k ==> proflame::quantised(found@[i]@).len() + proflame::BLOCK_SYMBOLS
                    <= isize::MAX,
    {
        if burst_symbols(&found[k]).is_none() {
            assert(sent[k as int] == found@[k as int]@);
            return Err(Undecodable::TooLong);
        }
    }
    Ok(report::report(found))
}

/// Decode what was read from a timings file, where it was bursts.
pub fn decode_read(read: Result<Vec<Vec<i64>>, String>) -> (result: Result<Findings, Undecodable>)
    ensures
        decodes_read(bursts_read(read), result),
{
    match read {
        Ok(found) => decode_bursts(&found),
        Err(words) => Err(Undecodable::NotTimings { words }),
    }
}

/// Decode a timings file. What `demod` wrote, be it every burst of a capture or
/// one of them, is what gets decoded.
pub fn decode_file(json: &str) -> (result: Result<Findings, Undecodable>)
    ensures
        decodes_read(listed(bursts_in(json@), timings_in(json@)), result),
        forall|found: Seq<Seq<i64>>| #[trigger]
            bursts_json(found) == json@ ==> decodes(found, result),
        forall|timings: Seq<i64>| #[trigger]
            burst_json(timings) == json@ && timings.len() > 0 ==> decodes(seq![timings], result),
{
    decode_read(list_bursts(parse_bursts(json), parse_timings(json)))
}

/// Whether every file held frames of one remote.
pub open spec fn all_consistent(findings: Seq<Findings>) -> bool {
    forall|k: int| 0 <= k < findings.len() ==> (#[trigger] findings[k]).consistent
}

/// The verdict over all files.
pub fn verdict(findings: &Vec<Findings>) -> (result: bool)
    ensures
        result == all_consistent(findings@),
{
    for k in 0..findings.len()
        invariant
            forall|i: int| 0 <= i < k ==> (#[trigger] findings@[i]).consistent,
    {
        if !findings[k].consistent {
            return false;
        }
    }
    true
}

} // verus!
