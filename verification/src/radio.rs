//! HackRF device handling: what is asked of the hardware, and what is made of
//! what it delivers.

pub mod laws;

use vstd::prelude::*;

use crate::float;
use crate::float::Float;
use crate::ook::envelope;
use crate::ook::histogram;
use crate::ook::histogram::{AmplitudeHistogram, Tally};
use crate::text;

verus! {

/// USB bulk transfers must be a multiple of 512 bytes.
pub const XFER_ALIGN: usize = 512;

/// Per-transfer size; the driver keeps three of these in flight.
pub const TRANSFER_SIZE: usize = 32_768;

/// Transfers the driver keeps queued, which is also how much tail can be lost
/// when a stream is dropped.
pub const IN_FLIGHT_TRANSFERS: usize = 3;

/// |I| + |Q| saturates at 256; treat anything at the top as clipped.
pub const SATURATED: u16 = 250;

/// A capture whose peak stays below this probably heard nothing.
pub const WEAK: u16 = 20;

/// USB vendor id the HackRF family enumerates as.
pub const HACKRF_VENDOR_ID: u16 = 0x1d50;

/// USB product id of the HackRF One.
pub const HACKRF_ONE_ID: u16 = 0x6089;

/// USB product id of the Jawbreaker.
pub const JAWBREAKER_ID: u16 = 0x604b;

/// USB product id of the rad1o.
pub const RAD1O_ID: u16 = 0xcc15;

/// What the hardware cannot be asked for.
#[derive(Debug, Clone, Copy, PartialEq, Eq, Structural)]
pub enum Unsupported {
    LnaGain { lna_db: u16 },
    VgaGain { vga_db: u16 },
    TxGain { txvga_db: u16 },
    SampleRate { sample_rate: u32 },
    NoFrequencies,
    NothingToTransmit,
}

impl Unsupported {
    /// The refusal in words.
    pub open spec fn described(self) -> Seq<char> {
        match self {
            Unsupported::LnaGain { lna_db } => "LNA gain must be 0..=40 dB in 8 dB steps (got "@
                + text::decimal(lna_db as nat) + ")"@,
            Unsupported::VgaGain { vga_db } => "VGA gain must be 0..=62 dB in 2 dB steps (got "@
                + text::decimal(vga_db as nat) + ")"@,
            Unsupported::TxGain { txvga_db } => "TX VGA gain must be 0..=47 dB (got "@
                + text::decimal(txvga_db as nat) + ")"@,
            Unsupported::SampleRate { sample_rate } => "sample rate must be 2–20 Msps (got "@
                + text::decimal(sample_rate as nat) + ")"@,
            Unsupported::NoFrequencies => "no frequencies to scan"@,
            Unsupported::NothingToTransmit => "nothing to transmit"@,
        }
    }

    /// The refusal in words.
    pub fn to_string(&self) -> (result: String)
        ensures
            result@ == self.described(),
    {
        let mut out: String = String::new();
        match self {
            Unsupported::LnaGain { lna_db } => {
                out.append("LNA gain must be 0..=40 dB in 8 dB steps (got ");
                text::push_decimal(&mut out, *lna_db as u128);
                out.append(")");
            },
            Unsupported::VgaGain { vga_db } => {
                out.append("VGA gain must be 0..=62 dB in 2 dB steps (got ");
                text::push_decimal(&mut out, *vga_db as u128);
                out.append(")");
            },
            Unsupported::TxGain { txvga_db } => {
                out.append("TX VGA gain must be 0..=47 dB (got ");
                text::push_decimal(&mut out, *txvga_db as u128);
                out.append(")");
            },
            Unsupported::SampleRate { sample_rate } => {
                out.append("sample rate must be 2–20 Msps (got ");
                text::push_decimal(&mut out, *sample_rate as u128);
                out.append(")");
            },
            Unsupported::NoFrequencies => out.append("no frequencies to scan"),
            Unsupported::NothingToTransmit => out.append("nothing to transmit"),
        }
        assert(out@ =~= self.described());
        out
    }
}

/// Success, unless there is something that the hardware cannot do.
pub open spec fn unless(unsupported: Option<Unsupported>) -> Result<(), Unsupported> {
    match unsupported {
        Some(unsupported) => Err(unsupported),
        None => Ok(()),
    }
}

/// What is wrong with receive gains, the LNA first.
pub open spec fn rx_gains_fault(lna_db: u16, vga_db: u16) -> Option<Unsupported> {
    if lna_db > 40 || lna_db % 8 != 0 {
        Some(Unsupported::LnaGain { lna_db })
    } else if vga_db > 62 || vga_db % 2 != 0 {
        Some(Unsupported::VgaGain { vga_db })
    } else {
        None
    }
}

/// What is wrong with a transmit gain.
pub open spec fn tx_gain_fault(txvga_db: u16) -> Option<Unsupported> {
    if txvga_db > 47 {
        Some(Unsupported::TxGain { txvga_db })
    } else {
        None
    }
}

/// What is wrong with a sample rate.
pub open spec fn sample_rate_fault(sample_rate: u32) -> Option<Unsupported> {
    if 2_000_000 <= sample_rate <= 20_000_000 {
        None
    } else {
        Some(Unsupported::SampleRate { sample_rate })
    }
}

/// The first of two faults.
pub open spec fn first_fault(first: Option<Unsupported>, second: Option<Unsupported>) -> Option<
    Unsupported,
> {
    match first {
        Some(_) => first,
        None => second,
    }
}

/// Reject gains the hardware cannot represent.
///
/// The driver silently rounds LNA down to a multiple of 8 dB and would report
/// a gain that was never applied, so catch it here instead.
pub fn validate_rx_gains(lna_db: u16, vga_db: u16) -> (result: Result<(), Unsupported>)
    ensures
        result == unless(rx_gains_fault(lna_db, vga_db)),
{
    if lna_db > 40 || lna_db % 8 != 0 {
        return Err(Unsupported::LnaGain { lna_db });
    }
    if vga_db > 62 || vga_db % 2 != 0 {
        return Err(Unsupported::VgaGain { vga_db });
    }
    Ok(())
}

/// Reject gains the transmitter cannot do.
pub fn validate_tx_gain(txvga_db: u16) -> (result: Result<(), Unsupported>)
    ensures
        result == unless(tx_gain_fault(txvga_db)),
{
    if txvga_db > 47 {
        return Err(Unsupported::TxGain { txvga_db });
    }
    Ok(())
}

/// HackRF One accepts 2–20 Msps.
pub fn validate_sample_rate(sample_rate: u32) -> (result: Result<(), Unsupported>)
    ensures
        result == unless(sample_rate_fault(sample_rate)),
{
    if 2_000_000 <= sample_rate && sample_rate <= 20_000_000 {
        Ok(())
    } else {
        Err(Unsupported::SampleRate { sample_rate })
    }
}

/// Check the gains and the rate of a receiver.
fn validate_receiver(lna_db: u16, vga_db: u16, sample_rate: u32) -> (result: Result<
    (),
    Unsupported,
>)
    ensures
        result == unless(
            first_fault(rx_gains_fault(lna_db, vga_db), sample_rate_fault(sample_rate)),
        ),
{
    match validate_rx_gains(lna_db, vga_db) {
        Ok(()) => validate_sample_rate(sample_rate),
        Err(unsupported) => Err(unsupported),
    }
}

/// The radio's settings, as its driver takes them.
#[derive(Debug, Clone, Copy, PartialEq, Eq, Structural)]
pub struct RadioConfig {
    pub lna_db: u16,
    pub vga_db: u16,
    pub txvga_db: u16,
    pub amp_enable: bool,
    pub antenna_enable: bool,
    pub frequency_hz: u64,
    pub sample_rate_hz: u32,
    pub sample_rate_div: u32,
}

/// What to capture, and how.
#[derive(Debug, Clone, Copy)]
pub struct CaptureParams {
    pub frequency_hz: u64,
    pub sample_rate: u32,
    pub lna_db: u16,
    pub vga_db: u16,
    pub amp_enable: bool,
    pub seconds: Float,
}

/// What to scan, and how.
#[derive(Debug, Clone)]
pub struct ScanParams {
    pub frequencies: Vec<u64>,
    pub sample_rate: u32,
    pub lna_db: u16,
    pub vga_db: u16,
    pub amp_enable: bool,
    pub dwell_seconds: Float,
    pub passes: u32,
}

/// How to transmit.
#[derive(Debug, Clone, Copy)]
pub struct TransmitParams {
    pub frequency_hz: u64,
    pub sample_rate: u32,
    pub txvga_db: u16,
    pub amp_enable: bool,
}

/// Gains and rate the daemon drives the radio with.
#[derive(Debug, Clone, Copy)]
pub struct DeviceSettings {
    pub sample_rate: u32,
    pub lna_db: u16,
    pub vga_db: u16,
    pub rx_amp: bool,
}

/// How many whole samples a duration in seconds holds.
pub open spec fn samples_in(seconds: float::Binary, sample_rate: u32) -> int {
    float::trunc_into(
        float::product(seconds, float::from_nat(sample_rate as nat)),
        0,
        usize::MAX as int,
    )
}

/// How many whole samples a duration in seconds holds.
pub fn whole_samples(seconds: Float, sample_rate: u32) -> (result: usize)
    ensures
        result == samples_in(seconds@, sample_rate),
{
    seconds.times(Float::from_u64(sample_rate as u64)).trunc_to_usize()
}

impl CaptureParams {
    /// Reject gains and rates the hardware cannot do.
    pub fn validate(&self) -> (result: Result<(), Unsupported>)
        ensures
            result == unless(
                first_fault(
                    rx_gains_fault(self.lna_db, self.vga_db),
                    sample_rate_fault(self.sample_rate),
                ),
            ),
    {
        validate_receiver(self.lna_db, self.vga_db, self.sample_rate)
    }

    /// The settings to receive with.
    pub fn config(&self) -> (result: RadioConfig)
        ensures
            result == (RadioConfig {
                lna_db: self.lna_db,
                vga_db: self.vga_db,
                txvga_db: 0,
                amp_enable: self.amp_enable,
                antenna_enable: false,
                frequency_hz: self.frequency_hz,
                sample_rate_hz: self.sample_rate,
                sample_rate_div: 1,
            }),
    {
        RadioConfig {
            lna_db: self.lna_db,
            vga_db: self.vga_db,
            txvga_db: 0,
            amp_enable: self.amp_enable,
            antenna_enable: false,
            frequency_hz: self.frequency_hz,
            sample_rate_hz: self.sample_rate,
            sample_rate_div: 1,
        }
    }
}

impl ScanParams {
    /// Reject gains and rates the hardware cannot do, and a scan of nothing.
    pub fn validate(&self) -> (result: Result<(), Unsupported>)
        ensures
            result == unless(
                first_fault(
                    first_fault(
                        rx_gains_fault(self.lna_db, self.vga_db),
                        sample_rate_fault(self.sample_rate),
                    ),
                    if self.frequencies@.len() == 0 {
                        Some(Unsupported::NoFrequencies)
                    } else {
                        None
                    },
                ),
            ),
    {
        match validate_receiver(self.lna_db, self.vga_db, self.sample_rate) {
            Err(unsupported) => Err(unsupported),
            Ok(()) => {
                if self.frequencies.len() == 0 {
                    Err(Unsupported::NoFrequencies)
                } else {
                    Ok(())
                }
            },
        }
    }

    /// The settings to start receiving with, on the first frequency.
    pub fn config(&self) -> (result: RadioConfig)
        requires
            self.frequencies@.len() > 0,
        ensures
            result == (RadioConfig {
                lna_db: self.lna_db,
                vga_db: self.vga_db,
                txvga_db: 0,
                amp_enable: self.amp_enable,
                antenna_enable: false,
                frequency_hz: self.frequencies@[0],
                sample_rate_hz: self.sample_rate,
                sample_rate_div: 1,
            }),
    {
        RadioConfig {
            lna_db: self.lna_db,
            vga_db: self.vga_db,
            txvga_db: 0,
            amp_enable: self.amp_enable,
            antenna_enable: false,
            frequency_hz: self.frequencies[0],
            sample_rate_hz: self.sample_rate,
            sample_rate_div: 1,
        }
    }
}

impl TransmitParams {
    /// Reject a gain or a rate the hardware cannot do, and an empty buffer.
    pub fn validate(&self, samples: &[u8]) -> (result: Result<(), Unsupported>)
        ensures
            result == unless(
                first_fault(
                    first_fault(
                        tx_gain_fault(self.txvga_db),
                        sample_rate_fault(self.sample_rate),
                    ),
                    if samples@.len() == 0 {
                        Some(Unsupported::NothingToTransmit)
                    } else {
                        None
                    },
                ),
            ),
    {
        match validate_tx_gain(self.txvga_db) {
            Err(unsupported) => return Err(unsupported),
            Ok(()) => {},
        }
        match validate_sample_rate(self.sample_rate) {
            Err(unsupported) => return Err(unsupported),
            Ok(()) => {},
        }
        if samples.len() == 0 {
            return Err(Unsupported::NothingToTransmit);
        }
        Ok(())
    }

    /// The settings to transmit with.
    pub fn config(&self) -> (result: RadioConfig)
        ensures
            result == (RadioConfig {
                lna_db: 0,
                vga_db: 0,
                txvga_db: self.txvga_db,
                amp_enable: self.amp_enable,
                antenna_enable: false,
                frequency_hz: self.frequency_hz,
                sample_rate_hz: self.sample_rate,
                sample_rate_div: 1,
            }),
    {
        RadioConfig {
            lna_db: 0,
            vga_db: 0,
            txvga_db: self.txvga_db,
            amp_enable: self.amp_enable,
            antenna_enable: false,
            frequency_hz: self.frequency_hz,
            sample_rate_hz: self.sample_rate,
            sample_rate_div: 1,
        }
    }
}

impl DeviceSettings {
    /// Reject gains and rates the hardware cannot do.
    pub fn validate(&self) -> (result: Result<(), Unsupported>)
        ensures
            result == unless(
                first_fault(
                    rx_gains_fault(self.lna_db, self.vga_db),
                    sample_rate_fault(self.sample_rate),
                ),
            ),
    {
        validate_receiver(self.lna_db, self.vga_db, self.sample_rate)
    }

    /// The settings to receive or transmit with.
    pub fn config(&self, frequency_hz: u64, txvga_db: u16, amp_enable: bool) -> (result:
        RadioConfig)
        ensures
            result == (RadioConfig {
                lna_db: self.lna_db,
                vga_db: self.vga_db,
                txvga_db,
                amp_enable,
                antenna_enable: false,
                frequency_hz,
                sample_rate_hz: self.sample_rate,
                sample_rate_div: 1,
            }),
    {
        RadioConfig {
            lna_db: self.lna_db,
            vga_db: self.vga_db,
            txvga_db,
            amp_enable,
            antenna_enable: false,
            frequency_hz,
            sample_rate_hz: self.sample_rate,
            sample_rate_div: 1,
        }
    }
}

/// Whether a USB device is one of the HackRF family.
pub fn is_hackrf(vendor_id: u16, product_id: u16) -> (result: bool)
    ensures
        result == (vendor_id == HACKRF_VENDOR_ID && (product_id == HACKRF_ONE_ID || product_id
            == JAWBREAKER_ID || product_id == RAD1O_ID)),
{
    vendor_id == HACKRF_VENDOR_ID && (product_id == HACKRF_ONE_ID || product_id == JAWBREAKER_ID
        || product_id == RAD1O_ID)
}

/// A number in decimal, filled up with zeros to three digits.
pub open spec fn three_digits(value: u8) -> Seq<char> {
    text::padded(text::decimal(value as nat), '0', 3)
}

fn push_three_digits(out: &mut String, value: u8)
    ensures
        final(out)@ == old(out)@ + three_digits(value),
{
    proof {
        reveal_strlit("0");
        reveal_strlit("00");
        let v = value as nat;
        assert(v < 10 ==> text::in_base(v, 10).len() == 1);
        assert(v / 10 < 10 ==> text::in_base(v / 10, 10).len() == 1);
        assert(10 <= v < 100 ==> text::in_base(v, 10).len() == 2);
        assert(v >= 100 ==> text::in_base(v / 10, 10).len() == text::in_base(v / 10 / 10, 10).len()
            + 1);
        assert(v >= 100 ==> text::in_base(v, 10).len() == text::in_base(v / 10, 10).len() + 1);
        assert(v >= 100 ==> text::in_base(v / 10 / 10, 10).len() == 1);
    }
    if value < 10 {
        out.append("00");
    } else if value < 100 {
        out.append("0");
    }
    text::push_decimal(out, value as u128);
    assert(out@ =~= old(out)@ + three_digits(value));
}

/// Why no radio could be opened: none is there, or the first of those that
/// are may not be accessed.
pub open spec fn unopened(present: Seq<(u8, u8)>) -> Seq<char> {
    if present.len() == 0 {
        "no HackRF found — check that it is plugged in"@
    } else {
        "HackRF is present at /dev/bus/usb/"@ + three_digits(present[0].0) + "/"@ + three_digits(
            present[0].1,
        ) + " but could not be opened; the node needs read/write access (install deploy/60-hackrf-access.rules; the distro rule only sets uaccess, which grants nothing over SSH), and in a container it must be passed through and the process must run as root"@
    }
}

/// Say why no radio could be opened, distinguishing "absent" from "present
/// but not permitted".
///
/// The driver reports a device that may not be accessed as missing, so a
/// permission problem is indistinguishable from an unplugged radio. Scanning
/// the bus needs no permissions, so it can tell the two apart and name the
/// node that needs fixing.
pub fn open_failure(present: &[(u8, u8)]) -> (result: String)
    ensures
        result@ == unopened(present@),
{
    let mut out: String = String::new();
    if present.len() == 0 {
        out.append("no HackRF found — check that it is plugged in");
    } else {
        let (bus, address): (u8, u8) = present[0];
        out.append("HackRF is present at /dev/bus/usb/");
        push_three_digits(&mut out, bus);
        out.append("/");
        push_three_digits(&mut out, address);
        out.append(" but could not be opened; the node needs read/write access (install deploy/60-hackrf-access.rules; the distro rule only sets uaccess, which grants nothing over SSH), and in a container it must be passed through and the process must run as root");
    }
    assert(out@ =~= unopened(present@));
    out
}

/// Board id and firmware, in words.
pub fn description(board: u8, firmware: &str) -> (result: String)
    ensures
        result@ == "board "@ + text::decimal(board as nat) + ", firmware "@ + firmware@,
{
    let mut out: String = String::new();
    out.append("board ");
    text::push_decimal(&mut out, board as u128);
    out.append(", firmware ");
    out.append(firmware);
    assert(out@ =~= "board "@ + text::decimal(board as nat) + ", firmware "@ + firmware@);
    out
}

/// How many bytes a buffer lacks to a whole number of aligned units.
pub open spec fn missing(len: nat) -> nat {
    ((XFER_ALIGN - len % XFER_ALIGN as nat) % XFER_ALIGN as int) as nat
}

/// A buffer filled up with silence to a whole number of aligned units.
pub open spec fn aligned(samples: Seq<u8>) -> Seq<u8> {
    samples + Seq::new(missing(samples.len()), |k: int| 0u8)
}

/// Pad a baseband buffer so every USB transfer is 512-byte aligned.
pub fn pad_to_alignment(samples: &mut Vec<u8>)
    requires
        aligned(old(samples)@).len() <= usize::MAX,
    ensures
        final(samples)@ == aligned(old(samples)@),
{
    let len: usize = samples.len();
    let remainder: usize = len % XFER_ALIGN;
    if remainder != 0 {
        samples.resize(len + (XFER_ALIGN - remainder), 0);
    }
    assert(samples@ =~= aligned(old(samples)@));
}

/// Padding aligns, keeps every sample in its place, and adds only silence.
pub proof fn padding_aligns(samples: Seq<u8>)
    ensures
        aligned(samples).len() % XFER_ALIGN as nat == 0,
        samples.len() <= aligned(samples).len() < samples.len() + XFER_ALIGN,
        aligned(samples).take(samples.len() as int) == samples,
        forall|k: int| samples.len() <= k < aligned(samples).len() ==> aligned(samples)[k] == 0,
        aligned(aligned(samples)) == aligned(samples),
{
    assert(aligned(samples).take(samples.len() as int) =~= samples);
    assert(aligned(aligned(samples)) =~= aligned(samples));
}

/// One write of a transmission: a part of the samples, or silence.
#[derive(Debug, Clone, Copy, PartialEq, Eq, Structural)]
pub enum Transfer {
    Samples { start: usize, end: usize },
    Silence,
}

/// The bytes that a write puts on the air.
pub open spec fn transferred(samples: Seq<u8>, transfer: Transfer) -> Seq<u8> {
    match transfer {
        Transfer::Samples { start, end } => samples.subrange(start as int, end as int),
        Transfer::Silence => Seq::new(TRANSFER_SIZE as nat, |k: int| 0u8),
    }
}

/// How many writes the samples of a transmission take.
pub open spec fn sample_transfers(len: nat) -> nat {
    (len + TRANSFER_SIZE as nat - 1) as nat / TRANSFER_SIZE as nat
}

/// The writes of a transmission, by their number: the samples in order, then
/// as much silence as can be lost, and one more.
pub open spec fn planned(len: nat, index: nat) -> Option<Transfer> {
    let start = index * TRANSFER_SIZE as nat;
    if index < sample_transfers(len) {
        Some(
            Transfer::Samples {
                start: start as usize,
                end: if start + TRANSFER_SIZE <= len {
                    (start + TRANSFER_SIZE) as usize
                } else {
                    len as usize
                },
            },
        )
    } else if index < sample_transfers(len) + IN_FLIGHT_TRANSFERS + 1 {
        Some(Transfer::Silence)
    } else {
        None
    }
}

/// The write with this number, `None` once all are done.
///
/// The driver only waits on completion once its queue is full, so the last
/// transfers can still be pending when the stream is dropped and the
/// transceiver switched off. Silence pushed through afterwards makes sure
/// that anything truncated is silence rather than the tail of a frame.
pub fn transfer(len: usize, index: usize) -> (result: Option<Transfer>)
    ensures
        result == planned(len as nat, index as nat),
{
    let whole: usize = len / TRANSFER_SIZE;
    let count: usize = if len % TRANSFER_SIZE == 0 {
        whole
    } else {
        whole + 1
    };
    assert(count == sample_transfers(len as nat));
    if index < count {
        assert(index <= whole);
        assert(index * 32_768 <= len);
        let start: usize = index * 32_768;
        let end: usize = if len - start >= TRANSFER_SIZE {
            start + TRANSFER_SIZE
        } else {
            len
        };
        Some(Transfer::Samples { start, end })
    } else if index - count < IN_FLIGHT_TRANSFERS + 1 {
        Some(Transfer::Silence)
    } else {
        None
    }
}

/// The bytes of the first writes of a transmission.
pub open spec fn written(samples: Seq<u8>, count: nat) -> Seq<u8>
    decreases count,
{
    if count == 0 {
        Seq::empty()
    } else {
        match planned(samples.len(), (count - 1) as nat) {
            Some(transfer) => written(samples, (count - 1) as nat) + transferred(samples, transfer),
            None => written(samples, (count - 1) as nat),
        }
    }
}

proof fn lemma_written(samples: Seq<u8>, count: nat)
    requires
        samples.len() <= usize::MAX,
        count <= sample_transfers(samples.len()),
    ensures
        written(samples, count) == samples.take(
            if count * 32_768 <= samples.len() {
                (count * 32_768) as int
            } else {
                samples.len() as int
            },
        ),
    decreases count,
{
    if count > 0 {
        lemma_written(samples, (count - 1) as nat);
        let start = (count - 1) * 32_768;
        assert(start < samples.len());
    }
    assert(written(samples, count) =~= samples.take(
        if count * 32_768 <= samples.len() {
            (count * 32_768) as int
        } else {
            samples.len() as int
        },
    ));
}

/// All the writes of a transmission together are its samples, in order and
/// complete, and then nothing but silence.
pub proof fn transfers_cover(samples: Seq<u8>)
    requires
        samples.len() <= usize::MAX,
    ensures
        ({
            let count = sample_transfers(samples.len());
            &&& written(samples, count) == samples
            &&& written(samples, count + 4) == samples + Seq::new(4 * 32_768, |k: int| 0u8)
            &&& planned(samples.len(), count + 4) is None
        }),
{
    let count = sample_transfers(samples.len());
    let silence = Seq::new(32_768, |k: int| 0u8);
    lemma_written(samples, count);
    assert(written(samples, count) =~= samples);
    assert(planned(samples.len(), count) == Some(Transfer::Silence));
    assert(planned(samples.len(), count + 1) == Some(Transfer::Silence));
    assert(planned(samples.len(), count + 2) == Some(Transfer::Silence));
    assert(planned(samples.len(), count + 3) == Some(Transfer::Silence));
    assert(written(samples, count + 1) =~= samples + silence);
    assert(written(samples, count + 2) =~= samples + silence + silence);
    assert(written(samples, count + 3) =~= samples + silence + silence + silence);
    assert(written(samples, count + 4) =~= samples + silence + silence + silence + silence);
    assert(samples + silence + silence + silence + silence =~= samples + Seq::new(
        4 * 32_768,
        |k: int| 0u8,
    ));
}

/// Every write of an aligned buffer is aligned.
pub proof fn transfers_are_aligned(len: nat, index: nat)
    requires
        len <= usize::MAX,
        len % XFER_ALIGN as nat == 0,
    ensures
        planned(len, index) matches Some(Transfer::Samples { start, end }) ==> {
            &&& start < end <= len
            &&& (end - start) % XFER_ALIGN as int == 0
            &&& end - start <= TRANSFER_SIZE
        },
{
    if index < sample_transfers(len) {
        let start = index * 32_768;
        let units = len / 512 - 64 * index;
        assert(start < len);
        assert(len == 512 * (len / 512));
        assert(len - start == 512 * units);
        assert((512 * units) % 512 == 0);
    }
}

/// The level of a capture so far.
#[derive(Debug, Clone, Copy)]
pub struct CaptureMeter {
    total_bytes: usize,
    bytes_per_second: usize,
    written: usize,
    interval_peak: u16,
    interval_bytes: usize,
    overall_peak: u16,
}

/// What a meter has seen.
#[verifier::ext_equal]
pub struct Metered {
    pub total_bytes: nat,
    pub bytes_per_second: nat,
    pub written: nat,
    pub interval_peak: u16,
    pub interval_bytes: nat,
    pub overall_peak: u16,
}

/// The level of the last interval of a capture.
#[derive(Debug, Clone, Copy, PartialEq, Eq, Structural)]
pub struct LevelReport {
    pub written: usize,
    pub peak: u16,
    /// The front end is clipping: the gain should be lowered.
    pub clipping: bool,
}

/// The outcome of a capture.
#[derive(Debug, Clone, Copy, PartialEq, Eq, Structural)]
pub struct CaptureSummary {
    pub samples: usize,
    pub peak: u16,
    /// The peak is so low that probably nothing was sent.
    pub weak: bool,
}

/// The higher of two levels.
pub open spec fn higher(a: u16, b: u16) -> u16 {
    if a > b {
        a
    } else {
        b
    }
}

impl Metered {
    /// A capture about to begin.
    pub open spec fn start(samples: nat, sample_rate: nat) -> Metered {
        Metered {
            total_bytes: 2 * samples,
            bytes_per_second: 2 * sample_rate,
            written: 0,
            interval_peak: 0,
            interval_bytes: 0,
            overall_peak: 0,
        }
    }

    /// How many bytes to read next; `None` once the capture is complete.
    pub open spec fn wanted(self) -> Option<nat> {
        if self.written >= self.total_bytes {
            None
        } else if self.total_bytes - self.written < TRANSFER_SIZE {
            Some((self.total_bytes - self.written) as nat)
        } else {
            Some(TRANSFER_SIZE as nat)
        }
    }

    /// Some bytes more.
    pub open spec fn added(self, chunk: Seq<u8>) -> Metered {
        let peak = envelope::largest(envelope::magnitudes(chunk));
        Metered {
            written: self.written + chunk.len(),
            interval_peak: higher(self.interval_peak, peak),
            interval_bytes: self.interval_bytes + chunk.len(),
            overall_peak: higher(self.overall_peak, peak),
            ..self
        }
    }

    /// Whether a second's worth has been gathered since the last report.
    pub open spec fn due(self) -> bool {
        self.interval_bytes >= self.bytes_per_second
    }

    /// The level of the interval, once a second.
    pub open spec fn report(self) -> Option<LevelReport> {
        if self.due() {
            Some(
                LevelReport {
                    written: self.written as usize,
                    peak: self.interval_peak,
                    clipping: self.interval_peak >= SATURATED,
                },
            )
        } else {
            None
        }
    }

    /// The outcome so far.
    pub open spec fn summarised(self) -> CaptureSummary {
        CaptureSummary {
            samples: (self.written / 2) as usize,
            peak: self.overall_peak,
            weak: self.overall_peak < WEAK,
        }
    }

    /// A new interval begun where the last one was reported.
    pub open spec fn settled(self) -> Metered {
        if self.due() {
            Metered { interval_peak: 0, interval_bytes: 0, ..self }
        } else {
            self
        }
    }
}

impl View for CaptureMeter {
    type V = Metered;

    closed spec fn view(&self) -> Metered {
        Metered {
            total_bytes: self.total_bytes as nat,
            bytes_per_second: self.bytes_per_second as nat,
            written: self.written as nat,
            interval_peak: self.interval_peak,
            interval_bytes: self.interval_bytes as nat,
            overall_peak: self.overall_peak,
        }
    }
}

impl CaptureMeter {
    /// No more has been written than asked for.
    pub open spec fn wf(self) -> bool {
        self@.interval_bytes <= self@.written <= self@.total_bytes
    }

    /// A meter for so many samples at this rate.
    pub fn new(samples: usize, sample_rate: u32) -> (result: CaptureMeter)
        requires
            2 * samples <= usize::MAX,
            2 * sample_rate <= usize::MAX,
        ensures
            result@ == Metered::start(samples as nat, sample_rate as nat),
            result.wf(),
    {
        CaptureMeter {
            total_bytes: samples * envelope::BYTES_PER_SAMPLE,
            bytes_per_second: sample_rate as usize * envelope::BYTES_PER_SAMPLE,
            written: 0,
            interval_peak: 0,
            interval_bytes: 0,
            overall_peak: 0,
        }
    }

    /// How many bytes to read next; `None` once the capture is complete.
    pub fn wanted(&self) -> (result: Option<usize>)
        requires
            self.wf(),
        ensures
            match result {
                Some(count) => self@.wanted() == Some(count as nat),
                None => self@.wanted() is None,
            },
    {
        if self.written >= self.total_bytes {
            None
        } else if self.total_bytes - self.written < TRANSFER_SIZE {
            Some(self.total_bytes - self.written)
        } else {
            Some(TRANSFER_SIZE)
        }
    }

    /// Account for what was read; once a second, report the level.
    ///
    /// The live level readout matters because a capture that was too weak or
    /// clipped is only otherwise discovered at demodulation time, by which
    /// point the keypress is long gone.
    pub fn push(&mut self, chunk: &[u8]) -> (result: Option<LevelReport>)
        requires
            old(self).wf(),
            old(self)@.wanted() matches Some(count) && chunk@.len() <= count,
        ensures
            final(self).wf(),
            final(self)@ == old(self)@.added(chunk@).settled(),
            result == old(self)@.added(chunk@).report(),
    {
        let peak: u16 = envelope::peak_magnitude(chunk);
        if peak > self.interval_peak {
            self.interval_peak = peak;
        }
        if peak > self.overall_peak {
            self.overall_peak = peak;
        }
        self.written = self.written + chunk.len();
        self.interval_bytes = self.interval_bytes + chunk.len();
        if self.interval_bytes >= self.bytes_per_second {
            let report = LevelReport {
                written: self.written,
                peak: self.interval_peak,
                clipping: self.interval_peak >= SATURATED,
            };
            self.interval_peak = 0;
            self.interval_bytes = 0;
            Some(report)
        } else {
            None
        }
    }

    /// The outcome so far.
    pub fn summary(&self) -> (result: CaptureSummary)
        ensures
            result == (CaptureSummary {
                samples: (self@.written / 2) as usize,
                peak: self@.overall_peak,
                weak: self@.overall_peak < WEAK,
            }),
            result == self@.summarised(),
    {
        CaptureSummary {
            samples: self.written / envelope::BYTES_PER_SAMPLE,
            peak: self.overall_peak,
            weak: self.overall_peak < WEAK,
        }
    }
}

/// The received power of one band, while the scan dwells on it.
pub struct BandMeter {
    dwell_bytes: usize,
    collected: usize,
    histogram: AmplitudeHistogram,
}

/// What a band meter has gathered.
pub struct Gathered {
    pub dwell_bytes: nat,
    pub collected: nat,
    pub tally: Tally,
}

/// What a band reads.
#[derive(Debug, Clone, Copy, PartialEq, Eq, Structural)]
pub struct BandReading {
    pub peak: u16,
    /// The 99.9th percentile.
    pub signal: u16,
    /// The band is not strong but overloaded: the front end is clipping almost
    /// all the time and nothing can be distinguished within it.
    pub saturated: bool,
}

impl View for BandMeter {
    type V = Gathered;

    closed spec fn view(&self) -> Gathered {
        Gathered {
            dwell_bytes: self.dwell_bytes as nat,
            collected: self.collected as nat,
            tally: self.histogram@,
        }
    }
}

impl Gathered {
    /// A dwell about to begin.
    pub open spec fn start(samples: nat) -> Gathered {
        Gathered { dwell_bytes: 2 * samples, collected: 0, tally: Tally::empty() }
    }

    /// Some bytes more.
    pub open spec fn with(self, chunk: Seq<u8>) -> Gathered {
        Gathered {
            collected: self.collected + chunk.len(),
            tally: self.tally.with_all(envelope::magnitudes(chunk)),
            ..self
        }
    }

    /// What the band reads.
    pub open spec fn reading(self) -> BandReading {
        BandReading {
            peak: self.tally.peak,
            signal: self.tally.high() as u16,
            saturated: self.tally.high() >= SATURATED,
        }
    }

    /// How many bytes to read next; `None` once the dwell is over.
    pub open spec fn wanted(self) -> Option<nat> {
        if self.collected >= self.dwell_bytes {
            None
        } else if self.dwell_bytes - self.collected < TRANSFER_SIZE {
            Some((self.dwell_bytes - self.collected) as nat)
        } else {
            Some(TRANSFER_SIZE as nat)
        }
    }
}

impl BandMeter {
    /// No more has been collected than asked for, and the histogram counts it.
    pub closed spec fn wf(self) -> bool {
        &&& self.histogram.wf()
        &&& self.collected <= self.dwell_bytes
        &&& self.histogram@.total() <= self.collected
    }

    /// A meter for so many samples.
    pub fn new(samples: usize) -> (result: BandMeter)
        requires
            2 * samples <= usize::MAX,
        ensures
            result.wf(),
            result@ == Gathered::start(samples as nat),
    {
        BandMeter {
            dwell_bytes: samples * envelope::BYTES_PER_SAMPLE,
            collected: 0,
            histogram: AmplitudeHistogram::new(),
        }
    }

    /// How many bytes to read next; `None` once the dwell is over.
    pub fn wanted(&self) -> (result: Option<usize>)
        requires
            self.wf(),
        ensures
            match result {
                Some(count) => self@.wanted() == Some(count as nat),
                None => self@.wanted() is None,
            },
    {
        if self.collected >= self.dwell_bytes {
            None
        } else if self.dwell_bytes - self.collected < TRANSFER_SIZE {
            Some(self.dwell_bytes - self.collected)
        } else {
            Some(TRANSFER_SIZE)
        }
    }

    /// Account for what was read.
    pub fn push(&mut self, chunk: &[u8])
        requires
            old(self).wf(),
            old(self)@.wanted() matches Some(count) && chunk@.len() <= count,
        ensures
            final(self).wf(),
            final(self)@ == old(self)@.with(chunk@),
    {
        self.histogram.add_iq(chunk);
        self.collected = self.collected + chunk.len();
    }

    /// What the band reads.
    pub fn reading(&self) -> (result: BandReading)
        requires
            self.wf(),
        ensures
            result == self@.reading(),
    {
        let levels = self.histogram.levels(Float::from_bits(histogram::HALF_BITS));
        BandReading {
            peak: self.histogram.peak(),
            signal: levels.signal,
            saturated: levels.signal >= SATURATED,
        }
    }
}

/// What a scan does next.
#[derive(Debug, Clone, Copy, PartialEq, Eq, Structural)]
pub enum SweepAction {
    /// Tune to this frequency, the first of a pass where the band is 0.
    Tune { pass: u32, band: usize, frequency_hz: u64 },
    /// Read so many bytes and throw them away, so that the retune transient is
    /// not measured.
    Discard { bytes: usize },
    /// Read so many bytes, and hand in what came.
    Read { bytes: usize },
    /// Show what the band reads; the pass is over after the last one.
    Show { reading: BandReading, last: bool },
}

/// What a scan does with the band it is at.
#[derive(Debug, Clone, Copy, PartialEq, Eq, Structural)]
pub enum SweepStage {
    Tuning,
    Settling,
    Dwelling,
}

/// A sweep over several frequencies, pass by pass.
pub struct Sweep {
    frequencies: Vec<u64>,
    passes: u32,
    samples: usize,
    pass: u32,
    band: usize,
    stage: SweepStage,
    meter: BandMeter,
    saturated: usize,
}

/// The state of a sweep.
pub struct Sweeping {
    pub frequencies: Seq<u64>,
    pub passes: u32,
    pub samples: nat,
    /// How many passes are over.
    pub pass: u32,
    pub band: nat,
    pub stage: SweepStage,
    pub gathered: Gathered,
    /// How many bands read as saturated.
    pub saturated: usize,
}

impl Sweeping {
    /// A sweep about to begin.
    pub open spec fn start(frequencies: Seq<u64>, passes: u32, samples: nat) -> Sweeping {
        Sweeping {
            frequencies,
            passes,
            samples,
            pass: 0,
            band: 0,
            stage: SweepStage::Tuning,
            gathered: Gathered::start(samples),
            saturated: 0,
        }
    }

    /// Whether all passes are over.
    pub open spec fn over(self) -> bool {
        self.pass >= self.passes || self.frequencies.len() == 0
    }

    /// What is done next; `None` once the sweep is over.
    pub open spec fn due(self) -> Option<SweepAction> {
        if self.over() {
            None
        } else {
            Some(
                match self.stage {
                    SweepStage::Tuning => SweepAction::Tune {
                        pass: (self.pass + 1) as u32,
                        band: self.band as usize,
                        frequency_hz: self.frequencies[self.band as int],
                    },
                    SweepStage::Settling => SweepAction::Discard { bytes: TRANSFER_SIZE },
                    SweepStage::Dwelling => match self.gathered.wanted() {
                        Some(bytes) => SweepAction::Read { bytes: bytes as usize },
                        None => SweepAction::Show {
                            reading: self.gathered.reading(),
                            last: self.band + 1 == self.frequencies.len(),
                        },
                    },
                },
            )
        }
    }

    /// The band done with: on to the next one, or to the next pass. A count
    /// stops at the largest number it holds.
    pub open spec fn shown(self) -> Sweeping {
        let last = self.band + 1 == self.frequencies.len();
        Sweeping {
            saturated: if self.gathered.reading().saturated && self.saturated < usize::MAX {
                (self.saturated + 1) as usize
            } else {
                self.saturated
            },
            band: if last {
                0
            } else {
                self.band + 1
            },
            pass: if last {
                (self.pass + 1) as u32
            } else {
                self.pass
            },
            stage: SweepStage::Tuning,
            ..self
        }
    }

    /// The state once what was due is done, with what was read.
    pub open spec fn done(self, chunk: Seq<u8>) -> Sweeping {
        match self.due() {
            None => self,
            Some(SweepAction::Tune { .. }) => Sweeping { stage: SweepStage::Settling, ..self },
            Some(SweepAction::Discard { .. }) => Sweeping {
                stage: SweepStage::Dwelling,
                gathered: Gathered::start(self.samples),
                ..self
            },
            Some(SweepAction::Read { .. }) => Sweeping {
                gathered: self.gathered.with(chunk),
                ..self
            },
            Some(SweepAction::Show { .. }) => self.shown(),
        }
    }
}

impl View for Sweep {
    type V = Sweeping;

    closed spec fn view(&self) -> Sweeping {
        Sweeping {
            frequencies: self.frequencies@,
            passes: self.passes,
            samples: self.samples as nat,
            pass: self.pass,
            band: self.band as nat,
            stage: self.stage,
            gathered: self.meter@,
            saturated: self.saturated,
        }
    }
}

impl Sweep {
    /// The meter is in order, and the band is one of the frequencies, unless
    /// the sweep is over.
    pub closed spec fn wf(self) -> bool {
        &&& self.meter.wf()
        &&& 2 * self.samples <= usize::MAX
        &&& self@.over() || self.band < self.frequencies@.len()
    }

    /// A sweep over these frequencies, with so many samples on each.
    pub fn new(frequencies: Vec<u64>, passes: u32, samples: usize) -> (result: Sweep)
        requires
            2 * samples <= usize::MAX,
        ensures
            result.wf(),
            result@ == Sweeping::start(frequencies@, passes, samples as nat),
    {
        Sweep {
            frequencies,
            passes,
            samples,
            pass: 0,
            band: 0,
            stage: SweepStage::Tuning,
            meter: BandMeter::new(samples),
            saturated: 0,
        }
    }

    /// What to do next; `None` once the sweep is over.
    pub fn next(&self) -> (action: Option<SweepAction>)
        requires
            self.wf(),
        ensures
            action == self@.due(),
    {
        if self.pass >= self.passes || self.frequencies.len() == 0 {
            return None;
        }
        Some(
            match self.stage {
                SweepStage::Tuning => SweepAction::Tune {
                    pass: self.pass + 1,
                    band: self.band,
                    frequency_hz: self.frequencies[self.band],
                },
                SweepStage::Settling => SweepAction::Discard { bytes: TRANSFER_SIZE },
                SweepStage::Dwelling => match self.meter.wanted() {
                    Some(bytes) => SweepAction::Read { bytes },
                    None => SweepAction::Show {
                        reading: self.meter.reading(),
                        last: self.band + 1 == self.frequencies.len(),
                    },
                },
            },
        )
    }

    /// What was due is done; a read hands in what came.
    pub fn advance(&mut self, chunk: &[u8])
        requires
            old(self).wf(),
            old(self)@.due() matches Some(SweepAction::Read { bytes }) ==> chunk@.len() <= bytes,
        ensures
            final(self).wf(),
            final(self)@ == old(self)@.done(chunk@),
    {
        match self.next() {
            None => {},
            Some(SweepAction::Tune { .. }) => {
                self.stage = SweepStage::Settling;
            },
            Some(SweepAction::Discard { .. }) => {
                self.stage = SweepStage::Dwelling;
                self.meter = BandMeter::new(self.samples);
            },
            Some(SweepAction::Read { .. }) => self.meter.push(chunk),
            Some(SweepAction::Show { reading, last }) => {
                if reading.saturated && self.saturated < usize::MAX {
                    self.saturated = self.saturated + 1;
                }
                self.stage = SweepStage::Tuning;
                if last {
                    self.band = 0;
                    self.pass = self.pass + 1;
                } else {
                    assert(self.band < self.frequencies.len());
                    self.band = self.band + 1;
                }
            },
        }
    }

    /// How many bands read as saturated so far.
    pub fn saturated_bands(&self) -> (result: usize)
        ensures
            result == self@.saturated,
    {
        self.saturated
    }
}

/// Every band is measured alike, and in turn: it is tuned to, one transfer is
/// thrown away, and then the dwell begins afresh.
pub proof fn bands_are_measured_alike(state: Sweeping, tuned: Seq<u8>, discarded: Seq<u8>)
    requires
        !state.over(),
        state.stage == SweepStage::Tuning,
    ensures
        ({
            let settling = state.done(tuned);
            let dwelling = settling.done(discarded);
            &&& state.due() == Some(
                SweepAction::Tune {
                    pass: (state.pass + 1) as u32,
                    band: state.band as usize,
                    frequency_hz: state.frequencies[state.band as int],
                },
            )
            &&& settling.due() == Some(SweepAction::Discard { bytes: TRANSFER_SIZE })
            &&& dwelling == (Sweeping {
                stage: SweepStage::Dwelling,
                gathered: Gathered::start(state.samples),
                ..state
            })
        }),
{
}

/// A band that has been shown is counted where it was saturated, and followed
/// by the next one, or by the first one of the next pass.
pub proof fn bands_come_in_turn(state: Sweeping, chunk: Seq<u8>)
    requires
        !state.over(),
        state.stage == SweepStage::Dwelling,
        state.band < state.frequencies.len(),
        state.gathered.wanted() is None,
        state.saturated < usize::MAX,
    ensures
        ({
            let next = state.done(chunk);
            &&& state.due() == Some(
                SweepAction::Show {
                    reading: state.gathered.reading(),
                    last: state.band + 1 == state.frequencies.len(),
                },
            )
            &&& next.saturated - state.saturated == if state.gathered.reading().saturated {
                1int
            } else {
                0
            }
            &&& next.pass * state.frequencies.len() + next.band == state.pass
                * state.frequencies.len() + state.band + 1
            &&& next.band < state.frequencies.len()
        }),
{
    let n = state.frequencies.len();
    assert((state.pass + 1) * n == state.pass * n + n) by (nonlinear_arith);
}

/// What a scan that is over means.
pub fn scan_advice(saturated_bands: usize) -> (result: &'static str)
    ensures
        result@ == if saturated_bands > 0 {
            "Saturated: the 99.9th percentile reached full scale, so the front end is\nclipping and these readings cannot be compared. Drop --amp first, then lower\n--lna (steps of 8) and --vga (steps of 2) until the quiet bands fall back to\ndouble digits. Only then does a band standing out mean anything."@
        } else {
            "A transmitting remote close to the antenna should lift one band far above\nthe others. If nothing moves while a button is held, that band is not the\none in use."@
        },
{
    if saturated_bands > 0 {
        "Saturated: the 99.9th percentile reached full scale, so the front end is\nclipping and these readings cannot be compared. Drop --amp first, then lower\n--lna (steps of 8) and --vga (steps of 2) until the quiet bands fall back to\ndouble digits. Only then does a band standing out mean anything."
    } else {
        "A transmitting remote close to the antenna should lift one band far above\nthe others. If nothing moves while a button is held, that band is not the\none in use."
    }
}

/// What the daemon holds of the radio between calls.
///
/// The handle is opened lazily and dropped on failure, because the failure
/// that matters here is a re-enumeration: after a USB reset the old handle is
/// permanently dead and only a fresh open recovers. Holding on to it would
/// turn a recoverable glitch into a daemon that never receives again.
#[derive(Debug, Clone, Copy, PartialEq, Eq, Structural)]
pub struct Custody {
    /// An open handle.
    pub radio: bool,
    /// A running receive stream.
    pub rx: bool,
}

/// A call to the driver.
#[derive(Debug, Clone, Copy, PartialEq, Eq, Structural)]
pub enum Call {
    StartRx,
    Read,
    Stop,
    /// A transmission, its own stop included.
    Transmit,
    Describe,
}

impl Custody {
    /// What is held after a call, given how it went.
    pub open spec fn held_after(self, call: Call, succeeded: bool) -> Custody {
        if !succeeded {
            Custody { radio: false, rx: false }
        } else {
            match call {
                Call::StartRx => Custody { radio: true, rx: true },
                Call::Read => self,
                Call::Stop => Custody { radio: self.radio, rx: false },
                Call::Transmit => Custody { radio: true, rx: self.rx },
                Call::Describe => Custody { radio: true, rx: self.rx },
            }
        }
    }

    /// What is held after a call, given how it went.
    pub fn after(self, call: Call, succeeded: bool) -> (result: Custody)
        ensures
            result == self.held_after(call, succeeded),
    {
        if !succeeded {
            return Custody { radio: false, rx: false };
        }
        match call {
            Call::StartRx => Custody { radio: true, rx: true },
            Call::Read => self,
            Call::Stop => Custody { radio: self.radio, rx: false },
            Call::Transmit => Custody { radio: true, rx: self.rx },
            Call::Describe => Custody { radio: true, rx: self.rx },
        }
    }
}

/// A dead handle is never kept: after any call that failed the radio is opened
/// afresh.
pub proof fn failures_are_let_go(custody: Custody, call: Call)
    ensures
        custody.held_after(call, false) == (Custody { radio: false, rx: false }),
{
}

} // verus!
