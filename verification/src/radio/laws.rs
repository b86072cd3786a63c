//! What holds of every capture, scan and transfer.

use vstd::arithmetic::power2::*;
use vstd::prelude::*;

use crate::float;
use crate::float::error;
use crate::float::error::{one, tame, units};
use crate::float::Binary;
use crate::ook::envelope;
use crate::ook::histogram;
use crate::ook::quantiles;
use crate::ook::quantiles::{at_most, is_quantile};
use crate::radio;
use crate::radio::{Call, Custody, Gathered, Metered, Sweeping, SweepAction, SweepStage, Unsupported};
use crate::text;

verus! {

/// The receive gains that the hardware has: the LNA in steps of 8 dB up to 40,
/// the VGA in steps of 2 dB up to 62. What is not among them is refused by
/// name, the LNA first.
pub proof fn receive_gains_come_in_steps(lna_db: u16, vga_db: u16)
    ensures
        ({
            let lna = lna_db == 0 || lna_db == 8 || lna_db == 16 || lna_db == 24 || lna_db == 32
                || lna_db == 40;
            let vga = exists|steps: int| 0 <= steps <= 31 && vga_db == #[trigger] (2 * steps);
            let fault = radio::rx_gains_fault(lna_db, vga_db);
            &&& radio::unless(fault) is Ok <==> lna && vga
            &&& !lna ==> radio::unless(fault) == Err::<(), Unsupported>(
                Unsupported::LnaGain { lna_db },
            )
            &&& lna && !vga ==> radio::unless(fault) == Err::<(), Unsupported>(
                Unsupported::VgaGain { vga_db },
            )
        }),
{
    if vga_db <= 62 && vga_db % 2 == 0 {
        assert(vga_db == 2 * (vga_db as int / 2));
    }
}

/// The transmit gain goes up to 47 dB, and the rate from 2 to 20 Msps.
pub proof fn what_the_transmitter_takes(txvga_db: u16, sample_rate: u32)
    ensures
        radio::unless(radio::tx_gain_fault(txvga_db)) == if txvga_db <= 47 {
            Ok::<(), Unsupported>(())
        } else {
            Err(Unsupported::TxGain { txvga_db })
        },
        radio::unless(radio::sample_rate_fault(sample_rate)) == if sample_rate < 2_000_000
            || sample_rate > 20_000_000 {
            Err::<(), Unsupported>(Unsupported::SampleRate { sample_rate })
        } else {
            Ok(())
        },
{
}

/// Of two faults the first is told, and there is none only where neither is.
pub proof fn the_first_fault_is_told(first: Option<Unsupported>, second: Option<Unsupported>)
    ensures
        first matches Some(fault) ==> radio::unless(radio::first_fault(first, second)) == Err::<
            (),
            Unsupported,
        >(fault),
        first is None ==> radio::first_fault(first, second) == second,
        radio::unless(radio::first_fault(first, second)) is Ok <==> first is None && second is None,
{
}

/// A duration holds as many whole samples as fit into it.
pub proof fn durations_hold_whole_samples(seconds: Binary, sample_rate: u32)
    requires
        tame(seconds, 212),
        sample_rate > 0,
        radio::samples_in(seconds, sample_rate) < usize::MAX,
    ensures
        ({
            let count = radio::samples_in(seconds, sample_rate);
            let exact = units(seconds) * sample_rate;
            &&& 0x20_0000_0000_0000 * (count * one()) <= 0x20_0000_0000_0001 * exact
            &&& 0x20_0000_0000_0000 * ((count + 1) * one()) > 0x1F_FFFF_FFFF_FFFF * exact
        }),
{
    let rate = float::from_nat(sample_rate as nat);
    let product = float::product(seconds, rate);
    lemma_pow2_pos(1074);
    error::from_nat_exact(sample_rate as nat);
    error::product_near(seconds, rate, 212, 53);
    let o = one();
    let u = units(seconds);
    let p = units(product);
    let exact = u * sample_rate as nat;
    assert(u * (sample_rate as nat * o) == exact * o) by (nonlinear_arith)
        requires
            exact == u * sample_rate as nat,
    ;
    error::within_divided(p as int, exact as int, 1, o);
    match product {
        Binary::Finite { mantissa, exponent, .. } => {
            error::floor_in_units(mantissa, exponent);
            assert(radio::samples_in(seconds, sample_rate) == float::floor_magnitude(
                mantissa,
                exponent,
            ));
        },
        _ => {},
    }
}

/// Three digits are three characters that spell the number.
pub proof fn three_digits_spell(value: u8)
    ensures
        radio::three_digits(value).len() == 3,
        radio::three_digits(value)[0] as int == 48 + value / 100,
        radio::three_digits(value)[1] as int == 48 + value / 10 % 10,
        radio::three_digits(value)[2] as int == 48 + value % 10,
{
    let v = value as nat;
    reveal_with_fuel(text::in_base, 4);
    assert(v / 10 / 10 == v / 100);
    assert(v >= 100 ==> v / 100 < 10);
}

/// Padding fills a buffer up to the next multiple of 512 bytes, with zeros.
pub proof fn padding_fills_up(samples: Seq<u8>)
    ensures
        radio::aligned(samples).len() == 512 * ((samples.len() + 511) / 512),
        forall|k: int|
            0 <= k < radio::aligned(samples).len() ==> radio::aligned(samples)[k] == if k
                < samples.len() {
                samples[k]
            } else {
                0
            },
{
}

/// All of a transmission is written, each byte once and in its place, in pieces
/// of 32 KiB and whatever is left, and then four more pieces of silence.
pub proof fn transmissions_are_written_whole(len: nat, index: nat)
    requires
        len <= usize::MAX,
    ensures
        ({
            let pieces = (len + 32_767) / 32_768;
            match radio::planned(len, index) {
                Some(radio::Transfer::Samples { start, end }) => index < pieces && start == index
                    * 32_768 && end == if start + 32_768 < len {
                    start + 32_768
                } else {
                    len as int
                },
                Some(radio::Transfer::Silence) => pieces <= index < pieces + 4,
                None => index >= pieces + 4,
            }
        }),
{
}

/// A capture, chunk by chunk.
pub open spec fn captured(samples: nat, sample_rate: nat, chunks: Seq<Seq<u8>>) -> Metered
    decreases chunks.len(),
{
    if chunks.len() == 0 {
        Metered::start(samples, sample_rate)
    } else {
        captured(samples, sample_rate, chunks.drop_last()).added(chunks.last()).settled()
    }
}

/// How many bytes some chunks hold.
pub open spec fn bytes_in(chunks: Seq<Seq<u8>>) -> nat
    decreases chunks.len(),
{
    if chunks.len() == 0 {
        0
    } else {
        bytes_in(chunks.drop_last()) + chunks.last().len()
    }
}

/// The magnitudes of the samples of some chunks, one after the other.
pub open spec fn heard_in(chunks: Seq<Seq<u8>>) -> Seq<u16>
    decreases chunks.len(),
{
    if chunks.len() == 0 {
        Seq::empty()
    } else {
        heard_in(chunks.drop_last()) + envelope::magnitudes(chunks.last())
    }
}

/// Whether a level is the highest of some magnitudes.
pub open spec fn is_peak(mags: Seq<u16>, peak: u16) -> bool {
    &&& forall|k: int| 0 <= k < mags.len() ==> #[trigger] mags[k] <= peak
    &&& mags.len() > 0 ==> mags.contains(peak)
    &&& mags.len() == 0 ==> peak == 0
}

proof fn lemma_joined_peak(a: Seq<u16>, b: Seq<u16>, x: u16, y: u16)
    requires
        is_peak(a, x),
        is_peak(b, y),
    ensures
        is_peak(
            a + b,
            if x > y {
                x
            } else {
                y
            },
        ),
{
    let all = a + b;
    let peak = if x > y {
        x
    } else {
        y
    };
    assert forall|k: int| 0 <= k < all.len() implies #[trigger] all[k] <= peak by {
        if k < a.len() {
            assert(all[k] == a[k]);
        } else {
            assert(all[k] == b[k - a.len()]);
        }
    }
    if a.len() > 0 && x > y {
        let k = choose|k: int| 0 <= k < a.len() && a[k] == x;
        assert(all[k] == peak);
    } else if b.len() > 0 {
        let k = choose|k: int| 0 <= k < b.len() && b[k] == y;
        assert(all[a.len() + k] == y);
    } else if a.len() > 0 {
        let k = choose|k: int| 0 <= k < a.len() && a[k] == x;
        assert(all[k] == x);
    }
}

proof fn lemma_chunk_peak(chunk: Seq<u8>)
    ensures
        is_peak(envelope::magnitudes(chunk), envelope::largest(envelope::magnitudes(chunk))),
{
    envelope::largest_is_attained(envelope::magnitudes(chunk));
}

/// Where the interval in progress began: after the last chunk that completed a
/// second's worth of bytes.
pub open spec fn interval_start(sample_rate: nat, chunks: Seq<Seq<u8>>) -> nat
    decreases chunks.len(),
{
    if chunks.len() == 0 {
        0
    } else {
        let start = interval_start(sample_rate, chunks.drop_last());
        if bytes_in(chunks.skip(start as int)) >= 2 * sample_rate {
            chunks.len()
        } else {
            start
        }
    }
}

proof fn lemma_interval(sample_rate: nat, chunks: Seq<Seq<u8>>)
    ensures
        interval_start(sample_rate, chunks) <= chunks.len(),
    decreases chunks.len(),
{
    if chunks.len() > 0 {
        lemma_interval(sample_rate, chunks.drop_last());
    }
}

/// A capture reads as many bytes as were asked for, two a sample, a transfer at
/// a time; tells the level once a second's worth has come since the last time,
/// the highest since then, and whether that clips; and in the end how many
/// samples there are, the highest of them all, and whether that is so weak that
/// nothing was probably sent.
pub proof fn captures_are_metered(samples: nat, sample_rate: nat, chunks: Seq<Seq<u8>>)
    ensures
        ({
            let meter = captured(samples, sample_rate, chunks);
            let start = interval_start(sample_rate, chunks) as int;
            &&& meter.written == bytes_in(chunks)
            &&& meter.total_bytes == 2 * samples
            &&& meter.bytes_per_second == 2 * sample_rate
            &&& meter.interval_bytes == bytes_in(chunks.skip(start))
            &&& is_peak(heard_in(chunks), meter.overall_peak)
            &&& is_peak(heard_in(chunks.skip(start)), meter.interval_peak)
            &&& meter.wanted() is None <==> meter.written >= 2 * samples
            &&& meter.wanted() matches Some(count) ==> count == if 2 * samples - meter.written
                < 32_768 {
                2 * samples - meter.written
            } else {
                32_768
            }
            &&& meter.summarised().peak == meter.overall_peak
            &&& meter.summarised().weak <==> meter.overall_peak < 20
            &&& meter.written <= usize::MAX ==> meter.summarised().samples == meter.written / 2
        }),
    decreases chunks.len(),
{
    let start = interval_start(sample_rate, chunks) as int;
    lemma_interval(sample_rate, chunks);
    assert(chunks.skip(chunks.len() as int) =~= Seq::<Seq<u8>>::empty());
    if chunks.len() == 0 {
        assert(chunks.skip(0) =~= chunks);
    } else {
        let rest = chunks.drop_last();
        let last = chunks.last();
        let from = interval_start(sample_rate, rest) as int;
        captures_are_metered(samples, sample_rate, rest);
        lemma_interval(sample_rate, rest);
        let before = captured(samples, sample_rate, rest);
        let peak = envelope::largest(envelope::magnitudes(last));
        lemma_chunk_peak(last);
        lemma_joined_peak(
            heard_in(rest),
            envelope::magnitudes(last),
            before.overall_peak,
            peak,
        );
        let so_far = chunks.skip(from);
        assert(so_far.drop_last() =~= rest.skip(from));
        assert(so_far.last() == last);
        lemma_joined_peak(
            heard_in(rest.skip(from)),
            envelope::magnitudes(last),
            before.interval_peak,
            peak,
        );
    }
}

/// The level of a capture is told exactly when a second's worth of bytes has
/// come since it was told last, and is then the highest since then.
pub proof fn levels_are_told_by_the_second(
    samples: nat,
    sample_rate: nat,
    chunks: Seq<Seq<u8>>,
    chunk: Seq<u8>,
)
    requires
        bytes_in(chunks) + chunk.len() <= usize::MAX,
    ensures
        ({
            let start = interval_start(sample_rate, chunks) as int;
            let since = chunks.skip(start).push(chunk);
            let report = captured(samples, sample_rate, chunks).added(chunk).report();
            &&& report is Some <==> bytes_in(since) >= 2 * sample_rate
            &&& report matches Some(level) ==> {
                &&& level.written == bytes_in(chunks) + chunk.len()
                &&& is_peak(heard_in(since), level.peak)
                &&& level.clipping <==> level.peak >= 250
            }
        }),
{
    let start = interval_start(sample_rate, chunks) as int;
    let since = chunks.skip(start).push(chunk);
    captures_are_metered(samples, sample_rate, chunks);
    let before = captured(samples, sample_rate, chunks);
    let peak = envelope::largest(envelope::magnitudes(chunk));
    lemma_chunk_peak(chunk);
    assert(since.drop_last() =~= chunks.skip(start));
    lemma_joined_peak(
        heard_in(chunks.skip(start)),
        envelope::magnitudes(chunk),
        before.interval_peak,
        peak,
    );
}

/// A dwell on a band, chunk by chunk.
pub open spec fn dwelt(samples: nat, chunks: Seq<Seq<u8>>) -> Gathered
    decreases chunks.len(),
{
    if chunks.len() == 0 {
        Gathered::start(samples)
    } else {
        dwelt(samples, chunks.drop_last()).with(chunks.last())
    }
}

proof fn lemma_dwelt(samples: nat, chunks: Seq<Seq<u8>>)
    ensures
        ({
            let dwell = dwelt(samples, chunks);
            &&& dwell.dwell_bytes == 2 * samples
            &&& dwell.collected == bytes_in(chunks)
            &&& dwell.tally == histogram::tally(heard_in(chunks))
            &&& quantiles::sampled(heard_in(chunks))
        }),
    decreases chunks.len(),
{
    if chunks.len() == 0 {
        histogram::tally_empty();
    } else {
        let rest = chunks.drop_last();
        lemma_dwelt(samples, rest);
        histogram::tally_concat(heard_in(rest), envelope::magnitudes(chunks.last()));
        quantiles::magnitudes_are_sampled(chunks.last());
        let all = heard_in(chunks);
        assert forall|k: int| 0 <= k < all.len() implies #[trigger] all[k] <= 256 by {
            if k < heard_in(rest).len() {
                assert(all[k] == heard_in(rest)[k]);
            } else {
                assert(all[k] == envelope::magnitudes(chunks.last())[k - heard_in(rest).len()]);
            }
        }
    }
}

/// What a band reads, of the samples that came while the scan dwelt on it: its
/// peak is the highest of them; its signal level is the least level with 999 in
/// a thousand of them at or below it; and it is saturated exactly where more
/// than one in a thousand of them reaches 250, which is where that level does.
/// Stray clicks, up to a thousandth of the dwell, raise neither.
pub proof fn bands_read_what_was_heard(samples: nat, chunks: Seq<Seq<u8>>)
    requires
        0 < heard_in(chunks).len() <= 0x100_0000_0000,
        heard_in(chunks).len() < usize::MAX,
    ensures
        ({
            let mags = heard_in(chunks);
            let reading = dwelt(samples, chunks).reading();
            &&& is_peak(mags, reading.peak)
            &&& is_quantile(mags, 999, 1000, reading.signal as int)
            &&& reading.saturated <==> reading.signal >= 250
            &&& reading.saturated <==> 1000 * (mags.len() - at_most(mags, 249)) > mags.len()
            &&& forall|level: int|
                #![trigger at_most(mags, level)]
                0 <= level && 1000 * (mags.len() - at_most(mags, level)) <= mags.len()
                    ==> reading.signal <= level
        }),
{
    let mags = heard_in(chunks);
    let reading = dwelt(samples, chunks).reading();
    lemma_dwelt(samples, chunks);
    quantiles::levels_are_counted(mags);
    envelope::largest_is_attained(mags);
    let signal = reading.signal as int;
    assert forall|level: int|
        #![trigger at_most(mags, level)]
        0 <= level && 1000 * (mags.len() - at_most(mags, level)) <= mags.len() implies signal
        <= level by {
        if signal > level {
            quantiles::lemma_at_most_grows(mags, level, signal - 1);
        }
    }
    if signal <= 249 {
        quantiles::lemma_at_most_grows(mags, signal, 249);
    }
}

/// A dwell reads as many bytes as its samples take, two each, a transfer at a
/// time.
pub proof fn dwells_are_read_whole(samples: nat, chunks: Seq<Seq<u8>>)
    ensures
        ({
            let dwell = dwelt(samples, chunks);
            let missing = 2 * samples - bytes_in(chunks);
            &&& dwell.wanted() is None <==> missing <= 0
            &&& dwell.wanted() matches Some(count) ==> count == if missing < 32_768 {
                missing
            } else {
                32_768
            }
        }),
{
    lemma_dwelt(samples, chunks);
}

/// A sweep ends after its last pass, and is over at once where there is nothing
/// to sweep; until then there is always something to do.
pub proof fn sweeps_end(state: Sweeping)
    ensures
        state.due() is None <==> state.pass >= state.passes || state.frequencies.len() == 0,
        state.due() matches Some(SweepAction::Discard { bytes }) ==> bytes == 32_768,
        state.due() matches Some(SweepAction::Tune { pass, band, frequency_hz }) ==> pass
            == state.pass + 1 && frequency_hz == state.frequencies[state.band as int],
{
}

/// A sweep begins with its first band, and has counted nothing.
pub proof fn sweeps_begin(frequencies: Seq<u64>, passes: u32, samples: nat)
    requires
        passes > 0,
        0 < frequencies.len(),
    ensures
        ({
            let state = Sweeping::start(frequencies, passes, samples);
            &&& state.due() == Some(
                SweepAction::Tune { pass: 1, band: 0, frequency_hz: frequencies[0] },
            )
            &&& state.saturated == 0
        }),
{
}

/// What is read while a sweep dwells goes to the band it dwells on, and nothing
/// else changes by it.
pub proof fn reads_go_to_the_band(state: Sweeping, chunk: Seq<u8>)
    requires
        state.due() matches Some(SweepAction::Read { .. }),
    ensures
        ({
            let after = state.done(chunk);
            &&& state.stage == SweepStage::Dwelling
            &&& after.gathered == state.gathered.with(chunk)
            &&& after == (Sweeping { gathered: after.gathered, ..state })
        }),
{
}

/// What is held of the radio: a stream only of a radio that is open; a stream
/// from its start to its stop; and any call that went well but a stop leaves
/// the radio open.
pub proof fn custody_is_kept(custody: Custody, call: Call, succeeded: bool)
    requires
        custody.rx ==> custody.radio,
        call is Read ==> custody.radio,
    ensures
        ({
            let after = custody.held_after(call, succeeded);
            &&& after.rx ==> after.radio
            &&& after.rx <==> succeeded && (call is StartRx || (custody.rx && !(call is Stop)))
            &&& after.radio <==> succeeded && (custody.radio || !(call is Stop))
        }),
{
}

/// A sweep tunes to a band, throws one transfer away, and then dwells on the
/// band anew.
pub proof fn sweeps_settle_first(state: Sweeping, chunk: Seq<u8>)
    ensures
        state.due() matches Some(SweepAction::Tune { band, .. }) ==> state.stage
            == SweepStage::Tuning && (state.band <= usize::MAX ==> band == state.band)
            && state.done(chunk) == (Sweeping { stage: SweepStage::Settling, ..state }),
        state.due() matches Some(SweepAction::Discard { .. }) ==> {
            let after = state.done(chunk);
            &&& state.stage == SweepStage::Settling
            &&& after.stage == SweepStage::Dwelling
            &&& after.gathered.collected == 0
            &&& after.gathered.dwell_bytes == 2 * state.samples
            &&& after == (Sweeping { stage: after.stage, gathered: after.gathered, ..state })
        },
{
}

/// Bands are shown in order, each once a pass, and the one that ends a pass is
/// told to be the last; and what is shown saturated is counted.
pub proof fn sweeps_go_round(state: Sweeping, chunk: Seq<u8>)
    requires
        state.band < state.frequencies.len(),
    ensures
        state.due() matches Some(SweepAction::Show { reading, last }) ==> {
            let after = state.done(chunk);
            &&& state.gathered.collected >= state.gathered.dwell_bytes
            &&& last <==> state.frequencies.skip(state.band as int + 1).len() == 0
            &&& last ==> after.band == 0 && after.pass == state.pass + 1
            &&& !last ==> after.band == state.band + 1 && after.pass == state.pass
            &&& after.stage == SweepStage::Tuning
            &&& after.frequencies == state.frequencies
            &&& after.passes == state.passes
            &&& after.samples == state.samples
            &&& state.saturated < usize::MAX ==> after.saturated == state.saturated + if reading.saturated {
                1int
            } else {
                0
            }
        },
{
}

/// A radio that could not be opened is told by where it is on the bus, and one
/// that is not there is told to be missing.
pub proof fn unopened_radios_are_located(bus: u8, address: u8, others: Seq<(u8, u8)>)
    ensures
        radio::unopened(Seq::empty()) == "no HackRF found — check that it is plugged in"@,
        ({
            let said = radio::unopened(seq![(bus, address)] + others);
            let before = "HackRF is present at /dev/bus/usb/"@;
            let at = before.len() as int;
            &&& said.len() > at + 7
            &&& said.take(at) == before
            &&& said[at] as int == 48 + bus / 100
            &&& said[at + 1] as int == 48 + bus / 10 % 10
            &&& said[at + 2] as int == 48 + bus % 10
            &&& said[at + 3] == '/'
            &&& said[at + 4] as int == 48 + address / 100
            &&& said[at + 5] as int == 48 + address / 10 % 10
            &&& said[at + 6] as int == 48 + address % 10
            &&& said[at + 7] == ' '
        }),
{
    three_digits_spell(bus);
    three_digits_spell(address);
    reveal_strlit("/");
    reveal_strlit(
        " but could not be opened; the node needs read/write access (install deploy/60-hackrf-access.rules; the distro rule only sets uaccess, which grants nothing over SSH), and in a container it must be passed through and the process must run as root",
    );
    let present = seq![(bus, address)] + others;
    assert(present[0] == (bus, address));
    let said = radio::unopened(present);
    let before = "HackRF is present at /dev/bus/usb/"@;
    assert(said.take(before.len() as int) =~= before);
}

} // verus!
