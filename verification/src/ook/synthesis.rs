//! Rendering timings as baseband samples.

use vstd::prelude::*;

use crate::ook::clock;

verus! {

/// Some samples of constant in-phase level, with the quadrature at zero.
pub open spec fn tone(level: u8, count: nat) -> Seq<u8> {
    Seq::new(
        2 * count,
        |k: int|
            if k % 2 == 0 {
                level
            } else {
                0
            },
    )
}

/// The byte that holds a signed level.
pub open spec fn level_byte(amplitude: i8) -> u8 {
    if amplitude < 0 {
        (amplitude + 256) as u8
    } else {
        amplitude as u8
    }
}

/// The level a timing is rendered at: a mark at the amplitude, a space at
/// zero.
pub open spec fn level_of(timing: i64, amplitude: i8) -> u8 {
    if timing > 0 {
        level_byte(amplitude)
    } else {
        0
    }
}

/// Timings as interleaved cs8 baseband.
pub open spec fn rendered(timings: Seq<i64>, sample_rate: u32, amplitude: i8) -> Seq<u8>
    decreases timings.len(),
{
    if timings.len() == 0 {
        Seq::empty()
    } else {
        rendered(timings.drop_last(), sample_rate, amplitude) + tone(
            level_of(timings.last(), amplitude),
            clock::sample_count(timings.last() as int, sample_rate) as nat,
        )
    }
}

/// A frame, then as many repeats, each after a gap.
pub open spec fn repeated(frame: Seq<u8>, gap: Seq<u8>, repeat: nat) -> Seq<u8>
    decreases repeat,
{
    if repeat == 0 {
        frame
    } else {
        repeated(frame, gap, (repeat - 1) as nat) + gap + frame
    }
}

/// A frame, repeated, with silence between the repetitions.
pub open spec fn transmission(
    timings: Seq<i64>,
    repeat: u32,
    gap_us: u32,
    sample_rate: u32,
    amplitude: i8,
) -> Seq<u8> {
    repeated(
        rendered(timings, sample_rate, amplitude),
        rendered(seq![(-gap_us) as i64], sample_rate, amplitude),
        repeat as nat,
    )
}

/// How many samples a list of timings is rendered as.
pub open spec fn total_samples(timings: Seq<i64>, sample_rate: u32) -> nat
    decreases timings.len(),
{
    if timings.len() == 0 {
        0
    } else {
        total_samples(timings.drop_last(), sample_rate) + clock::sample_count(
            timings.last() as int,
            sample_rate,
        ) as nat
    }
}

/// Each sample takes two bytes, whatever the amplitude.
pub proof fn rendered_length(timings: Seq<i64>, sample_rate: u32, amplitude: i8)
    ensures
        rendered(timings, sample_rate, amplitude).len() == 2 * total_samples(timings, sample_rate),
    decreases timings.len(),
{
    if timings.len() > 0 {
        rendered_length(timings.drop_last(), sample_rate, amplitude);
    }
}

/// A longer prefix is rendered as no fewer samples.
proof fn lemma_total_samples_grows(timings: Seq<i64>, count: int, sample_rate: u32)
    requires
        0 <= count <= timings.len(),
    ensures
        total_samples(timings.take(count), sample_rate) <= total_samples(timings, sample_rate),
    decreases timings.len(),
{
    if count < timings.len() {
        assert(timings.drop_last().take(count) == timings.take(count));
        lemma_total_samples_grows(timings.drop_last(), count, sample_rate);
    } else {
        assert(timings.take(count) == timings);
    }
}

/// Every repetition adds one frame and one gap.
pub proof fn repeated_length(frame: Seq<u8>, gap: Seq<u8>, repeat: nat)
    ensures
        repeated(frame, gap, repeat).len() == frame.len() + repeat * (gap.len() + frame.len()),
    decreases repeat,
{
    if repeat > 0 {
        repeated_length(frame, gap, (repeat - 1) as nat);
        let each = gap.len() + frame.len();
        assert((repeat - 1) * each + each == repeat * each) by (nonlinear_arith);
    } else {
        assert(0 * (gap.len() + frame.len()) == 0);
    }
}

/// A timing's silence is one space.
proof fn lemma_gap(gap_us: u32, sample_rate: u32)
    ensures
        total_samples(seq![(-gap_us) as i64], sample_rate) == clock::sample_count(
            -(gap_us as int),
            sample_rate,
        ),
{
    let gap = seq![(-gap_us) as i64];
    assert(gap.drop_last() == Seq::<i64>::empty());
    assert(total_samples(gap.drop_last(), sample_rate) == 0);
    clock::sample_count_bounds(-(gap_us as int), sample_rate);
}

/// Render Flipper-RAW timings as baseband cs8 for transmission.
///
/// Mark is a constant-amplitude DC baseband, which upconverts to an
/// unmodulated carrier at the tuned frequency; space is zero.
pub fn synthesize(timings: &[i64], sample_rate: u32, amplitude: i8) -> (result: Vec<u8>)
    requires
        rendered(timings@, sample_rate, amplitude).len() <= isize::MAX,
    ensures
        result@ == rendered(timings@, sample_rate, amplitude),
{
    let mut out: Vec<u8> = Vec::new();
    for k in 0..timings.len()
        invariant
            out@ == rendered(timings@.take(k as int), sample_rate, amplitude),
            rendered(timings@, sample_rate, amplitude).len() <= isize::MAX,
    {
        let timing: i64 = timings[k];
        let count: usize = clock::rendered_samples(timing, sample_rate);
        let level: u8 = if timing > 0 {
            if amplitude < 0 {
                (amplitude as i16 + 256) as u8
            } else {
                amplitude as u8
            }
        } else {
            0
        };
        let ghost before = out@;
        for n in 0..count
            invariant
                out@ == before + tone(level, n as nat),
        {
            out.push(level);
            out.push(0);
            assert(out@ =~= before + tone(level, (n + 1) as nat));
        }
        assert(timings@.take(k + 1).drop_last() == timings@.take(k as int));
    }
    assert(timings@.take(timings@.len() as int) == timings@);
    out
}

/// How many bytes a transmission is rendered as; `None` where that is more
/// than a buffer can hold.
pub fn transmission_bytes(timings: &[i64], repeat: u32, gap_us: u32, sample_rate: u32) -> (result:
    Option<usize>)
    ensures
        forall|amplitude: i8|
            #![trigger transmission(timings@, repeat, gap_us, sample_rate, amplitude)]
            match result {
                Some(bytes) => bytes == transmission(
                    timings@,
                    repeat,
                    gap_us,
                    sample_rate,
                    amplitude,
                ).len() && bytes <= isize::MAX,
                None => transmission(timings@, repeat, gap_us, sample_rate, amplitude).len()
                    > isize::MAX,
            },
{
    let ghost gap_timings = seq![(-gap_us) as i64];
    let ghost frame_samples = total_samples(timings@, sample_rate);
    let ghost gap_samples = total_samples(gap_timings, sample_rate);
    proof {
        assert forall|amplitude: i8| #[trigger]
            transmission(timings@, repeat, gap_us, sample_rate, amplitude).len() == 2
                * frame_samples + repeat * (2 * gap_samples + 2 * frame_samples) by {
            rendered_length(timings@, sample_rate, amplitude);
            rendered_length(gap_timings, sample_rate, amplitude);
            repeated_length(
                rendered(timings@, sample_rate, amplitude),
                rendered(gap_timings, sample_rate, amplitude),
                repeat as nat,
            );
        }
        lemma_gap(gap_us, sample_rate);
        assert(repeat * (2 * gap_samples + 2 * frame_samples) >= 0) by (nonlinear_arith);
    }
    let limit: u128 = isize::MAX as u128;
    let mut frame: u128 = 0;
    for k in 0..timings.len()
        invariant
            limit == isize::MAX,
            frame_samples == total_samples(timings@, sample_rate),
            frame == total_samples(timings@.take(k as int), sample_rate),
            frame <= limit,
            forall|amplitude: i8| #[trigger]
                transmission(timings@, repeat, gap_us, sample_rate, amplitude).len() >= 2
                    * frame_samples,
    {
        proof {
            assert(timings@.take(k + 1).drop_last() == timings@.take(k as int));
            lemma_total_samples_grows(timings@, k + 1, sample_rate);
            clock::sample_count_bounds(timings@[k as int] as int, sample_rate);
        }
        frame = frame + clock::rendered_samples(timings[k], sample_rate) as u128;
        if frame > limit {
            return None;
        }
    }
    assert(timings@.take(timings@.len() as int) == timings@);
    let gap: u128 = clock::rendered_samples(-(gap_us as i64), sample_rate) as u128;
    assert(repeat * (2 * gap + 2 * frame) <= 0xFFFF_FFFF * (4 * 0xFFFF_FFFF_FFFF_FFFF))
        by (nonlinear_arith)
        requires
            repeat <= 0xFFFF_FFFF,
            gap <= 0xFFFF_FFFF_FFFF_FFFF,
            frame <= 0xFFFF_FFFF_FFFF_FFFF,
    ;
    let bytes: u128 = 2 * frame + repeat as u128 * (2 * gap + 2 * frame);
    if bytes > limit {
        None
    } else {
        Some(bytes as usize)
    }
}

/// Render a transmission (a frame, repeated, with silence between the
/// repetitions) as a baseband cs8 buffer ready for the radio.
///
/// Shared by the CLI and the daemon so that what the research tool proved on
/// air and what the daemon sends are the same waveform.
pub fn render_transmission(
    timings: &[i64],
    repeat: u32,
    gap_us: u32,
    sample_rate: u32,
    amplitude: i8,
) -> (result: Vec<u8>)
    requires
        transmission(timings@, repeat, gap_us, sample_rate, amplitude).len() <= isize::MAX,
    ensures
        result@ == transmission(timings@, repeat, gap_us, sample_rate, amplitude),
{
    let ghost frame_bytes = rendered(timings@, sample_rate, amplitude);
    let ghost gap_bytes = rendered(seq![(-gap_us) as i64], sample_rate, amplitude);
    proof {
        repeated_length(frame_bytes, gap_bytes, repeat as nat);
        let each = gap_bytes.len() + frame_bytes.len();
        assert(repeat * each >= 0) by (nonlinear_arith);
        if repeat > 0 {
            assert(repeat * each >= each) by (nonlinear_arith)
                requires
                    repeat >= 1,
                    each >= 0,
            ;
        }
    }
    let frame: Vec<u8> = synthesize(timings, sample_rate, amplitude);
    if repeat == 0 {
        return frame;
    }
    let silence: [i64; 1] = [-(gap_us as i64)];
    assert(silence@ =~= seq![(-gap_us) as i64]);
    let gap: Vec<u8> = synthesize(&silence, sample_rate, amplitude);

    let mut samples: Vec<u8> = Vec::new();
    samples.extend_from_slice(&frame);
    assert(samples@ =~= repeated(frame_bytes, gap_bytes, 0));
    for iteration in 0..repeat
        invariant
            frame@ == frame_bytes,
            gap@ == gap_bytes,
            samples@ == repeated(frame_bytes, gap_bytes, iteration as nat),
    {
        let ghost before = samples@;
        samples.extend_from_slice(&gap);
        samples.extend_from_slice(&frame);
        assert(samples@ =~= before + gap_bytes + frame_bytes);
    }
    samples
}

} // verus!
